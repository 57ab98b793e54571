//! The number that a word spells under an assignment of digits to letters.

use vstd::prelude::*;

verus! {

/// The digit that `mapping` gives to `letter`: that of the first pair that
/// holds the letter, if there is one.
pub open spec fn digit_of(mapping: Seq<(char, u32)>, letter: char) -> Option<u32>
    decreases mapping.len(),
{
    if mapping.len() == 0 {
        None
    } else if mapping[0].0 == letter {
        Some(mapping[0].1)
    } else {
        digit_of(mapping.drop_first(), letter)
    }
}

/// Every letter of `word` has a digit in `mapping`.
pub open spec fn covers(mapping: Seq<(char, u32)>, word: Seq<char>) -> bool {
    forall|i: int| 0 <= i < word.len() ==> digit_of(mapping, #[trigger] word[i]) is Some
}

/// The number that `word` spells in base ten once each letter is replaced by
/// its digit, the first letter being the most significant. A letter without a
/// digit counts as zero.
pub open spec fn word_value(word: Seq<char>, mapping: Seq<(char, u32)>) -> nat
    decreases word.len(),
{
    if word.len() == 0 {
        0
    } else {
        let digit: nat = match digit_of(mapping, word.last()) {
            Some(d) => d as nat,
            None => 0,
        };
        10 * word_value(word.drop_last(), mapping) + digit
    }
}

/// The sum of the numbers that the words spell under `mapping`.
pub open spec fn sum_of_values(words: Seq<Seq<char>>, mapping: Seq<(char, u32)>) -> nat
    decreases words.len(),
{
    if words.len() == 0 {
        0
    } else {
        sum_of_values(words.drop_last(), mapping) + word_value(words.last(), mapping)
    }
}

/// The puzzle's arithmetic holds under `mapping`: the operands add up to the
/// result.
pub open spec fn is_valid(
    words: Seq<Seq<char>>,
    result: Seq<char>,
    mapping: Seq<(char, u32)>,
) -> bool {
    sum_of_values(words, mapping) == word_value(result, mapping)
}

/// Every word of the puzzle can be read under `mapping` as a number that fits
/// the machine's 64-bit integers: each letter has a digit, and no word spells
/// more than `u64::MAX`.
pub open spec fn is_readable(
    words: Seq<Seq<char>>,
    result: Seq<char>,
    mapping: Seq<(char, u32)>,
) -> bool {
    &&& forall|i: int|
        0 <= i < words.len() ==> covers(mapping, #[trigger] words[i]) && word_value(
            words[i],
            mapping,
        ) <= u64::MAX
    &&& covers(mapping, result)
    &&& word_value(result, mapping) <= u64::MAX
}

/// The longest word whose number fits a `u64` whatever digits its letters
/// get.
pub const MAX_WORD_LEN: usize = 19;

/// The largest number of `len` decimal digits.
pub open spec fn max_value(len: nat) -> nat
    decreases len,
{
    if len == 0 {
        0
    } else {
        10 * max_value((len - 1) as nat) + 9
    }
}

/// Where `digit_of` finds its digit: in the first pair that holds the letter.
pub proof fn lemma_digit_of(mapping: Seq<(char, u32)>, letter: char)
    ensures
        match digit_of(mapping, letter) {
            Some(digit) => exists|i: int|
                0 <= i < mapping.len() && mapping[i] == (letter, digit) && forall|j: int|
                    0 <= j < i ==> mapping[j].0 != letter,
            None => forall|i: int| 0 <= i < mapping.len() ==> mapping[i].0 != letter,
        },
    decreases mapping.len(),
{
    if mapping.len() > 0 && mapping[0].0 != letter {
        let rest = mapping.drop_first();
        lemma_digit_of(rest, letter);
        match digit_of(rest, letter) {
            Some(digit) => {
                let i = choose|i: int|
                    0 <= i < rest.len() && rest[i] == (letter, digit) && forall|j: int|
                        0 <= j < i ==> rest[j].0 != letter;
                assert(mapping[i + 1] == (letter, digit));
                assert forall|j: int| 0 <= j < i + 1 implies mapping[j].0 != letter by {
                    if j > 0 {
                        assert(rest[j - 1].0 != letter);
                    }
                }
            },
            None => {
                assert forall|i: int| 0 <= i < mapping.len() implies mapping[i].0 != letter by {
                    if i > 0 {
                        assert(rest[i - 1].0 != letter);
                    }
                }
            },
        }
    } else if mapping.len() > 0 {
        assert(mapping[0] == (letter, mapping[0].1));
    }
}

/// With decimal digits only, a word spells at most the largest number of its
/// length.
pub proof fn lemma_value_bound(word: Seq<char>, mapping: Seq<(char, u32)>)
    requires
        forall|i: int| 0 <= i < mapping.len() ==> (#[trigger] mapping[i]).1 <= 9,
    ensures
        word_value(word, mapping) <= max_value(word.len()),
    decreases word.len(),
{
    if word.len() > 0 {
        lemma_value_bound(word.drop_last(), mapping);
        lemma_digit_of(mapping, word.last());
    }
}

/// A number of fewer digits is no larger than the largest of more digits, so
/// that none of up to `MAX_WORD_LEN` digits exceeds `u64::MAX`.
pub proof fn lemma_max_value(len: nat, longer: nat)
    requires
        len <= longer,
    ensures
        max_value(len) <= max_value(longer),
        longer == MAX_WORD_LEN ==> max_value(len) <= u64::MAX,
    decreases longer,
{
    if len < longer {
        lemma_max_value(len, (longer - 1) as nat);
    }
    if longer == MAX_WORD_LEN {
        reveal_with_fuel(max_value, 20);
        assert(max_value(19) == 9_999_999_999_999_999_999);
    }
}

/// A prefix of a word never spells more than the word.
pub proof fn lemma_prefix_value(word: Seq<char>, mapping: Seq<(char, u32)>, n: int)
    requires
        0 <= n <= word.len(),
    ensures
        word_value(word.take(n), mapping) <= word_value(word, mapping),
    decreases word.len() - n,
{
    if n == word.len() {
        assert(word.take(n) =~= word);
    } else {
        lemma_prefix_value(word.drop_last(), mapping, n);
        assert(word.drop_last().take(n) =~= word.take(n));
    }
}

/// Looks `letter` up in `mapping`.
pub fn find_digit(mapping: &[(char, u32)], letter: char) -> (digit: Option<u32>)
    ensures
        digit == digit_of(mapping@, letter),
{
    let mut i: usize = 0;
    assert(mapping@.skip(0) =~= mapping@);
    while i < mapping.len()
        invariant
            i <= mapping.len(),
            digit_of(mapping@, letter) == digit_of(mapping@.skip(i as int), letter),
        decreases mapping.len() - i,
    {
        if mapping[i].0 == letter {
            return Some(mapping[i].1);
        }
        assert(mapping@.skip(i as int).drop_first() =~= mapping@.skip(i as int + 1));
        i += 1;
    }
    None
}

/// Reads `word` as a number in base ten under `mapping`, the first letter
/// being the most significant digit. A word may begin with the digit zero.
///
/// Every letter of the word must have a digit in the mapping, and the number
/// must fit a `u64`.
pub fn word_to_number(word: &str, mapping: &[(char, u32)]) -> (number: u64)
    requires
        covers(mapping@, word@),
        word_value(word@, mapping@) <= u64::MAX,
    ensures
        number == word_value(word@, mapping@),
{
    let mut number: u64 = 0;
    for c in it: word.chars()
        invariant
            covers(mapping@, word@),
            word_value(word@, mapping@) <= u64::MAX,
            it.seq() == word@,
            number == word_value(word@.take(it.index()), mapping@),
    {
        let digit: u32 = find_digit(mapping, c).unwrap();
        proof {
            let n = it.index();
            assert(word@.take(n + 1).drop_last() =~= word@.take(n));
            lemma_prefix_value(word@, mapping@, n + 1);
        }
        number = number * 10 + digit as u64;
    }
    assert(word@.take(word@.len() as int) =~= word@);
    number
}

/// The sum of the first `n` words is at most the sum of them all.
proof fn lemma_partial_sum(words: Seq<Seq<char>>, mapping: Seq<(char, u32)>, n: int)
    requires
        0 <= n <= words.len(),
    ensures
        sum_of_values(words.take(n), mapping) <= sum_of_values(words, mapping),
    decreases words.len() - n,
{
    if n == words.len() {
        assert(words.take(n) =~= words);
    } else {
        lemma_partial_sum(words.drop_last(), mapping, n);
        assert(words.drop_last().take(n) =~= words.take(n));
    }
}

/// Tells whether the operand words add up to the result word under `mapping`.
///
/// Every word must be readable under the mapping. The sum itself need not
/// fit a `u64`: one that does not is more than any result.
pub fn is_valid_solution(words: &Vec<String>, result: &String, mapping: &[(char, u32)]) -> (valid:
    bool)
    requires
        is_readable(words.deep_view(), result@, mapping@),
    ensures
        valid == is_valid(words.deep_view(), result@, mapping@),
{
    let ghost texts = words.deep_view();
    let target: u64 = word_to_number(result.as_str(), mapping);
    let mut sum: u64 = 0;
    let mut i: usize = 0;
    while i < words.len()
        invariant
            i <= words.len(),
            texts == words.deep_view(),
            is_readable(texts, result@, mapping@),
            sum == sum_of_values(texts.take(i as int), mapping@),
            sum <= target,
            target == word_value(result@, mapping@),
        decreases words.len() - i,
    {
        assert(texts[i as int] == words[i as int]@);
        let value: u64 = word_to_number(words[i].as_str(), mapping);
        proof {
            assert(texts.take(i + 1).drop_last() =~= texts.take(i as int));
            lemma_partial_sum(texts, mapping@, i + 1);
        }
        if value > target - sum {
            return false;
        }
        sum = sum + value;
        i += 1;
    }
    assert(texts.take(i as int) =~= texts);
    sum == target
}

} // verus!
