//! The search for the first assignment of digits that solves a puzzle.

use crate::arrangements::{
    is_arrangement, lemma_arrangement_length, lemma_lex_less_asymmetric, lemma_lex_less_total,
    lex_less, lists_arrangements, next_permutation, pending, permutations_below,
};
use crate::letters::{collect_letters, distinct_letters, lemma_distinct_letters, puzzle_text};
use crate::value::{
    covers, digit_of, is_readable, is_valid, is_valid_solution, lemma_digit_of, lemma_max_value,
    lemma_value_bound, word_value, MAX_WORD_LEN,
};
use itertools::Permutations;
use std::ops::Range;
use vstd::prelude::*;
use vstd::string::StrSliceExecFns;

verus! {

/// How many digits there are to give out.
pub const DIGIT_COUNT: u32 = 10;

/// The letters to which a puzzle's solution gives digits: its distinct
/// letters, in the order in which they first occur.
pub open spec fn puzzle_letters(words: Seq<Seq<char>>, result: Seq<char>) -> Seq<char> {
    distinct_letters(puzzle_text(words, result))
}

/// No word of the puzzle is longer than `MAX_WORD_LEN`.
pub open spec fn words_fit(words: Seq<Seq<char>>, result: Seq<char>) -> bool {
    &&& forall|i: int| 0 <= i < words.len() ==> (#[trigger] words[i]).len() <= MAX_WORD_LEN
    &&& result.len() <= MAX_WORD_LEN
}

/// The mapping that gives each letter the digit at its own place, as far as
/// both sequences reach.
pub open spec fn pair_up(letters: Seq<char>, digits: Seq<u32>) -> Seq<(char, u32)> {
    Seq::new(
        if letters.len() <= digits.len() {
            letters.len()
        } else {
            digits.len()
        },
        |i: int| (letters[i], digits[i]),
    )
}

/// The letters of a mapping, in its order.
pub open spec fn letters_of(mapping: Seq<(char, u32)>) -> Seq<char> {
    Seq::new(mapping.len(), |i: int| mapping[i].0)
}

/// The digits of a mapping, in its order.
pub open spec fn digits_of(mapping: Seq<(char, u32)>) -> Seq<u32> {
    Seq::new(mapping.len(), |i: int| mapping[i].1)
}

/// No two pairs of the mapping share a letter, and no two share a digit.
pub open spec fn is_injective(mapping: Seq<(char, u32)>) -> bool {
    forall|i: int, j: int|
        0 <= i < j < mapping.len() ==> mapping[i].0 != mapping[j].0 && mapping[i].1
            != mapping[j].1
}

/// What makes a sequence of pairs a mapping of letters to digits: it is
/// injective, and each of its digits is below `DIGIT_COUNT`.
pub open spec fn is_mapping(mapping: Seq<(char, u32)>) -> bool {
    &&& is_injective(mapping)
    &&& forall|i: int| 0 <= i < mapping.len() ==> (#[trigger] mapping[i]).1 < DIGIT_COUNT
}

/// `digits` are distinct decimal digits, one for each letter of the puzzle,
/// and giving them to the letters in order makes the arithmetic hold.
pub open spec fn solves(words: Seq<Seq<char>>, result: Seq<char>, digits: Seq<u32>) -> bool {
    let letters = puzzle_letters(words, result);
    &&& is_arrangement(digits, DIGIT_COUNT as nat, letters.len())
    &&& is_valid(words, result, pair_up(letters, digits))
}

/// Some assignment of digits solves the puzzle.
pub open spec fn has_solution(words: Seq<Seq<char>>, result: Seq<char>) -> bool {
    exists|digits: Seq<u32>| solves(words, result, digits)
}

/// `mapping` pairs the puzzle's letters with digits that solve it, and no
/// digits that come before them in dictionary order do.
pub open spec fn is_first_solution(
    words: Seq<Seq<char>>,
    result: Seq<char>,
    mapping: Seq<(char, u32)>,
) -> bool {
    &&& letters_of(mapping) == puzzle_letters(words, result)
    &&& solves(words, result, digits_of(mapping))
    &&& forall|other: Seq<u32>| #[trigger]
        lex_less(other, digits_of(mapping)) ==> !solves(words, result, other)
}

/// What a search of the puzzle may return: its first solution, or nothing
/// where it has no solution.
pub open spec fn is_search_result(
    words: Seq<Seq<char>>,
    result: Seq<char>,
    found: Option<Seq<(char, u32)>>,
) -> bool {
    match found {
        Some(mapping) => is_first_solution(words, result, mapping),
        None => !has_solution(words, result),
    }
}

/// The mapping that was found, as a sequence of pairs.
pub open spec fn found_view(found: Option<Vec<(char, u32)>>) -> Option<Seq<(char, u32)>> {
    match found {
        Some(mapping) => Some(mapping@),
        None => None,
    }
}

/// Tells whether no word of the puzzle is longer than `MAX_WORD_LEN`, so
/// that the puzzle can be searched.
pub fn puzzle_fits(words: &Vec<String>, result: &String) -> (fits: bool)
    ensures
        fits == words_fit(words.deep_view(), result@),
{
    if result.as_str().unicode_len() > MAX_WORD_LEN {
        return false;
    }
    let mut i: usize = 0;
    while i < words.len()
        invariant
            i <= words.len(),
            forall|j: int| 0 <= j < i ==> (#[trigger] words.deep_view()[j]).len() <= MAX_WORD_LEN,
        decreases words.len() - i,
    {
        assert(words.deep_view()[i as int] == words[i as int]@);
        if words[i].as_str().unicode_len() > MAX_WORD_LEN {
            return false;
        }
        i += 1;
    }
    true
}

/// Pairs each letter with the digit at the same place.
pub fn pair_letters(letters: &Vec<char>, digits: &Vec<u32>) -> (mapping: Vec<(char, u32)>)
    ensures
        mapping@ == pair_up(letters@, digits@),
{
    let mut mapping: Vec<(char, u32)> = Vec::new();
    let mut i: usize = 0;
    while i < letters.len() && i < digits.len()
        invariant
            i <= letters.len(),
            i <= digits.len(),
            mapping@.len() == i,
            forall|j: int| 0 <= j < i ==> mapping@[j] == (letters@[j], digits@[j]),
        decreases letters.len() - i,
    {
        mapping.push((letters[i], digits[i]));
        i += 1;
    }
    assert(mapping@ =~= pair_up(letters@, digits@));
    mapping
}

/// Each letter of each word of a sequence occurs in the words put together.
proof fn lemma_flatten_contains(words: Seq<Seq<char>>, w: int, i: int)
    requires
        0 <= w < words.len(),
        0 <= i < words[w].len(),
    ensures
        words.flatten().contains(words[w][i]),
    decreases words.len(),
{
    let rest = words.drop_first();
    if w == 0 {
        assert(words.flatten()[i] == words[w][i]);
    } else {
        lemma_flatten_contains(rest, w - 1, i);
        let at = choose|at: int| 0 <= at < rest.flatten().len() && rest.flatten()[at] == words[w][i];
        assert(words.flatten()[words.first().len() + at] == words[w][i]);
    }
}

/// Pairing a puzzle's letters with as many distinct decimal digits gives a
/// mapping, under which every word of the puzzle has a number; where no word
/// is longer than `MAX_WORD_LEN`, each of these numbers fits a `u64`.
pub proof fn lemma_candidate(words: Seq<Seq<char>>, result: Seq<char>, digits: Seq<u32>)
    requires
        is_arrangement(digits, DIGIT_COUNT as nat, puzzle_letters(words, result).len()),
    ensures
        is_mapping(pair_up(puzzle_letters(words, result), digits)),
        words_fit(words, result) ==> is_readable(
            words,
            result,
            pair_up(puzzle_letters(words, result), digits),
        ),
{
    let text = puzzle_text(words, result);
    let letters = puzzle_letters(words, result);
    let mapping = pair_up(letters, digits);
    lemma_distinct_letters(text);
    assert forall|c: char| text.contains(c) implies digit_of(mapping, c) is Some by {
        assert(letters.contains(c));
        let i = choose|i: int| 0 <= i < letters.len() && letters[i] == c;
        assert(mapping[i].0 == c);
        lemma_digit_of(mapping, c);
    }
    assert forall|w: int| 0 <= w < words.len() implies covers(mapping, #[trigger] words[w]) by {
        assert forall|i: int| 0 <= i < words[w].len() implies digit_of(
            mapping,
            #[trigger] words[w][i],
        ) is Some by {
            lemma_flatten_contains(words, w, i);
            let at = choose|at: int|
                0 <= at < words.flatten().len() && words.flatten()[at] == words[w][i];
            assert(text[at] == words[w][i]);
            assert(text.contains(words[w][i]));
        }
    }
    assert forall|i: int| 0 <= i < result.len() implies digit_of(mapping, #[trigger] result[i])
        is Some by {
        assert(text[words.flatten().len() + i] == result[i]);
        assert(text.contains(result[i]));
    }
    if words_fit(words, result) {
        assert forall|w: int| 0 <= w < words.len() implies word_value(
            #[trigger] words[w],
            mapping,
        ) <= u64::MAX by {
            lemma_value_bound(words[w], mapping);
            lemma_max_value(words[w].len(), MAX_WORD_LEN as nat);
        }
        lemma_value_bound(result, mapping);
        lemma_max_value(result.len(), MAX_WORD_LEN as nat);
    }
}

/// A puzzle has at most one first solution.
pub proof fn lemma_first_solution_unique(
    words: Seq<Seq<char>>,
    result: Seq<char>,
    a: Seq<(char, u32)>,
    b: Seq<(char, u32)>,
)
    requires
        is_first_solution(words, result, a),
        is_first_solution(words, result, b),
    ensures
        a == b,
{
    if digits_of(a) != digits_of(b) {
        lemma_lex_less_total(digits_of(a), digits_of(b));
    }
    assert(a.len() == letters_of(a).len());
    assert(b.len() == letters_of(b).len());
    assert forall|i: int| 0 <= i < a.len() implies a[i] == b[i] by {
        assert(letters_of(a)[i] == letters_of(b)[i]);
        assert(digits_of(a)[i] == digits_of(b)[i]);
    }
    assert(a =~= b);
}

/// What a first solution is worth: it gives pairwise distinct decimal
/// digits to pairwise distinct letters, the arithmetic holds under it, and
/// where the words are short enough for the machine it lets them be read.
pub proof fn lemma_first_solution_sound(
    words: Seq<Seq<char>>,
    result: Seq<char>,
    mapping: Seq<(char, u32)>,
)
    requires
        is_first_solution(words, result, mapping),
    ensures
        has_solution(words, result),
        is_mapping(mapping),
        is_valid(words, result, mapping),
        words_fit(words, result) ==> is_readable(words, result, mapping),
{
    assert(mapping =~= pair_up(puzzle_letters(words, result), digits_of(mapping)));
    lemma_candidate(words, result, digits_of(mapping));
}

/// The search is a function of the puzzle: whatever two searches of one
/// puzzle return is the same, be it a mapping or nothing.
pub proof fn lemma_search_deterministic(
    words: Seq<Seq<char>>,
    result: Seq<char>,
    a: Option<Seq<(char, u32)>>,
    b: Option<Seq<(char, u32)>>,
)
    requires
        is_search_result(words, result, a),
        is_search_result(words, result, b),
    ensures
        a == b,
{
    if let Some(mapping) = a {
        lemma_first_solution_sound(words, result, mapping);
    }
    if let Some(mapping) = b {
        lemma_first_solution_sound(words, result, mapping);
    }
    if a is Some && b is Some {
        lemma_first_solution_unique(words, result, a.unwrap(), b.unwrap());
    }
}

/// A puzzle with more distinct letters than there are digits has no
/// solution.
pub proof fn lemma_too_many_letters(words: Seq<Seq<char>>, result: Seq<char>)
    requires
        puzzle_letters(words, result).len() > DIGIT_COUNT,
    ensures
        !has_solution(words, result),
{
    assert forall|digits: Seq<u32>| !solves(words, result, digits) by {
        let k = puzzle_letters(words, result).len();
        if is_arrangement(digits, DIGIT_COUNT as nat, k) {
            lemma_arrangement_length(digits, DIGIT_COUNT as nat, k);
        }
    }
}

/// Finds the digits that solve the puzzle `words[0] + words[1] + ... =
/// result`.
///
/// Each distinct letter gets a digit of its own; a word may begin with zero.
/// Of all solutions the one returned is the first in dictionary order of the
/// digits, read along the letters in the order of their first occurrence.
/// `None` says that the puzzle has no solution, which is so in particular
/// where it has more than `DIGIT_COUNT` distinct letters.
///
/// The words are read as `u64` numbers, so none may be longer than
/// `MAX_WORD_LEN`; `puzzle_fits` tells whether that holds.
pub fn solve_crypto_arithmetic(words: Vec<String>, result: String) -> (found: Option<
    Vec<(char, u32)>,
>)
    requires
        words_fit(words.deep_view(), result@),
    ensures
        is_search_result(words.deep_view(), result@, found_view(found)),
        found matches Some(mapping) ==> is_mapping(mapping@) && is_readable(
            words.deep_view(),
            result@,
            mapping@,
        ) && is_valid(words.deep_view(), result@, mapping@),
        puzzle_letters(words.deep_view(), result@).len() > DIGIT_COUNT ==> found is None,
{
    let ghost texts = words.deep_view();
    let letters: Vec<char> = collect_letters(&words, &result);
    if letters.len() > DIGIT_COUNT as usize {
        proof {
            lemma_too_many_letters(texts, result@);
        }
        return None;
    }
    let mut perms: Permutations<Range<u32>> = permutations_below(DIGIT_COUNT, letters.len());
    let ghost all = pending(perms);
    let ghost mut tried: int = 0;
    assert(all.skip(0) =~= all);
    loop
        invariant
            texts == words.deep_view(),
            words_fit(texts, result@),
            letters@ == puzzle_letters(texts, result@),
            letters@.len() <= DIGIT_COUNT,
            lists_arrangements(all, DIGIT_COUNT as nat, letters@.len() as nat),
            0 <= tried <= all.len(),
            pending(perms) == all.skip(tried),
            forall|j: int| 0 <= j < tried ==> !solves(texts, result@, #[trigger] all[j]),
        decreases all.len() - tried,
    {
        match next_permutation(&mut perms) {
            None => {
                proof {
                    assert forall|digits: Seq<u32>| !solves(texts, result@, digits) by {
                        if is_arrangement(digits, DIGIT_COUNT as nat, letters@.len() as nat) {
                            assert(all.contains(digits));
                        }
                    }
                }
                return None;
            },
            Some(digits) => {
                let mapping: Vec<(char, u32)> = pair_letters(&letters, &digits);
                proof {
                    assert(digits@ == all[tried]);
                    assert(all.skip(tried).drop_first() =~= all.skip(tried + 1));
                    lemma_candidate(texts, result@, digits@);
                }
                if is_valid_solution(&words, &result, mapping.as_slice()) {
                    proof {
                        assert(digits_of(mapping@) =~= digits@);
                        assert(letters_of(mapping@) =~= letters@);
                        assert forall|other: Seq<u32>| #[trigger]
                            lex_less(other, digits@) implies !solves(texts, result@, other) by {
                            if solves(texts, result@, other) {
                                assert(all.contains(other));
                                let j = choose|j: int| 0 <= j < all.len() && all[j] == other;
                                lemma_lex_less_asymmetric(other, digits@);
                            }
                        }
                        lemma_first_solution_sound(texts, result@, mapping@);
                    }
                    return Some(mapping);
                }
                proof {
                    tried = tried + 1;
                }
            },
        }
    }
}

} // verus!
