//! The distinct letters of a puzzle, in the order in which they first occur.

use vstd::prelude::*;

verus! {

/// Every letter of the puzzle in reading order: the operand words one after
/// another, then the result word.
pub open spec fn puzzle_text(words: Seq<Seq<char>>, result: Seq<char>) -> Seq<char> {
    words.flatten() + result
}

/// `seen`, followed by the letters of `text` that are new, each where it
/// first occurs.
pub open spec fn with_letters(seen: Seq<char>, text: Seq<char>) -> Seq<char>
    decreases text.len(),
{
    if text.len() == 0 {
        seen
    } else {
        let before = with_letters(seen, text.drop_last());
        if before.contains(text.last()) {
            before
        } else {
            before.push(text.last())
        }
    }
}

/// The letters of `text` without repetition, in the order of their first
/// occurrence.
pub open spec fn distinct_letters(text: Seq<char>) -> Seq<char> {
    with_letters(Seq::empty(), text)
}

/// Reading `a` and then `b` finds the same letters as reading `a + b`.
pub proof fn lemma_with_letters_concat(seen: Seq<char>, a: Seq<char>, b: Seq<char>)
    ensures
        with_letters(with_letters(seen, a), b) == with_letters(seen, a + b),
    decreases b.len(),
{
    if b.len() == 0 {
        assert(a + b =~= a);
    } else {
        lemma_with_letters_concat(seen, a, b.drop_last());
        assert((a + b).drop_last() =~= a + b.drop_last());
    }
}

/// What `with_letters` keeps: nothing of `seen` is lost or moved, no letter
/// is added twice, and the letters held are those of `seen` and of `text`.
pub proof fn lemma_with_letters(seen: Seq<char>, text: Seq<char>)
    ensures
        seen.is_prefix_of(with_letters(seen, text)),
        seen.no_duplicates() ==> with_letters(seen, text).no_duplicates(),
        forall|c: char|
            with_letters(seen, text).contains(c) <==> seen.contains(c) || text.contains(c),
        with_letters(seen, text).len() <= seen.len() + text.len(),
    decreases text.len(),
{
    let all = with_letters(seen, text);
    if text.len() == 0 {
        assert forall|c: char| all.contains(c) <==> seen.contains(c) || text.contains(c) by {
            if text.contains(c) {
                let i = choose|i: int| 0 <= i < text.len() && text[i] == c;
            }
        }
    } else {
        let front = text.drop_last();
        let before = with_letters(seen, front);
        lemma_with_letters(seen, front);
        assert forall|c: char| all.contains(c) <==> seen.contains(c) || text.contains(c) by {
            if all.contains(c) {
                let i = choose|i: int| 0 <= i < all.len() && all[i] == c;
                if i < before.len() {
                    assert(before[i] == c);
                    assert(before.contains(c));
                    if front.contains(c) {
                        let j = choose|j: int| 0 <= j < front.len() && front[j] == c;
                        assert(text[j] == c);
                    }
                } else {
                    assert(text[text.len() - 1] == c);
                }
            }
            if text.contains(c) {
                let j = choose|j: int| 0 <= j < text.len() && text[j] == c;
                if j < front.len() {
                    assert(front[j] == c);
                    assert(front.contains(c));
                    assert(before.contains(c));
                }
                let i = choose|i: int| 0 <= i < before.len() && before[i] == c;
                if before.contains(c) {
                    assert(all[i] == c);
                } else {
                    assert(all[all.len() - 1] == c);
                }
            }
            if seen.contains(c) {
                assert(before.contains(c));
                let i = choose|i: int| 0 <= i < before.len() && before[i] == c;
                assert(all[i] == c);
            }
        }
    }
}

/// The distinct letters of a text hold no letter twice, and hold exactly the
/// letters that occur in the text.
pub proof fn lemma_distinct_letters(text: Seq<char>)
    ensures
        distinct_letters(text).no_duplicates(),
        forall|c: char| distinct_letters(text).contains(c) <==> text.contains(c),
        distinct_letters(text).len() <= text.len(),
{
    lemma_with_letters(Seq::empty(), text);
    assert forall|c: char| !Seq::<char>::empty().contains(c) by {}
}

/// The distinct letters stand in the order of their first occurrence: of two
/// of them, the earlier one occurs in the text before the later one does.
pub proof fn lemma_first_occurrence_order(text: Seq<char>, i: int, j: int)
    requires
        0 <= i < j < distinct_letters(text).len(),
    ensures
        exists|at: int|
            0 <= at < text.len() && text[at] == distinct_letters(text)[i] && forall|before: int|
                0 <= before <= at ==> text[before] != distinct_letters(text)[j],
    decreases text.len(),
{
    let letters = distinct_letters(text);
    let front = text.drop_last();
    let found = distinct_letters(front);
    lemma_distinct_letters(text);
    lemma_distinct_letters(front);
    if j < found.len() {
        lemma_first_occurrence_order(front, i, j);
        let at = choose|at: int|
            0 <= at < front.len() && front[at] == found[i] && forall|before: int|
                0 <= before <= at ==> front[before] != found[j];
        assert(text[at] == letters[i]);
        assert forall|before: int| 0 <= before <= at implies text[before] != letters[j] by {
            assert(front[before] != found[j]);
        }
    } else {
        assert(found.contains(found[i]));
        assert(front.contains(letters[i]));
        let at = choose|at: int| 0 <= at < front.len() && front[at] == letters[i];
        assert(text[at] == letters[i]);
        assert forall|before: int| 0 <= before <= at implies text[before] != letters[j] by {
            if text[before] == letters[j] {
                assert(front[before] == letters[j]);
                assert(front.contains(letters[j]));
                assert(found.contains(text.last()));
            }
        }
    }
}

/// Tells whether `letters` holds `letter`.
fn has_letter(letters: &Vec<char>, letter: char) -> (found: bool)
    ensures
        found == letters@.contains(letter),
{
    let mut i: usize = 0;
    while i < letters.len()
        invariant
            i <= letters.len(),
            forall|j: int| 0 <= j < i ==> letters@[j] != letter,
        decreases letters.len() - i,
    {
        if letters[i] == letter {
            return true;
        }
        i += 1;
    }
    false
}

/// Appends to `letters` each letter of `word` that it does not hold yet.
fn add_letters(letters: &mut Vec<char>, word: &str)
    ensures
        final(letters)@ == with_letters(old(letters)@, word@),
{
    let ghost seen = letters@;
    for c in it: word.chars()
        invariant
            it.seq() == word@,
            letters@ == with_letters(seen, word@.take(it.index())),
    {
        assert(word@.take(it.index() + 1).drop_last() =~= word@.take(it.index()));
        if !has_letter(letters, c) {
            letters.push(c);
        }
    }
    assert(word@.take(word@.len() as int) =~= word@);
}

/// Collects the distinct letters of the puzzle, reading the operand words in
/// order and then the result word.
pub fn collect_letters(words: &Vec<String>, result: &String) -> (letters: Vec<char>)
    ensures
        letters@ == distinct_letters(puzzle_text(words.deep_view(), result@)),
{
    let ghost texts = words.deep_view();
    let mut letters: Vec<char> = Vec::new();
    let mut i: usize = 0;
    assert(texts.take(0).flatten() =~= Seq::<char>::empty());
    while i < words.len()
        invariant
            i <= words.len(),
            texts == words.deep_view(),
            letters@ == distinct_letters(texts.take(i as int).flatten()),
        decreases words.len() - i,
    {
        add_letters(&mut letters, words[i].as_str());
        proof {
            let read = texts.take(i as int);
            assert(texts[i as int] == words[i as int]@);
            assert(texts.take(i + 1) =~= read.push(texts[i as int]));
            read.lemma_flatten_push(texts[i as int]);
            lemma_with_letters_concat(Seq::empty(), read.flatten(), texts[i as int]);
        }
        i += 1;
    }
    add_letters(&mut letters, result.as_str());
    proof {
        assert(texts.take(i as int) =~= texts);
        lemma_with_letters_concat(Seq::empty(), texts.flatten(), result@);
    }
    letters
}

} // verus!
