//! From two lines of text to the words of a puzzle.

use vstd::prelude::*;
use vstd::string::StrSliceExecFns;

verus! {

/// Whether a character is white space, as Unicode defines it (the property
/// `White_Space`).
pub uninterp spec fn is_white_space(c: char) -> bool;

/// `char::is_whitespace`.
///
/// Trusted: its answer depends on the character alone, and is what this
/// library calls white space.
pub assume_specification[ char::is_whitespace ](c: char) -> (white: bool)
    ensures
        white == is_white_space(c),
;

/// The words of a line: its longest runs of characters that are not white
/// space, in the order in which they stand.
///
/// Read from left to right, a character that is white space changes nothing;
/// one that follows a character of a word goes on with that word; any other
/// begins a new word.
pub open spec fn split_words(line: Seq<char>) -> Seq<Seq<char>>
    decreases line.len(),
{
    if line.len() == 0 {
        Seq::empty()
    } else {
        let before = split_words(line.drop_last());
        if is_white_space(line.last()) {
            before
        } else if ends_in_word(line.drop_last()) {
            before.drop_last().push(before.last().push(line.last()))
        } else {
            before.push(seq![line.last()])
        }
    }
}

/// The text ends with a character of a word.
pub open spec fn ends_in_word(text: Seq<char>) -> bool {
    text.len() > 0 && !is_white_space(text.last())
}

/// `text` without the white space at its beginning.
pub open spec fn trim_start(text: Seq<char>) -> Seq<char>
    decreases text.len(),
{
    if text.len() > 0 && is_white_space(text.first()) {
        trim_start(text.drop_first())
    } else {
        text
    }
}

/// `text` without the white space at its end.
pub open spec fn trim_end(text: Seq<char>) -> Seq<char>
    decreases text.len(),
{
    if text.len() > 0 && is_white_space(text.last()) {
        trim_end(text.drop_last())
    } else {
        text
    }
}

/// `text` without the white space at its beginning and at its end.
pub open spec fn trimmed(text: Seq<char>) -> Seq<char> {
    trim_end(trim_start(text))
}

/// A text that ends in a word has at least that word.
pub proof fn lemma_split_words_nonempty(line: Seq<char>)
    requires
        ends_in_word(line),
    ensures
        split_words(line).len() > 0,
{
}

/// A run of characters without white space is one word.
pub proof fn lemma_split_words_of_word(word: Seq<char>)
    requires
        word.len() > 0,
        forall|i: int| 0 <= i < word.len() ==> !is_white_space(word[i]),
    ensures
        split_words(word) == seq![word],
    decreases word.len(),
{
    let front = word.drop_last();
    if front.len() == 0 {
        assert(seq![word.last()] =~= word);
        assert(split_words(front) =~= Seq::<Seq<char>>::empty());
        assert(split_words(word) =~= seq![word]);
    } else {
        lemma_split_words_of_word(front);
        assert(front.push(word.last()) =~= word);
        assert(seq![front].drop_last().push(front.push(word.last())) =~= seq![word]);
    }
}

/// White space between two texts keeps their words apart: the words of the
/// whole are those of the first text, then those of the second.
pub proof fn lemma_split_words_across(a: Seq<char>, gap: char, b: Seq<char>)
    requires
        is_white_space(gap),
    ensures
        split_words(a.push(gap) + b) == split_words(a) + split_words(b),
    decreases b.len(),
{
    let line = a.push(gap) + b;
    if b.len() == 0 {
        assert(line =~= a.push(gap));
        assert(line.drop_last() =~= a);
        assert(split_words(a) + split_words(b) =~= split_words(a));
    } else {
        let front = b.drop_last();
        lemma_split_words_across(a, gap, front);
        assert(line.drop_last() =~= a.push(gap) + front);
        assert(line.last() == b.last());
        assert(ends_in_word(line.drop_last()) == ends_in_word(front));
        let first = split_words(a);
        let second = split_words(front);
        if is_white_space(b.last()) {
        } else if ends_in_word(front) {
            lemma_split_words_nonempty(front);
            assert((first + second).drop_last().push((first + second).last().push(b.last()))
                =~= first + second.drop_last().push(second.last().push(b.last())));
        } else {
            assert((first + second).push(seq![b.last()]) =~= first + second.push(
                seq![b.last()],
            ));
        }
    }
}

/// The white space in front of a text ends where its first other character
/// stands.
pub proof fn lemma_trim_start(text: Seq<char>, from: int)
    requires
        0 <= from <= text.len(),
        forall|i: int| 0 <= i < from ==> is_white_space(text[i]),
        from < text.len() ==> !is_white_space(text[from]),
    ensures
        trim_start(text) == text.skip(from),
    decreases from,
{
    if from == 0 {
        assert(text.skip(0) =~= text);
    } else {
        lemma_trim_start(text.drop_first(), from - 1);
        assert(text.drop_first().skip(from - 1) =~= text.skip(from));
    }
}

/// The white space at the end of a text begins behind its last other
/// character.
pub proof fn lemma_trim_end(text: Seq<char>, to: int)
    requires
        0 <= to <= text.len(),
        forall|i: int| to <= i < text.len() ==> is_white_space(text[i]),
        to > 0 ==> !is_white_space(text[to - 1]),
    ensures
        trim_end(text) == text.take(to),
    decreases text.len() - to,
{
    if to == text.len() {
        assert(text.take(to) =~= text);
    } else {
        lemma_trim_end(text.drop_last(), to);
        assert(text.drop_last().take(to) =~= text.take(to));
    }
}

/// Splits a line into its words.
pub fn split_whitespace(line: &str) -> (words: Vec<String>)
    ensures
        words.deep_view() == split_words(line@),
{
    // The number of characters is a `usize`, so the counter `i` stays one.
    let len: usize = line.unicode_len();
    let mut words: Vec<String> = Vec::new();
    let mut start: usize = 0;
    let mut in_word: bool = false;
    let mut i: usize = 0;
    assert(words.deep_view() =~= Seq::<Seq<char>>::empty());
    for c in it: line.chars()
        invariant
            it.seq() == line@,
            len == line@.len(),
            i == it.index(),
            in_word == ends_in_word(line@.take(i as int)),
            start <= i,
            split_words(line@.take(i as int)) == if in_word {
                words.deep_view().push(line@.subrange(start as int, i as int))
            } else {
                words.deep_view()
            },
    {
        let ghost done = words.deep_view();
        assert(line@.take(i + 1).drop_last() =~= line@.take(i as int));
        if c.is_whitespace() {
            if in_word {
                words.push(line.substring_char(start, i).to_owned());
                assert(words.deep_view() =~= done.push(line@.subrange(start as int, i as int)));
                in_word = false;
            }
        } else if in_word {
            assert(line@.subrange(start as int, i as int).push(c) =~= line@.subrange(
                start as int,
                i + 1,
            ));
            assert(done.push(line@.subrange(start as int, i as int)).drop_last() =~= done);
        } else {
            start = i;
            in_word = true;
            assert(line@.subrange(i as int, i + 1) =~= seq![c]);
        }
        i += 1;
    }
    assert(line@.take(i as int) =~= line@);
    if in_word {
        let ghost done = words.deep_view();
        words.push(line.substring_char(start, i).to_owned());
        assert(words.deep_view() =~= done.push(line@.subrange(start as int, i as int)));
    }
    words
}

/// Cuts the white space off both ends of a line; white space between other
/// characters stays.
pub fn trim(line: &str) -> (text: String)
    ensures
        text@ == trimmed(line@),
{
    // The number of characters is a `usize`, so the counter `i` stays one.
    let len: usize = line.unicode_len();
    let mut from: usize = 0;
    let mut to: usize = 0;
    let mut i: usize = 0;
    for c in it: line.chars()
        invariant
            it.seq() == line@,
            len == line@.len(),
            i == it.index(),
            from <= to <= i,
            to == 0 ==> from == 0,
            forall|j: int| 0 <= j < i && (j < from || to <= j) ==> is_white_space(line@[j]),
            to > 0 ==> !is_white_space(line@[from as int]) && !is_white_space(line@[to - 1]),
    {
        if !c.is_whitespace() {
            if to == 0 {
                from = i;
            }
            to = i + 1;
        }
        i += 1;
    }
    proof {
        if to == 0 {
            lemma_trim_start(line@, len as int);
            assert(line@.skip(len as int) =~= line@.subrange(0, 0));
            lemma_trim_end(line@.subrange(0, 0), 0);
            assert(line@.subrange(0, 0).take(0) =~= line@.subrange(0, 0));
        } else {
            lemma_trim_start(line@, from as int);
            lemma_trim_end(line@.skip(from as int), to - from);
            assert(line@.skip(from as int).take(to - from) =~= line@.subrange(
                from as int,
                to as int,
            ));
        }
    }
    line.substring_char(from, to).to_owned()
}

/// Reads a puzzle from what was typed: the operand words from the first
/// line, which holds them with white space between them, and the result word
/// from the second line, which holds it with nothing but white space around
/// it.
pub fn inputs(first_line: &str, second_line: &str) -> (puzzle: (Vec<String>, String))
    ensures
        puzzle.0.deep_view() == split_words(first_line@),
        puzzle.1@ == trimmed(second_line@),
{
    let words: Vec<String> = split_whitespace(first_line);
    let result: String = trim(second_line);
    (words, result)
}

} // verus!
