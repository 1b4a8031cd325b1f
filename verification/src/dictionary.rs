//! The word list: a text of one word per line, read as lower-cased words.

use vstd::prelude::*;
use crate::text::{letters_of, lower_case, lower_word, string_of, words_of};

verus! {

/// The character that ends a line.
pub const NEWLINE: char = '\n';

/// Position `k` is where the first line of the text ends: at the first line
/// break, or at the end of a text that has none.
pub open spec fn is_line_end(text: Seq<char>, k: int) -> bool {
    &&& 0 <= k <= text.len()
    &&& forall|j: int| 0 <= j < k ==> text[j] != NEWLINE
    &&& k < text.len() ==> text[k] == NEWLINE
}

/// Where the first line of the text ends.
pub open spec fn line_end(text: Seq<char>) -> int {
    choose|k: int| is_line_end(text, k)
}

/// The lines of a text. Each line break ends a line; what follows the last
/// line break is a line too, unless it is empty.
pub open spec fn lines(text: Seq<char>) -> Seq<Seq<char>>
    decreases text.len(),
{
    let k = line_end(text);
    if text.len() == 0 {
        Seq::empty()
    } else if 0 <= k < text.len() {
        seq![text.take(k)] + lines(text.skip(k + 1))
    } else {
        seq![text]
    }
}

/// The words of a word list given as text: its lines, lower-cased.
pub open spec fn word_list(text: Seq<char>) -> Seq<Seq<char>> {
    lines(text).map_values(|line: Seq<char>| lower_word(line))
}

/// Every text has exactly one place where its first line ends.
pub proof fn lemma_line_end(text: Seq<char>, k: int)
    requires
        is_line_end(text, k),
    ensures
        line_end(text) == k,
{
    let other = line_end(text);
    assert(is_line_end(text, other));
    if other < k {
        assert(text[other] != NEWLINE);
    } else if k < other {
        assert(text[k] != NEWLINE);
    }
}

/// The lines of a text that begins with a line without a line break,
/// followed by a line break.
pub proof fn lemma_lines_after_break(line: Seq<char>, rest: Seq<char>)
    requires
        forall|j: int| 0 <= j < line.len() ==> line[j] != NEWLINE,
    ensures
        lines(line.push(NEWLINE) + rest) == seq![line] + lines(rest),
{
    let text = line.push(NEWLINE) + rest;
    assert(is_line_end(text, line.len() as int));
    lemma_line_end(text, line.len() as int);
    assert(text.take(line.len() as int) =~= line);
    assert(text.skip(line.len() as int + 1) =~= rest);
}

/// The lines of a text without a line break.
pub proof fn lemma_lines_of_last(line: Seq<char>)
    requires
        forall|j: int| 0 <= j < line.len() ==> line[j] != NEWLINE,
    ensures
        lines(line) == if line.len() == 0 {
            Seq::<Seq<char>>::empty()
        } else {
            seq![line]
        },
{
    assert(is_line_end(line, line.len() as int));
    lemma_line_end(line, line.len() as int);
}

/// The lines of a text, each as a string.
pub fn split_lines(content: &str) -> (found: Vec<String>)
    ensures
        words_of(found@) == lines(content@),
{
    let text = letters_of(content);
    let mut found: Vec<String> = Vec::new();
    let mut line: Vec<char> = Vec::new();
    let mut i: usize = 0;
    assert(line@ + text@.skip(0) =~= text@);
    assert(words_of(found@) =~= Seq::<Seq<char>>::empty());
    while i < text.len()
        invariant
            i <= text.len(),
            forall|j: int| 0 <= j < line@.len() ==> line@[j] != NEWLINE,
            lines(text@) == words_of(found@) + lines(line@ + text@.skip(i as int)),
        decreases text.len() - i,
    {
        let c = text[i];
        let ghost rest = text@.skip(i + 1);
        if c == NEWLINE {
            proof {
                assert(line@ + text@.skip(i as int) =~= line@.push(NEWLINE) + rest);
                lemma_lines_after_break(line@, rest);
            }
            let ghost before = found@;
            found.push(string_of(&line));
            line = Vec::new();
            proof {
                assert(line@ + rest =~= rest);
                assert(words_of(found@) =~= words_of(before) + seq![found@.last()@]);
            }
        } else {
            proof {
                assert(line@ + text@.skip(i as int) =~= line@.push(c) + rest);
            }
            line.push(c);
        }
        i += 1;
    }
    proof {
        assert(line@ + text@.skip(i as int) =~= line@);
        lemma_lines_of_last(line@);
    }
    if line.len() > 0 {
        let ghost before = found@;
        found.push(string_of(&line));
        assert(words_of(found@) =~= words_of(before) + seq![line@]);
    }
    found
}

/// The words of a word list given as text: one word per line, lower-cased,
/// in the order of the text.
pub fn read_words(content: &str) -> (words: Vec<String>)
    ensures
        words_of(words@) == word_list(content@),
{
    let raw = split_lines(content);
    let mut words: Vec<String> = Vec::new();
    let mut i: usize = 0;
    while i < raw.len()
        invariant
            i <= raw.len(),
            words@.len() == i,
            forall|k: int| 0 <= k < i ==> (#[trigger] words@[k])@ == lower_word(raw@[k]@),
        decreases raw.len() - i,
    {
        words.push(lower_case(raw[i].as_str()));
        i += 1;
    }
    assert(words_of(words@) =~= words_of(raw@).map_values(|line: Seq<char>| lower_word(line)));
    words
}

} // verus!
