//! Letters and words as sequences of `char`, and the conversions between
//! `String` values and those sequences.

use vstd::prelude::*;
use vstd::set_lib::{lemma_int_range, lemma_len_subset, lemma_map_size, set_int_range};

verus! {

/// The ASCII lower-case form of a letter: `'A'..='Z'` move to `'a'..='z'`,
/// every other character stays as it is.
pub open spec fn ascii_lower(c: char) -> char {
    if 'A' <= c && c <= 'Z' {
        ((c as u8) + 32) as char
    } else {
        c
    }
}

/// A word with every letter in its ASCII lower-case form.
pub open spec fn lower_word(w: Seq<char>) -> Seq<char> {
    w.map_values(|c: char| ascii_lower(c))
}

/// The words behind a sequence of strings.
pub open spec fn words_of(strings: Seq<String>) -> Seq<Seq<char>> {
    strings.map_values(|s: String| s@)
}

/// Lower-casing a letter twice is the same as lower-casing it once.
pub proof fn lemma_ascii_lower_idempotent(c: char)
    ensures
        ascii_lower(ascii_lower(c)) == ascii_lower(c),
{
}

/// Lower-cases one letter.
pub fn to_lower(c: char) -> (r: char)
    ensures
        r == ascii_lower(c),
{
    if 'A' <= c && c <= 'Z' {
        let b: u8 = c as u8;
        (b + 32) as char
    } else {
        c
    }
}

/// The letters of a string, in order.
pub fn letters_of(s: &str) -> (v: Vec<char>)
    ensures
        v@ == s@,
{
    let mut v: Vec<char> = Vec::new();
    for c in it: s.chars()
        invariant
            v@ == it.seq().take(it.index()),
    {
        v.push(c);
    }
    v
}

/// Whether a letter occurs among the given letters.
pub fn has_letter(letters: &Vec<char>, c: char) -> (found: bool)
    ensures
        found == letters@.contains(c),
{
    let mut i: usize = 0;
    while i < letters.len()
        invariant
            i <= letters.len(),
            forall|k: int| 0 <= k < i ==> letters@[k] != c,
        decreases letters.len() - i,
    {
        if letters[i] == c {
            return true;
        }
        i += 1;
    }
    false
}

/// `String::push` of the standard library: the string afterwards holds the
/// letters it held before, followed by the letter pushed. Believed, not
/// proved.
pub assume_specification[ String::push ](s: &mut String, ch: char)
    ensures
        final(s)@ == old(s)@.push(ch),
;

/// The string that holds the given letters, in order.
pub fn string_of(letters: &Vec<char>) -> (s: String)
    ensures
        s@ == letters@,
{
    let mut s = String::new();
    let mut i: usize = 0;
    while i < letters.len()
        invariant
            i <= letters.len(),
            s@ == letters@.take(i as int),
        decreases letters.len() - i,
    {
        s.push(letters[i]);
        assert(letters@.take(i + 1) =~= letters@.take(i as int).push(letters@[i as int]));
        i += 1;
    }
    assert(letters@.take(letters@.len() as int) =~= letters@);
    s
}

/// A copy of the word with every letter lower-cased.
pub fn lower_case(word: &str) -> (lowered: String)
    ensures
        lowered@ == lower_word(word@),
{
    let letters = letters_of(word);
    let mut lowered = String::new();
    let mut i: usize = 0;
    while i < letters.len()
        invariant
            i <= letters.len(),
            letters@ == word@,
            lowered@ == lower_word(word@.take(i as int)),
        decreases letters.len() - i,
    {
        lowered.push(to_lower(letters[i]));
        assert(lower_word(word@.take(i + 1)) =~= lower_word(word@.take(i as int)).push(
            ascii_lower(word@[i as int]),
        ));
        i += 1;
    }
    assert(word@.take(word@.len() as int) =~= word@);
    lowered
}

/// Whether two strings hold the same letters in the same order.
pub fn same_text(a: &str, b: &str) -> (same: bool)
    ensures
        same == (a@ == b@),
{
    let x = letters_of(a);
    let y = letters_of(b);
    if x.len() != y.len() {
        return false;
    }
    let mut i: usize = 0;
    while i < x.len()
        invariant
            i <= x.len(),
            x@ == a@,
            y@ == b@,
            x@.len() == y@.len(),
            forall|k: int| 0 <= k < i ==> x@[k] == y@[k],
        decreases x.len() - i,
    {
        if x[i] != y[i] {
            return false;
        }
        i += 1;
    }
    assert(x@ =~= y@);
    true
}

/// The given letters with every repetition after the first left out.
pub(crate) fn without_repeats(letters: &Vec<char>) -> (distinct: Vec<char>)
    ensures
        distinct@.no_duplicates(),
        distinct@.to_set() == letters@.to_set(),
{
    let mut distinct: Vec<char> = Vec::new();
    let mut i: usize = 0;
    while i < letters.len()
        invariant
            i <= letters.len(),
            distinct@.no_duplicates(),
            distinct@.to_set() == letters@.take(i as int).to_set(),
        decreases letters.len() - i,
    {
        let c = letters[i];
        proof {
            assert(letters@.take(i + 1) =~= letters@.take(i as int).push(c));
            letters@.take(i as int).lemma_push_to_set_commute(c);
        }
        if !has_letter(&distinct, c) {
            proof {
                distinct@.lemma_push_to_set_commute(c);
            }
            distinct.push(c);
        } else {
            assert(distinct@.to_set().insert(c) =~= distinct@.to_set());
        }
        i += 1;
    }
    assert(letters@.take(letters@.len() as int) =~= letters@);
    distinct
}

/// How often a letter occurs among the given letters.
pub fn count_letter(letters: &Vec<char>, c: char) -> (count: usize)
    ensures
        count == letters@.to_multiset().count(c),
{
    let mut count: usize = 0;
    let mut i: usize = 0;
    assert(letters@.take(0) =~= Seq::<char>::empty());
    proof {
        vstd::seq_lib::to_multiset_contains(letters@.take(0), c);
    }
    while i < letters.len()
        invariant
            i <= letters.len(),
            count <= i,
            count == letters@.take(i as int).to_multiset().count(c),
        decreases letters.len() - i,
    {
        proof {
            broadcast use vstd::multiset::group_multiset_axioms;
            let seen = letters@.take(i as int);
            assert(letters@.take(i + 1) =~= seen.push(letters@[i as int]));
            vstd::seq_lib::to_multiset_build(seen, letters@[i as int]);
        }
        if letters[i] == c {
            count += 1;
        }
        i += 1;
    }
    assert(letters@.take(letters@.len() as int) =~= letters@);
    count
}

/// Every `char` has a code below this number.
pub open spec fn char_limit() -> nat {
    0x110000
}

/// The code of a letter lies below the limit.
proof fn lemma_code_in_range(c: char)
    ensures
        0 <= (c as int) && (c as int) < char_limit(),
{
}

/// A finite set of letters has no more members than there are codes below
/// the limit.
pub proof fn lemma_letter_set_bounded(letters: Set<char>)
    requires
        letters.finite(),
    ensures
        letters.len() <= char_limit(),
{
    let code = |c: char| c as int;
    let codes = letters.map(code);
    assert(vstd::relations::injective_on(code, letters));
    lemma_map_size(letters, codes, code);
    lemma_int_range(0, 0x110000);
    assert forall|n: int| codes.contains(n) implies set_int_range(0, 0x110000).contains(n) by {
        let c = choose|c: char| letters.contains(c) && n == code(c);
        lemma_code_in_range(c);
    }
    lemma_len_subset(codes, set_int_range(0, 0x110000));
}

} // verus!
