//! The letter board: letters grouped into sides, and the one rule the
//! grouping implies, that a letter may only be followed by a letter of
//! another side.

use vstd::prelude::*;
use crate::text::{
    ascii_lower, has_letter, lemma_ascii_lower_idempotent, letters_of, lower_word, to_lower,
    words_of,
};

verus! {

/// Letter `c` stands on side number `i` of the board.
pub open spec fn on_side(sides: Seq<Seq<char>>, i: int, c: char) -> bool {
    0 <= i < sides.len() && sides[i].contains(c)
}

/// The letters of the board: every letter that stands on some side.
pub open spec fn alphabet(sides: Seq<Seq<char>>) -> Set<char> {
    Set::new(|c: char| exists|i: int| on_side(sides, i, c))
}

/// Some side of the board holds both letters.
pub open spec fn share_side(sides: Seq<Seq<char>>, a: char, b: char) -> bool {
    exists|i: int| on_side(sides, i, a) && on_side(sides, i, b)
}

/// Letter `x` stands on side number `i`, and `c` does not.
pub open spec fn follows_from_side(sides: Seq<Seq<char>>, i: int, c: char, x: char) -> bool {
    0 <= i < sides.len() && !sides[i].contains(c) && sides[i].contains(x)
}

/// The letters that may come directly after `c`: the letters of every side
/// that does not hold `c`. For a letter that is on no side these are all the
/// letters of the board.
pub open spec fn followers(sides: Seq<Seq<char>>, c: char) -> Set<char> {
    Set::new(|x: char| exists|i: int| follows_from_side(sides, i, c, x))
}

/// No letter stands on two sides.
pub open spec fn sides_disjoint(sides: Seq<Seq<char>>) -> bool {
    forall|i: int, j: int, c: char| on_side(sides, i, c) && on_side(sides, j, c) ==> i == j
}

/// The test whether a side does not hold `c`.
pub open spec fn lacks(c: char) -> spec_fn(Seq<char>) -> bool {
    |side: Seq<char>| !side.contains(c)
}

/// The sides of the board that do not hold `c`, in board order.
pub open spec fn sides_without(sides: Seq<Seq<char>>, c: char) -> Seq<Seq<char>> {
    sides.filter(lacks(c))
}

/// The sides that a list of argument words describes: one side per word,
/// its letters lower-cased.
pub open spec fn sides_from(args: Seq<String>) -> Seq<Seq<char>> {
    words_of(args).map_values(|w: Seq<char>| lower_word(w))
}

/// Every letter of a board described by argument words is in lower-case
/// form.
pub proof fn lemma_sides_lower_cased(args: Seq<String>, i: int, j: int)
    requires
        0 <= i < sides_from(args).len(),
        0 <= j < sides_from(args)[i].len(),
    ensures
        ascii_lower(sides_from(args)[i][j]) == sides_from(args)[i][j],
{
    lemma_ascii_lower_idempotent(args[i]@[j]);
}

/// A letter is among the letters of all sides laid end to end exactly when
/// it stands on some side.
pub proof fn lemma_flatten_holds(sides: Seq<Seq<char>>, c: char)
    ensures
        sides.flatten().contains(c) <==> exists|i: int| on_side(sides, i, c),
    decreases sides.len(),
{
    if sides.len() == 0 {
        assert(sides.flatten() =~= Seq::<char>::empty());
    } else {
        let front = sides.drop_last();
        let back = sides.last();
        assert(sides =~= front.push(back));
        front.lemma_flatten_push(back);
        lemma_flatten_holds(front, c);
        let flat = front.flatten() + back;
        if flat.contains(c) {
            let k = choose|k: int| 0 <= k < flat.len() && flat[k] == c;
            if k < front.flatten().len() {
                assert(front.flatten()[k] == c);
                let i = choose|i: int| on_side(front, i, c);
                assert(on_side(sides, i, c));
            } else {
                assert(back[k - front.flatten().len()] == c);
                assert(on_side(sides, sides.len() - 1, c));
            }
        }
        if exists|i: int| on_side(sides, i, c) {
            let i = choose|i: int| on_side(sides, i, c);
            if i < front.len() {
                assert(on_side(front, i, c));
                let k = choose|k: int| 0 <= k < front.flatten().len() && front.flatten()[k] == c;
                assert(flat[k] == c);
            } else {
                let k = choose|k: int| 0 <= k < back.len() && back[k] == c;
                assert(flat[front.flatten().len() + k] == c);
            }
        }
    }
}

/// The letters of all sides laid end to end are the letters of the board.
pub proof fn lemma_flatten_is_alphabet(sides: Seq<Seq<char>>)
    ensures
        sides.flatten().to_set() == alphabet(sides),
        alphabet(sides).finite(),
{
    assert forall|c: char| sides.flatten().to_set().contains(c) == alphabet(sides).contains(
        c,
    ) by {
        lemma_flatten_holds(sides, c);
    }
    assert(sides.flatten().to_set() =~= alphabet(sides));
    vstd::seq_lib::seq_to_set_is_finite(sides.flatten());
}

/// A side is among the sides without `c` exactly when it is a side of the
/// board that does not hold `c`.
pub proof fn lemma_sides_without_holds(sides: Seq<Seq<char>>, c: char, side: Seq<char>)
    ensures
        sides_without(sides, c).contains(side) <==> sides.contains(side) && !side.contains(c),
{
    let kept = sides_without(sides, c);
    if kept.contains(side) {
        let i = choose|i: int| 0 <= i < kept.len() && kept[i] == side;
        sides.lemma_filter_pred(lacks(c), i);
        sides.lemma_filter_contains_rev(lacks(c), side);
    }
    if sides.contains(side) && !side.contains(c) {
        let i = choose|i: int| 0 <= i < sides.len() && sides[i] == side;
        sides.lemma_filter_contains(lacks(c), i);
    }
}

/// The letters of the sides without `c`, laid end to end, are the letters
/// that may follow `c`.
pub proof fn lemma_flatten_is_followers(sides: Seq<Seq<char>>, c: char)
    ensures
        sides_without(sides, c).flatten().to_set() == followers(sides, c),
        followers(sides, c).finite(),
{
    let kept = sides_without(sides, c);
    assert forall|x: char| kept.flatten().to_set().contains(x) == followers(sides, c).contains(
        x,
    ) by {
        lemma_flatten_holds(kept, x);
        if exists|i: int| on_side(kept, i, x) {
            let i = choose|i: int| on_side(kept, i, x);
            assert(kept.contains(kept[i]));
            lemma_sides_without_holds(sides, c, kept[i]);
            let k = choose|k: int| 0 <= k < sides.len() && sides[k] == kept[i];
            assert(follows_from_side(sides, k, c, x));
        }
        if exists|k: int| follows_from_side(sides, k, c, x) {
            let k = choose|k: int| follows_from_side(sides, k, c, x);
            assert(sides.contains(sides[k]));
            lemma_sides_without_holds(sides, c, sides[k]);
            let i = choose|i: int| 0 <= i < kept.len() && kept[i] == sides[k];
            assert(on_side(kept, i, x));
        }
    }
    assert(kept.flatten().to_set() =~= followers(sides, c));
    vstd::seq_lib::seq_to_set_is_finite(kept.flatten());
}

/// On a board where no letter stands on two sides, a letter that may follow
/// another never shares a side with it.
pub proof fn lemma_follower_on_other_side(sides: Seq<Seq<char>>, a: char, b: char)
    requires
        sides_disjoint(sides),
        followers(sides, a).contains(b),
    ensures
        !share_side(sides, a, b),
{
    let i = choose|i: int| follows_from_side(sides, i, a, b);
    assert(on_side(sides, i, b));
    if share_side(sides, a, b) {
        let j = choose|j: int| on_side(sides, j, a) && on_side(sides, j, b);
        assert(i == j);
    }
}

/// A letter of the board that shares no side with `a` may follow `a`.
pub proof fn lemma_letter_of_other_side_follows(sides: Seq<Seq<char>>, a: char, b: char)
    requires
        alphabet(sides).contains(b),
        !share_side(sides, a, b),
    ensures
        followers(sides, a).contains(b),
{
    let i = choose|i: int| on_side(sides, i, b);
    assert(!(on_side(sides, i, a) && on_side(sides, i, b)));
    assert(follows_from_side(sides, i, a, b));
}

/// Every letter of the board may follow a letter that is on no side.
pub proof fn lemma_followers_of_stranger(sides: Seq<Seq<char>>, c: char)
    requires
        !alphabet(sides).contains(c),
    ensures
        followers(sides, c) == alphabet(sides),
{
    assert forall|x: char| followers(sides, c).contains(x) == alphabet(sides).contains(x) by {
        if followers(sides, c).contains(x) {
            let i = choose|i: int| follows_from_side(sides, i, c, x);
            assert(on_side(sides, i, x));
        }
        if alphabet(sides).contains(x) {
            let i = choose|i: int| on_side(sides, i, x);
            assert(!on_side(sides, i, c));
            assert(follows_from_side(sides, i, c, x));
        }
    }
    assert(followers(sides, c) =~= alphabet(sides));
}

/// A Letter Boxed board.
#[derive(Debug, Clone, PartialEq, Eq)]
pub struct LetterBoxed {
    sides: Vec<Vec<char>>,
}

impl View for LetterBoxed {
    type V = Seq<Seq<char>>;

    /// The sides of the board, each as its sequence of letters.
    closed spec fn view(&self) -> Seq<Seq<char>> {
        Seq::new(self.sides@.len(), |i: int| self.sides@[i]@)
    }
}

impl LetterBoxed {
    /// Builds the board from one word per side.
    pub fn new(args: &[String]) -> (board: Self)
        ensures
            board@ == sides_from(args@),
    {
        let mut sides: Vec<Vec<char>> = Vec::new();
        let mut i: usize = 0;
        while i < args.len()
            invariant
                i <= args.len(),
                sides@.len() == i,
                forall|k: int| 0 <= k < i ==> (#[trigger] sides@[k])@ == lower_word(args@[k]@),
            decreases args.len() - i,
        {
            let raw = letters_of(args[i].as_str());
            let mut side: Vec<char> = Vec::new();
            let mut j: usize = 0;
            while j < raw.len()
                invariant
                    j <= raw.len(),
                    side@.len() == j,
                    forall|k: int| 0 <= k < j ==> #[trigger] side@[k] == ascii_lower(raw@[k]),
                decreases raw.len() - j,
            {
                side.push(to_lower(raw[j]));
                j += 1;
            }
            assert(side@ =~= lower_word(args@[i as int]@));
            sides.push(side);
            i += 1;
        }
        let board = LetterBoxed { sides };
        assert(board@ =~= sides_from(args@));
        board
    }

    /// Every letter of the board: the sides laid end to end, in board order.
    pub fn get_all_chars(&self) -> (letters: Vec<char>)
        ensures
            letters@ == self@.flatten(),
            letters@.to_set() == alphabet(self@),
    {
        let mut letters: Vec<char> = Vec::new();
        let mut i: usize = 0;
        while i < self.sides.len()
            invariant
                i <= self.sides.len(),
                letters@ == self@.take(i as int).flatten(),
            decreases self.sides.len() - i,
        {
            let side = &self.sides[i];
            let ghost before = letters@;
            let mut j: usize = 0;
            while j < side.len()
                invariant
                    j <= side.len(),
                    letters@ == before + side@.take(j as int),
                decreases side.len() - j,
            {
                letters.push(side[j]);
                assert(side@.take(j + 1) =~= side@.take(j as int).push(side@[j as int]));
                j += 1;
            }
            proof {
                assert(side@.take(side@.len() as int) =~= side@);
                assert(self@.take(i + 1) =~= self@.take(i as int).push(side@));
                self@.take(i as int).lemma_flatten_push(side@);
            }
            i += 1;
        }
        proof {
            assert(self@.take(self@.len() as int) =~= self@);
            lemma_flatten_is_alphabet(self@);
        }
        letters
    }

    /// The letters that may come directly after `c`: the sides that do not
    /// hold `c`, laid end to end, in board order.
    pub fn get_valid_connections(&self, c: &char) -> (letters: Vec<char>)
        ensures
            letters@ == sides_without(self@, *c).flatten(),
            letters@.to_set() == followers(self@, *c),
    {
        let ghost without = lacks(*c);
        let mut letters: Vec<char> = Vec::new();
        let mut i: usize = 0;
        while i < self.sides.len()
            invariant
                i <= self.sides.len(),
                without == lacks(*c),
                letters@ == self@.take(i as int).filter(without).flatten(),
            decreases self.sides.len() - i,
        {
            let side = &self.sides[i];
            proof {
                assert(self@.take(i + 1) =~= self@.take(i as int).push(side@));
                self@.take(i as int).lemma_filter_push(side@, without);
            }
            if !has_letter(side, *c) {
                let ghost before = letters@;
                let mut j: usize = 0;
                while j < side.len()
                    invariant
                        j <= side.len(),
                        letters@ == before + side@.take(j as int),
                    decreases side.len() - j,
                {
                    letters.push(side[j]);
                    assert(side@.take(j + 1) =~= side@.take(j as int).push(side@[j as int]));
                    j += 1;
                }
                proof {
                    assert(side@.take(side@.len() as int) =~= side@);
                    self@.take(i as int).filter(without).lemma_flatten_push(side@);
                }
            }
            i += 1;
        }
        proof {
            assert(self@.take(self@.len() as int) =~= self@);
            lemma_flatten_is_followers(self@, *c);
        }
        letters
    }
}

} // verus!
