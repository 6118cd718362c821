//! A small puzzle-state exercise: the state of a game of discs on three
//! rods, with a validity test for a move (no moving from an empty rod, no
//! placing a larger disc onto a smaller one, judged by the rods' contents)
//! and a compact textual rendering of the whole state.

#![verifier::loop_isolation(false)]

use vstd::prelude::*;
use vstd::string::StrSliceExecFns;
use vstd::string::StringExecFns;

verus! {

/// Lexicographic "greater than" on disc stacks, matching element-wise
/// comparison that falls back to length when one stack is a prefix of the
/// other.
pub open spec fn seq_lex_gt(a: Seq<u8>, b: Seq<u8>) -> bool
    decreases a.len(),
{
    if b.len() == 0 {
        a.len() > 0
    } else if a.len() == 0 {
        false
    } else if a[0] > b[0] {
        true
    } else if a[0] < b[0] {
        false
    } else {
        seq_lex_gt(a.drop_first(), b.drop_first())
    }
}

/// Comparing two stacks that agree on their first `i` discs is the same as
/// comparing what remains after those discs.
proof fn lemma_seq_lex_gt_skip(a: Seq<u8>, b: Seq<u8>, i: int)
    requires
        0 <= i <= a.len(),
        i <= b.len(),
        forall|k: int| 0 <= k < i ==> a[k] == b[k],
    ensures
        seq_lex_gt(a, b) == seq_lex_gt(a.skip(i), b.skip(i)),
    decreases i,
{
    if i > 0 {
        assert(a.len() > 0 && b.len() > 0 && a[0] == b[0]);
        assert(seq_lex_gt(a, b) == seq_lex_gt(a.drop_first(), b.drop_first()));
        assert(a.drop_first() =~= a.skip(1));
        assert(b.drop_first() =~= b.skip(1));
        assert(forall|k: int| 0 <= k < i - 1 ==> a.skip(1)[k] == b.skip(1)[k]);
        lemma_seq_lex_gt_skip(a.skip(1), b.skip(1), i - 1);
        assert(a.skip(1).skip(i - 1) =~= a.skip(i));
        assert(b.skip(1).skip(i - 1) =~= b.skip(i));
    } else {
        assert(a.skip(0) =~= a);
        assert(b.skip(0) =~= b);
    }
}

/// The decimal digits of a byte value, most significant first.
pub open spec fn u8_chars(v: u8) -> Seq<char> {
    if v < 10 {
        seq![digit_char(v as int)]
    } else if v < 100 {
        seq![digit_char(v as int / 10), digit_char(v as int % 10)]
    } else {
        seq![
            digit_char(v as int / 100),
            digit_char((v as int / 10) % 10),
            digit_char(v as int % 10),
        ]
    }
}

/// The character for one decimal digit.
pub open spec fn digit_char(d: int) -> char {
    if d == 0 {
        '0'
    } else if d == 1 {
        '1'
    } else if d == 2 {
        '2'
    } else if d == 3 {
        '3'
    } else if d == 4 {
        '4'
    } else if d == 5 {
        '5'
    } else if d == 6 {
        '6'
    } else if d == 7 {
        '7'
    } else if d == 8 {
        '8'
    } else {
        '9'
    }
}

/// The characters of one rod: each disc's decimal digits, bottom first.
pub open spec fn rod_chars(rod: Seq<u8>) -> Seq<char>
    decreases rod.len(),
{
    if rod.len() == 0 {
        Seq::empty()
    } else {
        rod_chars(rod.drop_last()) + u8_chars(rod.last())
    }
}

/// The label of the first `i` rods: an underscore before each rod's discs.
pub open spec fn label_prefix(rods: Seq<Seq<u8>>, i: int) -> Seq<char>
    decreases i,
{
    if i <= 0 {
        Seq::empty()
    } else {
        label_prefix(rods, i - 1) + seq!['_'] + rod_chars(rods[i - 1])
    }
}

/// The textual rendering of a whole three-rod state.
pub open spec fn spec_label(rods: Seq<Seq<u8>>) -> Seq<char> {
    label_prefix(rods, 3)
}

/// The rods after moving the top disc of rod `from` onto rod `to`.
pub open spec fn spec_make_move(rods: Seq<Seq<u8>>, from: int, to: int) -> Seq<Seq<u8>> {
    let disc = rods[from].last();
    let lifted = rods.update(from, rods[from].drop_last());
    lifted.update(to, lifted[to].push(disc))
}

/// The str for one decimal digit.
fn digit_str(d: u8) -> (s: &'static str)
    requires
        d < 10,
    ensures
        s@ == seq![digit_char(d as int)],
{
    proof {
        reveal_strlit("0");
        reveal_strlit("1");
        reveal_strlit("2");
        reveal_strlit("3");
        reveal_strlit("4");
        reveal_strlit("5");
        reveal_strlit("6");
        reveal_strlit("7");
        reveal_strlit("8");
        reveal_strlit("9");
    }
    match d {
        0 => "0",
        1 => "1",
        2 => "2",
        3 => "3",
        4 => "4",
        5 => "5",
        6 => "6",
        7 => "7",
        8 => "8",
        _ => "9",
    }
}

/// Append the decimal digits of a byte value to a string.
fn push_u8_chars(s: &mut String, v: u8)
    ensures
        final(s)@ == old(s)@ + u8_chars(v),
{
    if v >= 100 {
        s.append(digit_str(v / 100));
    }
    if v >= 10 {
        s.append(digit_str((v / 10) % 10));
    }
    s.append(digit_str(v % 10));
    proof {
        assert(s@ =~= old(s)@ + u8_chars(v));
    }
}

/// The state of the puzzle: three rods of discs, each disc written as the
/// number on it, each rod listing its discs bottom first.
pub struct HanoiState {
    pub rods: Vec<Vec<u8>>,
}

impl HanoiState {
    /// A state always has exactly three rods.
    pub open spec fn wf(&self) -> bool {
        self.rods@.len() == 3
    }

    /// The rods' contents as plain sequences.
    pub open spec fn spec_rods(&self) -> Seq<Seq<u8>> {
        self.rods@.map_values(|rod: Vec<u8>| rod@)
    }

    /// Whether a move is allowed: source and target differ, the source rod
    /// is not empty, and the source rod does not compare greater than the
    /// target rod.
    pub open spec fn spec_move_valid(&self, maybe_move: (u8, u8)) -> bool {
        &&& maybe_move.0 != maybe_move.1
        &&& self.spec_rods()[maybe_move.0 as int].len() > 0
        &&& !seq_lex_gt(
            self.spec_rods()[maybe_move.0 as int],
            self.spec_rods()[maybe_move.1 as int],
        )
    }

    /// Whether the given move is valid in this state.
    pub fn is_valid(&self, maybe_move: (u8, u8)) -> (valid: bool)
        requires
            self.wf(),
            maybe_move.0 < 3,
            maybe_move.1 < 3,
        ensures
            valid == self.spec_move_valid(maybe_move),
    {
        // from and to should not be the same
        if maybe_move.0 == maybe_move.1 {
            return false;
        }
        // you cannot move from an empty rod
        if self.rods[maybe_move.0 as usize].len() == 0 {
            return false;
        }
        // you are not allowed to move a larger disc onto a smaller one
        if lex_gt(&self.rods[maybe_move.0 as usize], &self.rods[maybe_move.1 as usize]) {
            return false;
        }
        true
    }

    /// Move the top disc of rod `to_make.0` onto rod `to_make.1`, without
    /// judging whether the move is allowed.
    pub fn make_move_unsafe(&mut self, to_make: (u8, u8))
        requires
            old(self).wf(),
            to_make.0 < 3,
            to_make.1 < 3,
            old(self).spec_rods()[to_make.0 as int].len() > 0,
        ensures
            final(self).wf(),
            final(self).spec_rods() == spec_make_move(
                old(self).spec_rods(),
                to_make.0 as int,
                to_make.1 as int,
            ),
    {
        let disc = match self.rods[to_make.0 as usize].pop() {
            Some(disc) => disc,
            None => {
                proof {
                    assert(false);
                }
                0
            },
        };
        self.rods[to_make.1 as usize].push(disc);
        proof {
            assert(final(self).spec_rods() =~= spec_make_move(
                old(self).spec_rods(),
                to_make.0 as int,
                to_make.1 as int,
            ));
        }
    }

    /// Make the move. The validity of the move is computed but, as it
    /// stands, not enforced: the move is made regardless of the verdict.
    pub fn make_move(&mut self, maybe_move: (u8, u8))
        requires
            old(self).wf(),
            maybe_move.0 < 3,
            maybe_move.1 < 3,
            old(self).spec_rods()[maybe_move.0 as int].len() > 0,
        ensures
            final(self).wf(),
            final(self).spec_rods() == spec_make_move(
                old(self).spec_rods(),
                maybe_move.0 as int,
                maybe_move.1 as int,
            ),
    {
        self.is_valid(maybe_move);
        self.make_move_unsafe(maybe_move);
    }

    /// The compact textual rendering of the state: an underscore before
    /// each rod, then the rod's discs bottom first.
    pub fn label(&self) -> (s: String)
        requires
            self.wf(),
        ensures
            s@ == spec_label(self.spec_rods()),
    {
        let ghost rods = self.spec_rods();
        let mut s = String::new();
        proof {
            reveal_strlit("_");
        }
        let mut i: usize = 0;
        while i < 3
            invariant
                i <= 3,
                s@ == label_prefix(rods, i as int),
            decreases 3 - i,
        {
            s.append("_");
            let rod = &self.rods[i];
            let ghost rod_view = rods[i as int];
            let mut j: usize = 0;
            while j < rod.len()
                invariant
                    j <= rod@.len(),
                    rod@ == rod_view,
                    s@ == label_prefix(rods, i as int) + seq!['_'] + rod_chars(
                        rod_view.subrange(0, j as int),
                    ),
                decreases rod@.len() - j,
            {
                push_u8_chars(&mut s, rod[j]);
                proof {
                    let sub = rod_view.subrange(0, j + 1);
                    assert(sub.drop_last() =~= rod_view.subrange(0, j as int));
                    assert(sub.last() == rod_view[j as int]);
                }
                j = j + 1;
            }
            proof {
                assert(rod_view.subrange(0, rod_view.len() as int) =~= rod_view);
            }
            i = i + 1;
        }
        s
    }
}

/// Lexicographic comparison of two disc stacks, as `seq_lex_gt` states it.
fn lex_gt(a: &Vec<u8>, b: &Vec<u8>) -> (r: bool)
    ensures
        r == seq_lex_gt(a@, b@),
{
    let mut i: usize = 0;
    while i < a.len() && i < b.len()
        invariant
            i <= a@.len(),
            i <= b@.len(),
            forall|k: int| 0 <= k < i ==> a@[k] == b@[k],
        decreases a@.len() - i,
    {
        if a[i] > b[i] {
            proof {
                lemma_seq_lex_gt_skip(a@, b@, i as int);
                assert(a@.skip(i as int)[0] == a@[i as int]);
                assert(b@.skip(i as int)[0] == b@[i as int]);
            }
            return true;
        }
        if a[i] < b[i] {
            proof {
                lemma_seq_lex_gt_skip(a@, b@, i as int);
                assert(a@.skip(i as int)[0] == a@[i as int]);
                assert(b@.skip(i as int)[0] == b@[i as int]);
            }
            return false;
        }
        i = i + 1;
    }
    proof {
        lemma_seq_lex_gt_skip(a@, b@, i as int);
    }
    a.len() > b.len()
}

} // verus!
