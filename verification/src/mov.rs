//! The eighteen face turns.
use vstd::prelude::*;

use crate::bitset::{bit, lemma_bit_ext};
use crate::bitset::popcount;
use crate::cube::{lane, lemma_lane_ext, orientations_balanced, twist_total, Cube, CO, EO};
use crate::face::Face;
use crate::perm::Perm;
use crate::piece::{face_rank, Corner, Edge};
use crate::text::{chars_of, split_words, words};

verus! {

/// A face turn: quarter turn clockwise (`X`), half turn (`X2`) or quarter turn
/// counter-clockwise (`X3`, written `X'`).
#[derive(Copy, Clone, Debug, PartialEq, Eq, Structural, PartialOrd, Ord, Hash)]
pub enum Move {
    U,
    D,
    F,
    B,
    R,
    L,
    U2,
    U3,
    D2,
    D3,
    F2,
    F3,
    B2,
    B3,
    R2,
    R3,
    L2,
    L3,
}

impl Move {
    /// The face that the move turns.
    pub open spec fn spec_face(self) -> Face {
        match self {
            Move::U => Face::U,
            Move::D => Face::D,
            Move::F => Face::F,
            Move::B => Face::B,
            Move::R => Face::R,
            Move::L => Face::L,
            Move::U2 => Face::U,
            Move::U3 => Face::U,
            Move::D2 => Face::D,
            Move::D3 => Face::D,
            Move::F2 => Face::F,
            Move::F3 => Face::F,
            Move::B2 => Face::B,
            Move::B3 => Face::B,
            Move::R2 => Face::R,
            Move::R3 => Face::R,
            Move::L2 => Face::L,
            Move::L3 => Face::L,
        }
    }

    /// The face that the move turns.
    pub fn face(&self) -> (r: Face)
        ensures
            r == self.spec_face(),
    {
        match self {
            Move::U => Face::U,
            Move::D => Face::D,
            Move::F => Face::F,
            Move::B => Face::B,
            Move::R => Face::R,
            Move::L => Face::L,
            Move::U2 => Face::U,
            Move::U3 => Face::U,
            Move::D2 => Face::D,
            Move::D3 => Face::D,
            Move::F2 => Face::F,
            Move::F3 => Face::F,
            Move::B2 => Face::B,
            Move::B3 => Face::B,
            Move::R2 => Face::R,
            Move::R3 => Face::R,
            Move::L2 => Face::L,
            Move::L3 => Face::L,
        }
    }

    /// Position of the move in declaration order.
    pub open spec fn spec_index(self) -> int {
        match self {
            Move::U => 0,
            Move::D => 1,
            Move::F => 2,
            Move::B => 3,
            Move::R => 4,
            Move::L => 5,
            Move::U2 => 6,
            Move::U3 => 7,
            Move::D2 => 8,
            Move::D3 => 9,
            Move::F2 => 10,
            Move::F3 => 11,
            Move::B2 => 12,
            Move::B3 => 13,
            Move::R2 => 14,
            Move::R3 => 15,
            Move::L2 => 16,
            Move::L3 => 17,
        }
    }

    /// Position of the move in declaration order.
    pub fn index(&self) -> (r: usize)
        ensures
            r == self.spec_index(),
    {
        match self {
            Move::U => 0,
            Move::D => 1,
            Move::F => 2,
            Move::B => 3,
            Move::R => 4,
            Move::L => 5,
            Move::U2 => 6,
            Move::U3 => 7,
            Move::D2 => 8,
            Move::D3 => 9,
            Move::F2 => 10,
            Move::F3 => 11,
            Move::B2 => 12,
            Move::B3 => 13,
            Move::R2 => 14,
            Move::R3 => 15,
            Move::L2 => 16,
            Move::L3 => 17,
        }
    }

    /// Standard notation for the move: `U`, `U2`, `U'`, ...
    pub open spec fn spec_name(self) -> Seq<char> {
        match self {
            Move::U => seq!['U'],
            Move::D => seq!['D'],
            Move::F => seq!['F'],
            Move::B => seq!['B'],
            Move::R => seq!['R'],
            Move::L => seq!['L'],
            Move::U2 => seq!['U', '2'],
            Move::U3 => seq!['U', '\''],
            Move::D2 => seq!['D', '2'],
            Move::D3 => seq!['D', '\''],
            Move::F2 => seq!['F', '2'],
            Move::F3 => seq!['F', '\''],
            Move::B2 => seq!['B', '2'],
            Move::B3 => seq!['B', '\''],
            Move::R2 => seq!['R', '2'],
            Move::R3 => seq!['R', '\''],
            Move::L2 => seq!['L', '2'],
            Move::L3 => seq!['L', '\''],
        }
    }

    /// Standard notation for the move: `U`, `U2`, `U'`, ...
    pub fn name(&self) -> (r: &'static str)
        ensures
            r@ == self.spec_name(),
    {
        match self {
            Move::U => {
                proof {
                    reveal_strlit("U");
                }
                "U"
            },
            Move::D => {
                proof {
                    reveal_strlit("D");
                }
                "D"
            },
            Move::F => {
                proof {
                    reveal_strlit("F");
                }
                "F"
            },
            Move::B => {
                proof {
                    reveal_strlit("B");
                }
                "B"
            },
            Move::R => {
                proof {
                    reveal_strlit("R");
                }
                "R"
            },
            Move::L => {
                proof {
                    reveal_strlit("L");
                }
                "L"
            },
            Move::U2 => {
                proof {
                    reveal_strlit("U2");
                }
                "U2"
            },
            Move::U3 => {
                proof {
                    reveal_strlit("U'");
                }
                "U'"
            },
            Move::D2 => {
                proof {
                    reveal_strlit("D2");
                }
                "D2"
            },
            Move::D3 => {
                proof {
                    reveal_strlit("D'");
                }
                "D'"
            },
            Move::F2 => {
                proof {
                    reveal_strlit("F2");
                }
                "F2"
            },
            Move::F3 => {
                proof {
                    reveal_strlit("F'");
                }
                "F'"
            },
            Move::B2 => {
                proof {
                    reveal_strlit("B2");
                }
                "B2"
            },
            Move::B3 => {
                proof {
                    reveal_strlit("B'");
                }
                "B'"
            },
            Move::R2 => {
                proof {
                    reveal_strlit("R2");
                }
                "R2"
            },
            Move::R3 => {
                proof {
                    reveal_strlit("R'");
                }
                "R'"
            },
            Move::L2 => {
                proof {
                    reveal_strlit("L2");
                }
                "L2"
            },
            Move::L3 => {
                proof {
                    reveal_strlit("L'");
                }
                "L'"
            },
        }
    }

    /// 0 for a quarter turn, 1 for a half turn, 2 for a counter-clockwise quarter turn.
    pub open spec fn turn(self) -> int {
        match self {
            Move::U | Move::D | Move::F | Move::B | Move::R | Move::L => 0,
            Move::U2 | Move::D2 | Move::F2 | Move::B2 | Move::R2 | Move::L2 => 1,
            _ => 2,
        }
    }

    proof fn lemma_name_parts(self)
        ensures
            self.spec_name().len() == if self.turn() == 0 {
                1int
            } else {
                2int
            },
            self.spec_name()[0] == seq!['U', 'D', 'F', 'B', 'R', 'L'][face_rank(self.spec_face())],
            self.turn() == 1 ==> self.spec_name()[1] == '2',
            self.turn() == 2 ==> self.spec_name()[1] == '\'',
    {
    }

    /// Different moves have different names, so reading a move's name gives back the move.
    pub proof fn law_name_injective(a: Move, b: Move)
        requires
            a.spec_name() == b.spec_name(),
        ensures
            a == b,
    {
        a.lemma_name_parts();
        b.lemma_name_parts();
        let letters = seq!['U', 'D', 'F', 'B', 'R', 'L'];
        assert(letters[face_rank(a.spec_face())] == letters[face_rank(b.spec_face())]);
        assert(face_rank(a.spec_face()) == face_rank(b.spec_face()));
        assert(a.turn() == b.turn());
    }

    /// The move with the given notation, if any.
    pub fn from_chars(s: &[char]) -> (r: Option<Move>)
        ensures
            r matches Some(m) ==> m.spec_name() == s@,
            r is None ==> forall|m: Move| #[trigger] m.spec_name() != s@,
    {
        if s.len() == 0 || s.len() > 2 {
            proof {
                assert forall|m: Move| #[trigger] m.spec_name() != s@ by {
                    assert(m.spec_name().len() == 1 || m.spec_name().len() == 2);
                }
            }
            return None;
        }
        let f = s[0];
        let base = if f == 'U' {
            0usize
        } else if f == 'D' {
            1
        } else if f == 'F' {
            2
        } else if f == 'B' {
            3
        } else if f == 'R' {
            4
        } else if f == 'L' {
            5
        } else {
            proof {
                assert forall|m: Move| #[trigger] m.spec_name() != s@ by {
                    assert(m.spec_name()[0] != s@[0]);
                }
            }
            return None;
        };
        let turn = if s.len() == 1 {
            0usize
        } else if s[1] == '2' {
            1
        } else if s[1] == '\'' {
            2
        } else {
            proof {
                assert forall|m: Move| #[trigger] m.spec_name() != s@ by {
                    if m.spec_name().len() == 2 {
                        assert(m.spec_name()[1] != s@[1]);
                    }
                }
            }
            return None;
        };
        let m = Move::from_parts(base, turn);
        proof {
            assert(m.spec_name() =~= s@);
        }
        Some(m)
    }

    /// The move of face number `base` (U, D, F, B, R, L) and turn `turn` (quarter, half,
    /// counter-clockwise quarter).
    fn from_parts(base: usize, turn: usize) -> (r: Move)
        requires
            base < 6,
            turn < 3,
        ensures
            r.spec_name().len() == if turn == 0 {
                1int
            } else {
                2int
            },
            r.spec_name()[0] == seq!['U', 'D', 'F', 'B', 'R', 'L'][base as int],
            turn == 1 ==> r.spec_name()[1] == '2',
            turn == 2 ==> r.spec_name()[1] == '\'',
    {
        if turn == 0 {
            if base == 0 {
                Move::U
            } else if base == 1 {
                Move::D
            } else if base == 2 {
                Move::F
            } else if base == 3 {
                Move::B
            } else if base == 4 {
                Move::R
            } else {
                Move::L
            }
        } else if turn == 1 {
            if base == 0 {
                Move::U2
            } else if base == 1 {
                Move::D2
            } else if base == 2 {
                Move::F2
            } else if base == 3 {
                Move::B2
            } else if base == 4 {
                Move::R2
            } else {
                Move::L2
            }
        } else {
            if base == 0 {
                Move::U3
            } else if base == 1 {
                Move::D3
            } else if base == 2 {
                Move::F3
            } else if base == 3 {
                Move::B3
            } else if base == 4 {
                Move::R3
            } else {
                Move::L3
            }
        }
    }

    /// The move with the given notation, if any.
    pub fn from_name(s: &str) -> (r: Option<Move>)
        ensures
            r matches Some(m) ==> m.spec_name() == s@,
            r is None ==> forall|m: Move| #[trigger] m.spec_name() != s@,
    {
        let v = chars_of(s);
        Move::from_chars(v.as_slice())
    }

    /// The moves written in `s`, separated by whitespace; `None` when a word is not a move.
    pub fn parse_alg(s: &str) -> (r: Option<Vec<Move>>)
        ensures
            r matches Some(v) ==> v@.len() == words(s@).len() && forall|i: int|
                0 <= i < v@.len() ==> (#[trigger] v@[i]).spec_name() == words(s@)[i],
            r is None ==> exists|i: int|
                #![trigger words(s@)[i]]
                0 <= i < words(s@).len() && forall|m: Move| #[trigger] m.spec_name() != words(s@)[i],
    {
        let ws = split_words(s);
        let mut v: Vec<Move> = Vec::new();
        let mut i: usize = 0;
        while i < ws.len()
            invariant
                i <= ws@.len(),
                ws@.len() == words(s@).len(),
                forall|k: int| 0 <= k < ws@.len() ==> (#[trigger] ws@[k])@ == words(s@)[k],
                v@.len() == i,
                forall|k: int| 0 <= k < i ==> (#[trigger] v@[k]).spec_name() == words(s@)[k],
            decreases ws@.len() - i,
        {
            match Move::from_chars(ws[i].as_slice()) {
                Some(m) => v.push(m),
                None => {
                    proof {
                        assert(ws@[i as int]@ == words(s@)[i as int]);
                    }
                    return None;
                },
            }
            i = i + 1;
        }
        Some(v)
    }

    /// All eighteen moves, in declaration order.
    pub fn all() -> (r: Vec<Move>)
        ensures
            r@.len() == 18,
            forall|i: int| 0 <= i < 18 ==> (#[trigger] r@[i]).spec_index() == i,
            forall|m: Move| r@.contains(m),
    {
        let r = vec![Move::U, Move::D, Move::F, Move::B, Move::R, Move::L, Move::U2, Move::U3, Move::D2, Move::D3, Move::F2, Move::F3, Move::B2, Move::B3, Move::R2, Move::R3, Move::L2, Move::L3];
        proof {
            assert forall|m: Move| r@.contains(m) by {
                if m == Move::U {
                    assert(r@[0] == m);
                }
                if m == Move::D {
                    assert(r@[1] == m);
                }
                if m == Move::F {
                    assert(r@[2] == m);
                }
                if m == Move::B {
                    assert(r@[3] == m);
                }
                if m == Move::R {
                    assert(r@[4] == m);
                }
                if m == Move::L {
                    assert(r@[5] == m);
                }
                if m == Move::U2 {
                    assert(r@[6] == m);
                }
                if m == Move::U3 {
                    assert(r@[7] == m);
                }
                if m == Move::D2 {
                    assert(r@[8] == m);
                }
                if m == Move::D3 {
                    assert(r@[9] == m);
                }
                if m == Move::F2 {
                    assert(r@[10] == m);
                }
                if m == Move::F3 {
                    assert(r@[11] == m);
                }
                if m == Move::B2 {
                    assert(r@[12] == m);
                }
                if m == Move::B3 {
                    assert(r@[13] == m);
                }
                if m == Move::R2 {
                    assert(r@[14] == m);
                }
                if m == Move::R3 {
                    assert(r@[15] == m);
                }
                if m == Move::L2 {
                    assert(r@[16] == m);
                }
                if m == Move::L3 {
                    assert(r@[17] == m);
                }
            }
        }
        r
    }

    /// Whether the move keeps the cube in the subgroup generated by U, D and the half
    /// turns of the other faces.
    pub open spec fn is_drud_move(self) -> bool {
        ||| self.spec_face() == Face::U
        ||| self.spec_face() == Face::D
        ||| self == Move::F2
        ||| self == Move::B2
        ||| self == Move::R2
        ||| self == Move::L2
    }

    /// The moves of the second phase.
    pub fn drud_moveset() -> (r: Vec<Move>)
        ensures
            r@.len() == 10,
            forall|i: int| 0 <= i < 10 ==> (#[trigger] r@[i]).is_drud_move(),
            forall|m: Move| m.is_drud_move() ==> r@.contains(m),
    {
        let r = vec![Move::U, Move::U2, Move::U3, Move::D, Move::D2, Move::D3, Move::F2, Move::B2, Move::R2, Move::L2];
        proof {
            assert forall|m: Move| m.is_drud_move() implies r@.contains(m) by {
                if m == Move::U {
                    assert(r@[0] == m);
                }
                if m == Move::U2 {
                    assert(r@[1] == m);
                }
                if m == Move::U3 {
                    assert(r@[2] == m);
                }
                if m == Move::D {
                    assert(r@[3] == m);
                }
                if m == Move::D2 {
                    assert(r@[4] == m);
                }
                if m == Move::D3 {
                    assert(r@[5] == m);
                }
                if m == Move::F2 {
                    assert(r@[6] == m);
                }
                if m == Move::B2 {
                    assert(r@[7] == m);
                }
                if m == Move::R2 {
                    assert(r@[8] == m);
                }
                if m == Move::L2 {
                    assert(r@[9] == m);
                }
            }
        }
        r
    }

    /// Two moves of the same face, which combine into a single move (or nothing).
    pub fn cancels_with(&self, other: &Move) -> (r: bool)
        ensures
            r == (self.spec_face() == other.spec_face()),
    {
        self.face() == other.face()
    }

    /// Moves of opposite faces, whose order does not matter.
    pub fn commutes_with(&self, other: &Move) -> (r: bool)
        ensures
            r == (self.spec_face() == other.spec_face().spec_opposite()),
    {
        self.face() == other.face().opposite()
    }

    /// The moves of the second phase keep the four E-slice edges among themselves.
    pub proof fn lemma_drud_keeps_eslice(self)
        requires
            self.is_drud_move(),
        ensures
            forall|i: int| 0 <= i < 12 ==> (#[trigger] self.edge_dests()[i] >= 8 <==> i >= 8),
    {
    }

    /// Where each edge slot is sent by the turn.
    pub open spec fn edge_dests(self) -> Seq<int> {
        match self {
            Move::U => seq![1, 2, 3, 0, 4, 5, 6, 7, 8, 9, 10, 11],
            Move::D => seq![0, 1, 2, 3, 7, 4, 5, 6, 8, 9, 10, 11],
            Move::F => seq![8, 1, 2, 3, 9, 5, 6, 7, 4, 0, 10, 11],
            Move::B => seq![0, 1, 10, 3, 4, 5, 11, 7, 8, 9, 6, 2],
            Move::R => seq![0, 1, 2, 11, 4, 5, 6, 8, 3, 9, 10, 7],
            Move::L => seq![0, 9, 2, 3, 4, 10, 6, 7, 8, 5, 1, 11],
            Move::U2 => seq![2, 3, 0, 1, 4, 5, 6, 7, 8, 9, 10, 11],
            Move::U3 => seq![3, 0, 1, 2, 4, 5, 6, 7, 8, 9, 10, 11],
            Move::D2 => seq![0, 1, 2, 3, 6, 7, 4, 5, 8, 9, 10, 11],
            Move::D3 => seq![0, 1, 2, 3, 5, 6, 7, 4, 8, 9, 10, 11],
            Move::F2 => seq![4, 1, 2, 3, 0, 5, 6, 7, 9, 8, 10, 11],
            Move::F3 => seq![9, 1, 2, 3, 8, 5, 6, 7, 0, 4, 10, 11],
            Move::B2 => seq![0, 1, 6, 3, 4, 5, 2, 7, 8, 9, 11, 10],
            Move::B3 => seq![0, 1, 11, 3, 4, 5, 10, 7, 8, 9, 2, 6],
            Move::R2 => seq![0, 1, 2, 7, 4, 5, 6, 3, 11, 9, 10, 8],
            Move::R3 => seq![0, 1, 2, 8, 4, 5, 6, 11, 7, 9, 10, 3],
            Move::L2 => seq![0, 5, 2, 3, 4, 1, 6, 7, 8, 10, 9, 11],
            Move::L3 => seq![0, 10, 2, 3, 4, 9, 6, 7, 8, 1, 5, 11],
        }
    }

    /// Where each corner slot is sent by the turn.
    pub open spec fn corner_dests(self) -> Seq<int> {
        match self {
            Move::U => seq![1, 2, 3, 0, 4, 5, 6, 7],
            Move::D => seq![0, 1, 2, 3, 7, 4, 5, 6],
            Move::F => seq![4, 0, 2, 3, 5, 1, 6, 7],
            Move::B => seq![0, 1, 6, 2, 4, 5, 7, 3],
            Move::R => seq![3, 1, 2, 7, 0, 5, 6, 4],
            Move::L => seq![0, 5, 1, 3, 4, 6, 2, 7],
            Move::U2 => seq![2, 3, 0, 1, 4, 5, 6, 7],
            Move::U3 => seq![3, 0, 1, 2, 4, 5, 6, 7],
            Move::D2 => seq![0, 1, 2, 3, 6, 7, 4, 5],
            Move::D3 => seq![0, 1, 2, 3, 5, 6, 7, 4],
            Move::F2 => seq![5, 4, 2, 3, 1, 0, 6, 7],
            Move::F3 => seq![1, 5, 2, 3, 0, 4, 6, 7],
            Move::B2 => seq![0, 1, 7, 6, 4, 5, 3, 2],
            Move::B3 => seq![0, 1, 3, 7, 4, 5, 2, 6],
            Move::R2 => seq![7, 1, 2, 4, 3, 5, 6, 0],
            Move::R3 => seq![4, 1, 2, 0, 7, 5, 6, 3],
            Move::L2 => seq![0, 6, 5, 3, 4, 2, 1, 7],
            Move::L3 => seq![0, 2, 6, 3, 4, 1, 5, 7],
        }
    }

    /// Which edge slots come out flipped.
    pub open spec fn flips(self) -> Seq<bool> {
        match self {
            Move::U => seq![false, false, false, false, false, false, false, false, false, false, false, false, false, false, false, false],
            Move::D => seq![false, false, false, false, false, false, false, false, false, false, false, false, false, false, false, false],
            Move::F => seq![true, false, false, false, true, false, false, false, true, true, false, false, false, false, false, false],
            Move::B => seq![false, false, true, false, false, false, true, false, false, false, true, true, false, false, false, false],
            Move::R => seq![false, false, false, false, false, false, false, false, false, false, false, false, false, false, false, false],
            Move::L => seq![false, false, false, false, false, false, false, false, false, false, false, false, false, false, false, false],
            Move::U2 => seq![false, false, false, false, false, false, false, false, false, false, false, false, false, false, false, false],
            Move::U3 => seq![false, false, false, false, false, false, false, false, false, false, false, false, false, false, false, false],
            Move::D2 => seq![false, false, false, false, false, false, false, false, false, false, false, false, false, false, false, false],
            Move::D3 => seq![false, false, false, false, false, false, false, false, false, false, false, false, false, false, false, false],
            Move::F2 => seq![false, false, false, false, false, false, false, false, false, false, false, false, false, false, false, false],
            Move::F3 => seq![true, false, false, false, true, false, false, false, true, true, false, false, false, false, false, false],
            Move::B2 => seq![false, false, false, false, false, false, false, false, false, false, false, false, false, false, false, false],
            Move::B3 => seq![false, false, true, false, false, false, true, false, false, false, true, true, false, false, false, false],
            Move::R2 => seq![false, false, false, false, false, false, false, false, false, false, false, false, false, false, false, false],
            Move::R3 => seq![false, false, false, false, false, false, false, false, false, false, false, false, false, false, false, false],
            Move::L2 => seq![false, false, false, false, false, false, false, false, false, false, false, false, false, false, false, false],
            Move::L3 => seq![false, false, false, false, false, false, false, false, false, false, false, false, false, false, false, false],
        }
    }

    /// The twist left in each corner slot.
    pub open spec fn twists(self) -> Seq<int> {
        match self {
            Move::U => seq![0, 0, 0, 0, 0, 0, 0, 0],
            Move::D => seq![0, 0, 0, 0, 0, 0, 0, 0],
            Move::F => seq![2, 1, 0, 0, 1, 2, 0, 0],
            Move::B => seq![0, 0, 2, 1, 0, 0, 1, 2],
            Move::R => seq![1, 0, 0, 2, 2, 0, 0, 1],
            Move::L => seq![0, 2, 1, 0, 0, 1, 2, 0],
            Move::U2 => seq![0, 0, 0, 0, 0, 0, 0, 0],
            Move::U3 => seq![0, 0, 0, 0, 0, 0, 0, 0],
            Move::D2 => seq![0, 0, 0, 0, 0, 0, 0, 0],
            Move::D3 => seq![0, 0, 0, 0, 0, 0, 0, 0],
            Move::F2 => seq![0, 0, 0, 0, 0, 0, 0, 0],
            Move::F3 => seq![2, 1, 0, 0, 1, 2, 0, 0],
            Move::B2 => seq![0, 0, 0, 0, 0, 0, 0, 0],
            Move::B3 => seq![0, 0, 2, 1, 0, 0, 1, 2],
            Move::R2 => seq![0, 0, 0, 0, 0, 0, 0, 0],
            Move::R3 => seq![1, 0, 0, 2, 2, 0, 0, 1],
            Move::L2 => seq![0, 0, 0, 0, 0, 0, 0, 0],
            Move::L3 => seq![0, 2, 1, 0, 0, 1, 2, 0],
        }
    }

    /// `c` is the state reached by applying the turn to the solved cube.
    pub open spec fn is_cube_of(self, c: Cube) -> bool {
        &&& c.wf()
        &&& c.ep@ == self.edge_dests()
        &&& c.cp@ == self.corner_dests()
        &&& forall|j: int| 0 <= j < 16 ==> #[trigger] bit(c.eo.0, j) == self.flips()[j]
        &&& c.co@ == self.twists()
    }

    /// The state reached by applying the turn to the solved cube.
    pub open spec fn spec_cube(self) -> Cube {
        choose|c: Cube| self.is_cube_of(c)
    }

    /// The description of a turn's cube fixes the cube.
    pub proof fn lemma_cube_unique(self, c1: Cube, c2: Cube)
        requires
            self.is_cube_of(c1),
            self.is_cube_of(c2),
        ensures
            c1 == c2,
    {
        assert forall|i: int| 0 <= i < 12 implies c1.ep.dest_of(i) == c2.ep.dest_of(i) by {
            assert(c1.ep@[i] == c2.ep@[i]);
        }
        c1.ep.lemma_ext(c2.ep);
        assert forall|i: int| 0 <= i < 8 implies c1.cp.dest_of(i) == c2.cp.dest_of(i) by {
            assert(c1.cp@[i] == c2.cp@[i]);
        }
        c1.cp.lemma_ext(c2.cp);
        lemma_bit_ext(c1.eo.0, c2.eo.0);
        assert forall|k: int| 0 <= k < 8 implies lane(c1.co.0, k) == lane(c2.co.0, k) by {
            assert(c1.co@[k] == c2.co@[k]);
        }
        lemma_lane_ext(c1.co.0, c2.co.0);
    }

    /// The twists of a turn sum to a multiple of 3 and it flips an even number of edges.
    pub proof fn lemma_cube_balanced(self, c: Cube)
        requires
            self.is_cube_of(c),
        ensures
            orientations_balanced(c),
    {
        assert forall|k: int| 0 <= k < 8 implies lane(c.co.0, k) == #[trigger] self.twists()[k] by {
            assert(c.co@[k] == lane(c.co.0, k));
        }
        assert forall|j: int| 0 <= j < 12 implies bit(c.eo.0, j) == #[trigger] self.flips()[j] by {}
        reveal_with_fuel(twist_total, 9);
        reveal_with_fuel(popcount, 13);
        assert(lane(c.co.0, 0) == self.twists()[0]);
        assert(lane(c.co.0, 1) == self.twists()[1]);
        assert(lane(c.co.0, 2) == self.twists()[2]);
        assert(lane(c.co.0, 3) == self.twists()[3]);
        assert(lane(c.co.0, 4) == self.twists()[4]);
        assert(lane(c.co.0, 5) == self.twists()[5]);
        assert(lane(c.co.0, 6) == self.twists()[6]);
        assert(lane(c.co.0, 7) == self.twists()[7]);
        assert(bit(c.eo.0, 0) == self.flips()[0]);
        assert(bit(c.eo.0, 1) == self.flips()[1]);
        assert(bit(c.eo.0, 2) == self.flips()[2]);
        assert(bit(c.eo.0, 3) == self.flips()[3]);
        assert(bit(c.eo.0, 4) == self.flips()[4]);
        assert(bit(c.eo.0, 5) == self.flips()[5]);
        assert(bit(c.eo.0, 6) == self.flips()[6]);
        assert(bit(c.eo.0, 7) == self.flips()[7]);
        assert(bit(c.eo.0, 8) == self.flips()[8]);
        assert(bit(c.eo.0, 9) == self.flips()[9]);
        assert(bit(c.eo.0, 10) == self.flips()[10]);
        assert(bit(c.eo.0, 11) == self.flips()[11]);
    }

    /// The cube state reached by applying the turn to the solved cube.
    pub fn cube(self) -> (r: Cube)
        ensures
            self.is_cube_of(r),
            r == self.spec_cube(),
    {
        let r = self.build();
        proof {
            self.lemma_cube_unique(r, self.spec_cube());
        }
        r
    }

    fn build(self) -> (r: Cube)
        ensures
            r.wf(),
            r.ep@ == self.edge_dests(),
            r.cp@ == self.corner_dests(),
            forall|j: int| 0 <= j < 16 ==> #[trigger] bit(r.eo.0, j) == self.flips()[j],
            r.co@ == self.twists(),
    {
        let r = match self {
            Move::U => Cube {
                eo: EO::from_bad_edges(&[]),
                co: CO::from_assoc(&[]),
                ep: Perm::<12>::from_dests(&[1, 2, 3, 0, 4, 5, 6, 7, 8, 9, 10, 11]),
                cp: Perm::<8>::from_dests(&[1, 2, 3, 0, 4, 5, 6, 7]),
            },
            Move::D => Cube {
                eo: EO::from_bad_edges(&[]),
                co: CO::from_assoc(&[]),
                ep: Perm::<12>::from_dests(&[0, 1, 2, 3, 7, 4, 5, 6, 8, 9, 10, 11]),
                cp: Perm::<8>::from_dests(&[0, 1, 2, 3, 7, 4, 5, 6]),
            },
            Move::F => Cube {
                eo: EO::from_bad_edges(&[Edge::UF, Edge::DF, Edge::FR, Edge::FL]),
                co: CO::from_assoc(&[(Corner::UFR, 2), (Corner::UFL, 1), (Corner::DFR, 1), (Corner::DFL, 2)]),
                ep: Perm::<12>::from_dests(&[8, 1, 2, 3, 9, 5, 6, 7, 4, 0, 10, 11]),
                cp: Perm::<8>::from_dests(&[4, 0, 2, 3, 5, 1, 6, 7]),
            },
            Move::B => Cube {
                eo: EO::from_bad_edges(&[Edge::UB, Edge::DB, Edge::BL, Edge::BR]),
                co: CO::from_assoc(&[(Corner::UBL, 2), (Corner::UBR, 1), (Corner::DBL, 1), (Corner::DBR, 2)]),
                ep: Perm::<12>::from_dests(&[0, 1, 10, 3, 4, 5, 11, 7, 8, 9, 6, 2]),
                cp: Perm::<8>::from_dests(&[0, 1, 6, 2, 4, 5, 7, 3]),
            },
            Move::R => Cube {
                eo: EO::from_bad_edges(&[]),
                co: CO::from_assoc(&[(Corner::UFR, 1), (Corner::UBR, 2), (Corner::DFR, 2), (Corner::DBR, 1)]),
                ep: Perm::<12>::from_dests(&[0, 1, 2, 11, 4, 5, 6, 8, 3, 9, 10, 7]),
                cp: Perm::<8>::from_dests(&[3, 1, 2, 7, 0, 5, 6, 4]),
            },
            Move::L => Cube {
                eo: EO::from_bad_edges(&[]),
                co: CO::from_assoc(&[(Corner::UFL, 2), (Corner::UBL, 1), (Corner::DFL, 1), (Corner::DBL, 2)]),
                ep: Perm::<12>::from_dests(&[0, 9, 2, 3, 4, 10, 6, 7, 8, 5, 1, 11]),
                cp: Perm::<8>::from_dests(&[0, 5, 1, 3, 4, 6, 2, 7]),
            },
            Move::U2 => Cube {
                eo: EO::from_bad_edges(&[]),
                co: CO::from_assoc(&[]),
                ep: Perm::<12>::from_dests(&[2, 3, 0, 1, 4, 5, 6, 7, 8, 9, 10, 11]),
                cp: Perm::<8>::from_dests(&[2, 3, 0, 1, 4, 5, 6, 7]),
            },
            Move::U3 => Cube {
                eo: EO::from_bad_edges(&[]),
                co: CO::from_assoc(&[]),
                ep: Perm::<12>::from_dests(&[3, 0, 1, 2, 4, 5, 6, 7, 8, 9, 10, 11]),
                cp: Perm::<8>::from_dests(&[3, 0, 1, 2, 4, 5, 6, 7]),
            },
            Move::D2 => Cube {
                eo: EO::from_bad_edges(&[]),
                co: CO::from_assoc(&[]),
                ep: Perm::<12>::from_dests(&[0, 1, 2, 3, 6, 7, 4, 5, 8, 9, 10, 11]),
                cp: Perm::<8>::from_dests(&[0, 1, 2, 3, 6, 7, 4, 5]),
            },
            Move::D3 => Cube {
                eo: EO::from_bad_edges(&[]),
                co: CO::from_assoc(&[]),
                ep: Perm::<12>::from_dests(&[0, 1, 2, 3, 5, 6, 7, 4, 8, 9, 10, 11]),
                cp: Perm::<8>::from_dests(&[0, 1, 2, 3, 5, 6, 7, 4]),
            },
            Move::F2 => Cube {
                eo: EO::from_bad_edges(&[]),
                co: CO::from_assoc(&[]),
                ep: Perm::<12>::from_dests(&[4, 1, 2, 3, 0, 5, 6, 7, 9, 8, 10, 11]),
                cp: Perm::<8>::from_dests(&[5, 4, 2, 3, 1, 0, 6, 7]),
            },
            Move::F3 => Cube {
                eo: EO::from_bad_edges(&[Edge::UF, Edge::DF, Edge::FR, Edge::FL]),
                co: CO::from_assoc(&[(Corner::UFR, 2), (Corner::UFL, 1), (Corner::DFR, 1), (Corner::DFL, 2)]),
                ep: Perm::<12>::from_dests(&[9, 1, 2, 3, 8, 5, 6, 7, 0, 4, 10, 11]),
                cp: Perm::<8>::from_dests(&[1, 5, 2, 3, 0, 4, 6, 7]),
            },
            Move::B2 => Cube {
                eo: EO::from_bad_edges(&[]),
                co: CO::from_assoc(&[]),
                ep: Perm::<12>::from_dests(&[0, 1, 6, 3, 4, 5, 2, 7, 8, 9, 11, 10]),
                cp: Perm::<8>::from_dests(&[0, 1, 7, 6, 4, 5, 3, 2]),
            },
            Move::B3 => Cube {
                eo: EO::from_bad_edges(&[Edge::UB, Edge::DB, Edge::BL, Edge::BR]),
                co: CO::from_assoc(&[(Corner::UBL, 2), (Corner::UBR, 1), (Corner::DBL, 1), (Corner::DBR, 2)]),
                ep: Perm::<12>::from_dests(&[0, 1, 11, 3, 4, 5, 10, 7, 8, 9, 2, 6]),
                cp: Perm::<8>::from_dests(&[0, 1, 3, 7, 4, 5, 2, 6]),
            },
            Move::R2 => Cube {
                eo: EO::from_bad_edges(&[]),
                co: CO::from_assoc(&[]),
                ep: Perm::<12>::from_dests(&[0, 1, 2, 7, 4, 5, 6, 3, 11, 9, 10, 8]),
                cp: Perm::<8>::from_dests(&[7, 1, 2, 4, 3, 5, 6, 0]),
            },
            Move::R3 => Cube {
                eo: EO::from_bad_edges(&[]),
                co: CO::from_assoc(&[(Corner::UFR, 1), (Corner::UBR, 2), (Corner::DFR, 2), (Corner::DBR, 1)]),
                ep: Perm::<12>::from_dests(&[0, 1, 2, 8, 4, 5, 6, 11, 7, 9, 10, 3]),
                cp: Perm::<8>::from_dests(&[4, 1, 2, 0, 7, 5, 6, 3]),
            },
            Move::L2 => Cube {
                eo: EO::from_bad_edges(&[]),
                co: CO::from_assoc(&[]),
                ep: Perm::<12>::from_dests(&[0, 5, 2, 3, 4, 1, 6, 7, 8, 10, 9, 11]),
                cp: Perm::<8>::from_dests(&[0, 6, 5, 3, 4, 2, 1, 7]),
            },
            Move::L3 => Cube {
                eo: EO::from_bad_edges(&[]),
                co: CO::from_assoc(&[(Corner::UFL, 2), (Corner::UBL, 1), (Corner::DFL, 1), (Corner::DBL, 2)]),
                ep: Perm::<12>::from_dests(&[0, 10, 2, 3, 4, 9, 6, 7, 8, 1, 5, 11]),
                cp: Perm::<8>::from_dests(&[0, 2, 6, 3, 4, 1, 5, 7]),
            },
        };
        r
    }
}

} // verus!
