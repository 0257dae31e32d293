//! Edge and corner pieces (and slots) of the cube.
use vstd::prelude::*;

use crate::face::Face;
use crate::text::chars_of;

verus! {

/// Position of a face in the order `U, D, F, B, R, L`.
pub open spec fn face_rank(f: Face) -> int {
    match f {
        Face::U => 0,
        Face::D => 1,
        Face::F => 2,
        Face::B => 3,
        Face::R => 4,
        Face::L => 5,
    }
}

pub(crate) fn rank(f: Face) -> (r: u8)
    ensures
        r == face_rank(f),
{
    match f {
        Face::U => 0,
        Face::D => 1,
        Face::F => 2,
        Face::B => 3,
        Face::R => 4,
        Face::L => 5,
    }
}

#[derive(Debug, Copy, Clone, PartialEq, Eq, Structural, PartialOrd, Ord, Hash)]
pub enum Edge {
    UF,
    UL,
    UB,
    UR,
    DF,
    DL,
    DB,
    DR,
    FR,
    FL,
    BL,
    BR,
}

impl Edge {
    /// Number of the edge, in declaration order.
    pub open spec fn spec_coord(self) -> int {
        match self {
            Edge::UF => 0,
            Edge::UL => 1,
            Edge::UB => 2,
            Edge::UR => 3,
            Edge::DF => 4,
            Edge::DL => 5,
            Edge::DB => 6,
            Edge::DR => 7,
            Edge::FR => 8,
            Edge::FL => 9,
            Edge::BL => 10,
            Edge::BR => 11,
        }
    }

    /// The edge with the given number.
    pub open spec fn spec_from_coord(c: int) -> Edge {
        if c == 0 {
            Edge::UF
        } else if c == 1 {
            Edge::UL
        } else if c == 2 {
            Edge::UB
        } else if c == 3 {
            Edge::UR
        } else if c == 4 {
            Edge::DF
        } else if c == 5 {
            Edge::DL
        } else if c == 6 {
            Edge::DB
        } else if c == 7 {
            Edge::DR
        } else if c == 8 {
            Edge::FR
        } else if c == 9 {
            Edge::FL
        } else if c == 10 {
            Edge::BL
        } else {
            Edge::BR
        }
    }

    /// The two faces of the edge, in face order.
    pub open spec fn faces(self) -> (Face, Face) {
        match self {
            Edge::UF => (Face::U, Face::F),
            Edge::UL => (Face::U, Face::L),
            Edge::UB => (Face::U, Face::B),
            Edge::UR => (Face::U, Face::R),
            Edge::DF => (Face::D, Face::F),
            Edge::DL => (Face::D, Face::L),
            Edge::DB => (Face::D, Face::B),
            Edge::DR => (Face::D, Face::R),
            Edge::FR => (Face::F, Face::R),
            Edge::FL => (Face::F, Face::L),
            Edge::BL => (Face::B, Face::L),
            Edge::BR => (Face::B, Face::R),
        }
    }

    pub fn coord(&self) -> (r: usize)
        ensures
            r == self.spec_coord(),
            r < 12,
    {
        match self {
            Edge::UF => 0,
            Edge::UL => 1,
            Edge::UB => 2,
            Edge::UR => 3,
            Edge::DF => 4,
            Edge::DL => 5,
            Edge::DB => 6,
            Edge::DR => 7,
            Edge::FR => 8,
            Edge::FL => 9,
            Edge::BL => 10,
            Edge::BR => 11,
        }
    }

    pub fn from_coord(coord: usize) -> (r: Self)
        requires
            coord < 12,
        ensures
            r == Self::spec_from_coord(coord as int),
            r.spec_coord() == coord,
    {
        match coord {
            0 => Edge::UF,
            1 => Edge::UL,
            2 => Edge::UB,
            3 => Edge::UR,
            4 => Edge::DF,
            5 => Edge::DL,
            6 => Edge::DB,
            7 => Edge::DR,
            8 => Edge::FR,
            9 => Edge::FL,
            10 => Edge::BL,
            _ => Edge::BR,
        }
    }

    /// All edges, in coordinate order.
    pub fn all() -> (r: Vec<Edge>)
        ensures
            r@.len() == 12,
            forall|i: int| 0 <= i < 12 ==> (#[trigger] r@[i]).spec_coord() == i,
    {
        vec![
            Edge::UF,
            Edge::UL,
            Edge::UB,
            Edge::UR,
            Edge::DF,
            Edge::DL,
            Edge::DB,
            Edge::DR,
            Edge::FR,
            Edge::FL,
            Edge::BL,
            Edge::BR,
        ]
    }

    /// The edge with the two given faces, in either order.
    pub fn from_faces(a: Face, b: Face) -> (r: Result<Edge, ()>)
        ensures
            r matches Ok(e) ==> e.faces() == (a, b) || e.faces() == (b, a),
            r is Err ==> forall|e: Edge| e.faces() != (a, b) && e.faces() != (b, a),
    {
        let (x, y) = if rank(a) <= rank(b) {
            (a, b)
        } else {
            (b, a)
        };
        match (x, y) {
            (Face::U, Face::F) => Ok(Edge::UF),
            (Face::U, Face::L) => Ok(Edge::UL),
            (Face::U, Face::B) => Ok(Edge::UB),
            (Face::U, Face::R) => Ok(Edge::UR),
            (Face::D, Face::F) => Ok(Edge::DF),
            (Face::D, Face::L) => Ok(Edge::DL),
            (Face::D, Face::B) => Ok(Edge::DB),
            (Face::D, Face::R) => Ok(Edge::DR),
            (Face::F, Face::R) => Ok(Edge::FR),
            (Face::F, Face::L) => Ok(Edge::FL),
            (Face::B, Face::L) => Ok(Edge::BL),
            (Face::B, Face::R) => Ok(Edge::BR),
            _ => Err(()),
        }
    }

    /// Numbering the edges and reading them back gives the same edge.
    pub proof fn law_coord_roundtrip(e: Edge)
        ensures
            Self::spec_from_coord(e.spec_coord()) == e,
            0 <= e.spec_coord() < 12,
    {
    }
}

#[derive(Debug, Copy, Clone, PartialEq, Eq, Structural, PartialOrd, Ord, Hash)]
pub enum Corner {
    UFR,
    UFL,
    UBL,
    UBR,
    DFR,
    DFL,
    DBL,
    DBR,
}

impl Corner {
    /// Number of the corner, in declaration order.
    pub open spec fn spec_coord(self) -> int {
        match self {
            Corner::UFR => 0,
            Corner::UFL => 1,
            Corner::UBL => 2,
            Corner::UBR => 3,
            Corner::DFR => 4,
            Corner::DFL => 5,
            Corner::DBL => 6,
            Corner::DBR => 7,
        }
    }

    /// The corner with the given number.
    pub open spec fn spec_from_coord(c: int) -> Corner {
        if c == 0 {
            Corner::UFR
        } else if c == 1 {
            Corner::UFL
        } else if c == 2 {
            Corner::UBL
        } else if c == 3 {
            Corner::UBR
        } else if c == 4 {
            Corner::DFR
        } else if c == 5 {
            Corner::DFL
        } else if c == 6 {
            Corner::DBL
        } else {
            Corner::DBR
        }
    }

    /// Numbering the corners and reading them back gives the same corner.
    pub proof fn law_coord_roundtrip(k: Corner)
        ensures
            Self::spec_from_coord(k.spec_coord()) == k,
            0 <= k.spec_coord() < 8,
    {
    }

    /// The three faces of the corner, in face order.
    pub open spec fn faces(self) -> (Face, Face, Face) {
        match self {
            Corner::UFR => (Face::U, Face::F, Face::R),
            Corner::UFL => (Face::U, Face::F, Face::L),
            Corner::UBL => (Face::U, Face::B, Face::L),
            Corner::UBR => (Face::U, Face::B, Face::R),
            Corner::DFR => (Face::D, Face::F, Face::R),
            Corner::DFL => (Face::D, Face::F, Face::L),
            Corner::DBL => (Face::D, Face::B, Face::L),
            Corner::DBR => (Face::D, Face::B, Face::R),
        }
    }

    pub fn coord(&self) -> (r: usize)
        ensures
            r == self.spec_coord(),
            r < 8,
    {
        match self {
            Corner::UFR => 0,
            Corner::UFL => 1,
            Corner::UBL => 2,
            Corner::UBR => 3,
            Corner::DFR => 4,
            Corner::DFL => 5,
            Corner::DBL => 6,
            Corner::DBR => 7,
        }
    }

    /// All corners, in coordinate order.
    pub fn all() -> (r: Vec<Corner>)
        ensures
            r@.len() == 8,
            forall|i: int| 0 <= i < 8 ==> (#[trigger] r@[i]).spec_coord() == i,
    {
        vec![
            Corner::UFR,
            Corner::UFL,
            Corner::UBL,
            Corner::UBR,
            Corner::DFR,
            Corner::DFL,
            Corner::DBL,
            Corner::DBR,
        ]
    }

    /// The corner with the three given faces, in any order.
    pub fn from_faces(a: Face, b: Face, c: Face) -> (r: Result<Corner, ()>)
        ensures
            r matches Ok(k) ==> is_sorting_of(k.faces(), a, b, c),
            r is Err ==> forall|k: Corner| !is_sorting_of(k.faces(), a, b, c),
    {
        let (a, b) = if rank(a) <= rank(b) {
            (a, b)
        } else {
            (b, a)
        };
        let (b, c) = if rank(b) <= rank(c) {
            (b, c)
        } else {
            (c, b)
        };
        let (a, b) = if rank(a) <= rank(b) {
            (a, b)
        } else {
            (b, a)
        };
        match (a, b, c) {
            (Face::U, Face::F, Face::R) => Ok(Corner::UFR),
            (Face::U, Face::F, Face::L) => Ok(Corner::UFL),
            (Face::U, Face::B, Face::L) => Ok(Corner::UBL),
            (Face::U, Face::B, Face::R) => Ok(Corner::UBR),
            (Face::D, Face::F, Face::R) => Ok(Corner::DFR),
            (Face::D, Face::F, Face::L) => Ok(Corner::DFL),
            (Face::D, Face::B, Face::L) => Ok(Corner::DBL),
            (Face::D, Face::B, Face::R) => Ok(Corner::DBR),
            _ => Err(()),
        }
    }
}

/// `t` is `(a, b, c)` in some order.
pub open spec fn is_sorting_of(t: (Face, Face, Face), a: Face, b: Face, c: Face) -> bool {
    ||| t == (a, b, c)
    ||| t == (a, c, b)
    ||| t == (b, a, c)
    ||| t == (b, c, a)
    ||| t == (c, a, b)
    ||| t == (c, b, a)
}

/// The faces named by the letters of `s`, when each of its characters names a face.
pub open spec fn faces_of_name(s: Seq<char>) -> Option<Seq<Face>> {
    if forall|i: int| 0 <= i < s.len() ==> (#[trigger] Face::of_letter(s[i])) is Some {
        Some(Seq::new(s.len(), |i: int| Face::of_letter(s[i])->0))
    } else {
        None
    }
}

impl<'a> TryFrom<&'a str> for Edge {
    type Error = ();

    /// The edge named by its two faces, in either order, such as `UF` or `FU`.
    fn try_from(s: &'a str) -> (r: Result<Edge, ()>)
        ensures
            r matches Ok(e) ==> faces_of_name(s@) matches Some(f) && f.len() == 2 && (e.faces()
                == (f[0], f[1]) || e.faces() == (f[1], f[0])),
            r is Err ==> !(faces_of_name(s@) matches Some(f) && f.len() == 2 && exists|e: Edge|
                e.faces() == (f[0], f[1]) || e.faces() == (f[1], f[0])),
    {
        let cs = chars_of(s);
        if cs.len() != 2 {
            return Err(());
        }
        let a = Face::from_letter(cs[0]);
        let b = Face::from_letter(cs[1]);
        match (a, b) {
            (Some(a), Some(b)) => {
                proof {
                    assert(forall|i: int| 0 <= i < 2 ==> (#[trigger] Face::of_letter(s@[i])) is Some) by {
                        assert(s@ == cs@);
                    }
                }
                Edge::from_faces(a, b)
            },
            _ => Err(()),
        }
    }
}

impl<'a> vstd::std_specs::convert::TryFromSpecImpl<&'a str> for Edge {
    open spec fn obeys_try_from_spec() -> bool {
        false
    }

    open spec fn try_from_spec(v: &'a str) -> Result<Edge, ()> {
        Err(())
    }
}

impl<'a> TryFrom<&'a str> for Corner {
    type Error = ();

    /// The corner named by its three faces, in any order, such as `UFR` or `RUF`.
    fn try_from(s: &'a str) -> (r: Result<Corner, ()>)
        ensures
            r matches Ok(k) ==> faces_of_name(s@) matches Some(f) && f.len() == 3 && is_sorting_of(
                k.faces(),
                f[0],
                f[1],
                f[2],
            ),
            r is Err ==> !(faces_of_name(s@) matches Some(f) && f.len() == 3 && exists|k: Corner|
                is_sorting_of(k.faces(), f[0], f[1], f[2])),
    {
        let cs = chars_of(s);
        if cs.len() != 3 {
            return Err(());
        }
        let a = Face::from_letter(cs[0]);
        let b = Face::from_letter(cs[1]);
        let c = Face::from_letter(cs[2]);
        match (a, b, c) {
            (Some(a), Some(b), Some(c)) => {
                proof {
                    assert(forall|i: int| 0 <= i < 3 ==> (#[trigger] Face::of_letter(s@[i])) is Some) by {
                        assert(s@ == cs@);
                    }
                }
                Corner::from_faces(a, b, c)
            },
            _ => Err(()),
        }
    }
}

impl<'a> vstd::std_specs::convert::TryFromSpecImpl<&'a str> for Corner {
    open spec fn obeys_try_from_spec() -> bool {
        false
    }

    open spec fn try_from_spec(v: &'a str) -> Result<Corner, ()> {
        Err(())
    }
}

} // verus!
