//! The six faces of the cube.
use vstd::prelude::*;

verus! {

#[derive(Copy, Clone, Debug, PartialEq, Eq, Structural, PartialOrd, Ord, Hash)]
pub enum Face {
    U,
    D,
    F,
    B,
    R,
    L,
}

impl Face {
    /// The face on the other side of the cube.
    pub open spec fn spec_opposite(self) -> Face {
        match self {
            Face::U => Face::D,
            Face::D => Face::U,
            Face::F => Face::B,
            Face::B => Face::F,
            Face::R => Face::L,
            Face::L => Face::R,
        }
    }

    /// The face on the other side of the cube.
    pub fn opposite(&self) -> (r: Self)
        ensures
            r == self.spec_opposite(),
            r != *self,
    {
        match self {
            Face::U => Face::D,
            Face::D => Face::U,
            Face::F => Face::B,
            Face::B => Face::F,
            Face::R => Face::L,
            Face::L => Face::R,
        }
    }

    /// The face named by a letter, one of `U D F B R L`.
    pub open spec fn of_letter(c: char) -> Option<Face> {
        if c == 'U' {
            Some(Face::U)
        } else if c == 'D' {
            Some(Face::D)
        } else if c == 'F' {
            Some(Face::F)
        } else if c == 'B' {
            Some(Face::B)
        } else if c == 'R' {
            Some(Face::R)
        } else if c == 'L' {
            Some(Face::L)
        } else {
            None
        }
    }

    /// The face named by a letter, one of `U D F B R L`.
    pub fn from_letter(c: char) -> (r: Option<Face>)
        ensures
            r == Self::of_letter(c),
    {
        if c == 'U' {
            Some(Face::U)
        } else if c == 'D' {
            Some(Face::D)
        } else if c == 'F' {
            Some(Face::F)
        } else if c == 'B' {
            Some(Face::B)
        } else if c == 'R' {
            Some(Face::R)
        } else if c == 'L' {
            Some(Face::L)
        } else {
            None
        }
    }

    /// Taking the opposite face twice gives back the face.
    pub proof fn law_opposite_involution(f: Face)
        ensures
            f.spec_opposite().spec_opposite() == f,
    {
    }
}

} // verus!
