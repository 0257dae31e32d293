//! Coordinates: numbers that describe a part of a cube state (a coset of the cube group),
//! and tables of the classes of coordinates under the symmetries.
use vstd::prelude::*;

use crate::cube::{keeps_eslice, Cube};
use crate::sym::{inverse_sym, is_conjugate, sym_compose, sym_inverse, Sym};

pub mod co;
pub mod cp;
pub mod eo;
pub mod ep;
pub mod eslice;
pub mod eslice_ep;
pub mod sym_table;

pub use sym_table::SymTable;

verus! {

/// The cubes on which a coordinate is read: well formed, and, for a coordinate of the
/// second phase (`dr`), with the four E-slice edges kept in the E slice.
pub open spec fn admissible(dr: bool, c: Cube) -> bool {
    &&& c.wf()
    &&& dr ==> keeps_eslice(c.ep)
}

/// Description of a coordinate which maps to a (right) coset of the cube.
pub trait Coord {
    /// Whether the coordinate is only read on cubes of the second phase.
    spec fn needs_dr() -> bool;

    /// The number of values of the coordinate.
    spec fn spec_n_values() -> nat;

    /// The coordinate of a cube.
    spec fn spec_index(c: Cube) -> nat;

    /// The symmetry conjugation that transforms the coordinate.
    spec fn spec_conj(c: Cube, s: Sym) -> Cube;

    /// The symmetries listed for the coordinate.
    spec fn spec_syms() -> Seq<Sym>;

    /// Whether `rep` inverts `index`, so that the coordinate can be reduced by symmetry.
    spec fn reducible() -> bool;

    /// Whether the coordinate of `c` fixes all that conjugating `c` reads: for an
    /// orientation coordinate, the orientations of `c` sum as on a reachable cube.
    spec fn complete(c: Cube) -> bool;

    /// `Self::spec_conj(c, s)` is a genuine conjugate, by the conjugating cube of `s`, of
    /// the part of `c` that the coordinate reads.
    spec fn conj_defined(c: Cube, s: Sym) -> bool;

    proof fn lemma_n_values()
        ensures
            0 < Self::spec_n_values() <= 40320,
    ;

    /// A reducible coordinate lists the identity symmetry first.
    proof fn lemma_identity_first()
        ensures
            Self::reducible() ==> Self::spec_syms().len() > 0 && Self::spec_syms()[0].code() == 0,
    ;

    /// Conjugating by the identity symmetry changes nothing.
    proof fn lemma_conj_identity(c: Cube, s: Sym)
        requires
            admissible(Self::needs_dr(), c),
            s.code() == 0,
        ensures
            Self::spec_conj(c, s) == c,
            Self::conj_defined(c, s),
            s.is_conjugator(s.spec_conjugator()),
    ;

    /// Conjugating back: when `c` has the coordinate of the conjugate of `rep` by `s`,
    /// the conjugate of `c` by the inverse of `s` has the coordinate of `rep`.
    proof fn lemma_conj_back(rep: Cube, s: Sym, c: Cube, r: Cube)
        requires
            admissible(Self::needs_dr(), rep),
            admissible(Self::needs_dr(), c),
            Self::complete(rep),
            Self::complete(c),
            s.valid(),
            s.is_conjugator(s.spec_conjugator()),
            inverse_sym(s).is_conjugator(inverse_sym(s).spec_conjugator()),
            Self::conj_defined(rep, s),
            Self::spec_index(Self::spec_conj(rep, s)) == Self::spec_index(c),
            is_conjugate(r, c, inverse_sym(s).spec_conjugator()),
        ensures
            Self::spec_index(r) == Self::spec_index(rep),
    ;

    /// Symmetries respect the coordinate: cubes with the same coordinate have conjugates,
    /// by any of the sixteen symmetries, with the same coordinate.
    proof fn law_syms_respect_index(a: Cube, b: Cube, s: Sym)
        requires
            s.valid(),
            s.is_conjugator(s.spec_conjugator()),
            admissible(Self::needs_dr(), a),
            admissible(Self::needs_dr(), b),
            Self::complete(a),
            Self::complete(b),
            Self::conj_defined(a, s),
            Self::conj_defined(b, s),
            Self::spec_index(a) == Self::spec_index(b),
        ensures
            Self::spec_index(Self::spec_conj(a, s)) == Self::spec_index(Self::spec_conj(b, s)),
    ;

    /// The listed symmetries of a reducible coordinate form a group: with `s` and `t`, the
    /// inverse of `s` followed by `t` is listed.
    proof fn lemma_syms_closed()
        ensures
            Self::reducible() ==> forall|i: int, j: int|
                0 <= i < Self::spec_syms().len() && 0 <= j < Self::spec_syms().len() ==> exists|l: int|
                    0 <= l < Self::spec_syms().len() && Self::spec_syms()[l].code() == #[trigger] sym_compose(
                        sym_inverse(Self::spec_syms()[i].code()),
                        Self::spec_syms()[j].code(),
                    ),
    ;

    /// Orbits of a reducible coordinate that meet hold each other's cubes: when the
    /// conjugate of `p` by `t` and that of `k` by `s` have the same coordinate, the
    /// conjugate of `p` by the inverse of `s` followed by `t` has the coordinate of `k`.
    proof fn lemma_orbits_meet(p: Cube, t: Sym, k: Cube, s: Sym, u: Sym)
        requires
            admissible(Self::needs_dr(), p),
            admissible(Self::needs_dr(), k),
            Self::complete(p),
            Self::complete(k),
            s.valid(),
            t.valid(),
            s.is_conjugator(s.spec_conjugator()),
            t.is_conjugator(t.spec_conjugator()),
            u.is_conjugator(u.spec_conjugator()),
            Self::conj_defined(p, t),
            Self::conj_defined(k, s),
            Self::conj_defined(p, u),
            u.code() == sym_compose(sym_inverse(s.code()), t.code()),
            Self::spec_index(Self::spec_conj(p, t)) == Self::spec_index(Self::spec_conj(k, s)),
        ensures
            Self::reducible() ==> Self::spec_index(Self::spec_conj(p, u)) == Self::spec_index(k),
    ;

    /// Name of the coordinate, used for debugging purposes.
    fn name() -> &'static str;

    /// The number of values of the coordinate.
    fn n_values() -> (r: usize)
        ensures
            r == Self::spec_n_values(),
    ;

    /// Inspect a cube and produce the coordinate associated with it, some number in
    /// `[0, n_values)`.
    fn index(c: &Cube) -> (r: usize)
        requires
            admissible(Self::needs_dr(), *c),
        ensures
            r == Self::spec_index(*c),
            r < Self::spec_n_values(),
    ;

    /// Given a coordinate, produce a cube which has that coordinate when `index` is called
    /// on it.
    fn rep(c: usize) -> (r: Cube)
        requires
            c < Self::spec_n_values(),
        ensures
            admissible(Self::needs_dr(), r),
            Self::complete(r),
            Self::spec_index(r) == c,
    ;

    /// Apply a symmetry conjugation to the cube which transforms the coordinate
    /// appropriately, for example conjugating corners for a corner coordinate.
    fn conj(c: &Cube, s: Sym) -> (r: Cube)
        requires
            admissible(Self::needs_dr(), *c),
            s.valid(),
        ensures
            r == Self::spec_conj(*c, s),
            Self::conj_defined(*c, s),
            s.is_conjugator(s.spec_conjugator()),
            c.wf() ==> r.wf(),
            keeps_eslice(c.ep) ==> keeps_eslice(r.ep),
    ;

    /// The symmetries which are applicable to the coordinate: if two cubes have the same
    /// coordinate, so do their conjugates.
    fn syms() -> (r: Vec<Sym>)
        ensures
            r@ == Self::spec_syms(),
            forall|i: int| 0 <= i < r@.len() ==> (#[trigger] r@[i]).valid(),
    ;
}

} // verus!
