//! The sixteen symmetries of the cube that keep the U/D axis (and its DR subgroup).
use vstd::prelude::*;

use crate::bitset::bit;
use crate::bitset::lemma_bit_ext;
use crate::cube::{corners_composed, edges_composed, twist_neg, co_moved, keeps_eslice, lemma_keeps_eslice_compose, lemma_keeps_eslice_inverse, lemma_edges_composed_wf, lemma_corners_composed_wf, lemma_moved_bit_valid, Cube, CO, EO};
use crate::perm::Perm;

verus! {

/// Mirror bit `m` of a symmetry code `m|x|yy`.
pub open spec fn sym_m(a: int) -> int {
    (a / 8) % 2
}

/// x2-rotation bit `x` of a symmetry code `m|x|yy`.
pub open spec fn sym_x(a: int) -> int {
    (a / 4) % 2
}

/// Number `y` of y-rotations of a symmetry code `m|x|yy`.
pub open spec fn sym_y(a: int) -> int {
    a % 4
}

/// The code with the given parts.
pub open spec fn sym_code(m: int, x: int, y: int) -> int {
    8 * m + 4 * x + y
}

/// Whether the symmetry reverses the sense of y-rotations (exactly one of mirror and x2).
pub open spec fn sym_flips(a: int) -> bool {
    sym_m(a) != sym_x(a)
}

/// Code of `a` followed by `b`: mirror and x2 parities add, and the y-rotations add, or
/// subtract when `a` reverses their sense.
pub open spec fn sym_compose(a: int, b: int) -> int {
    sym_code(
        (sym_m(a) + sym_m(b)) % 2,
        (sym_x(a) + sym_x(b)) % 2,
        if sym_flips(a) {
            (sym_y(a) - sym_y(b)) % 4
        } else {
            (sym_y(a) + sym_y(b)) % 4
        },
    )
}

/// `r` is `s` followed by `c` followed by the inverse of `s`.
pub open spec fn is_conjugate(r: Cube, c: Cube, s: Cube) -> bool {
    exists|t: Cube, inv: Cube|
        #![trigger t.is_compose_of(s, c), r.is_compose_of(t, inv)]
        inv.is_inverse_of(s) && t.is_compose_of(s, c) && r.is_compose_of(t, inv)
}

/// The edges of `r` are those of `s` followed by `c` followed by the inverse of `s`.
pub open spec fn is_edge_conjugate(r: Cube, c: Cube, s: Cube) -> bool {
    exists|t: Cube, inv: Cube|
        #![trigger edges_composed(t.eo, t.ep, s, c), edges_composed(r.eo, r.ep, t, inv)]
        inv.ep.is_inverse_of(s.ep) && (forall|j: int|
            0 <= j < 16 ==> #[trigger] bit(inv.eo.0, j) == EO::moved_bit(s.eo.0, inv.ep, j))
            && edges_composed(t.eo, t.ep, s, c) && edges_composed(r.eo, r.ep, t, inv)
}

/// The corners of `r` are those of `s` followed by `c` followed by the inverse of `s`.
pub open spec fn is_corner_conjugate(r: Cube, c: Cube, s: Cube) -> bool {
    exists|t: Cube, inv: Cube|
        #![trigger corners_composed(t.co, t.cp, s, c), corners_composed(r.co, r.cp, t, inv)]
        inv.cp.is_inverse_of(s.cp) && inv.co.0 == twist_neg(co_moved(s.co.0, inv.cp, 8))
            && corners_composed(t.co, t.cp, s, c) && corners_composed(r.co, r.cp, t, inv)
}

/// The edge part of a composition is determined by the two cubes.
pub proof fn lemma_edges_composed_unique(eo1: EO, ep1: Perm<12>, eo2: EO, ep2: Perm<12>, a: Cube, b: Cube)
    requires
        edges_composed(eo1, ep1, a, b),
        edges_composed(eo2, ep2, a, b),
    ensures
        eo1 == eo2,
        ep1 == ep2,
{
    ep1.lemma_ext(ep2);
    lemma_bit_ext(eo1.0, eo2.0);
}

/// The corner part of a composition is determined by the two cubes.
pub proof fn lemma_corners_composed_unique(co1: CO, cp1: Perm<8>, co2: CO, cp2: Perm<8>, a: Cube, b: Cube)
    requires
        corners_composed(co1, cp1, a, b),
        corners_composed(co2, cp2, a, b),
    ensures
        co1 == co2,
        cp1 == cp2,
{
    cp1.lemma_ext(cp2);
}

/// The inverse of a permutation is determined by it.
pub proof fn lemma_inverse_unique<const N: usize>(i1: Perm<N>, i2: Perm<N>, p: Perm<N>)
    requires
        N <= 16,
        p.valid(),
        i1.is_inverse_of(p),
        i2.is_inverse_of(p),
    ensures
        i1 == i2,
{
    assert forall|j: int| 0 <= j < N implies i1.dest_of(j) == i2.dest_of(j) by {
        p.lemma_has_source(j);
    }
    i1.lemma_ext(i2);
}

/// Conjugating the edges by a well-formed cube has a single outcome.
pub proof fn lemma_edge_conjugate_unique(r1: Cube, r2: Cube, c: Cube, s: Cube)
    requires
        s.wf(),
        is_edge_conjugate(r1, c, s),
        is_edge_conjugate(r2, c, s),
    ensures
        r1.eo == r2.eo,
        r1.ep == r2.ep,
{
    let (t1, i1) = choose|t: Cube, inv: Cube|
        #![trigger edges_composed(t.eo, t.ep, s, c), edges_composed(r1.eo, r1.ep, t, inv)]
        inv.ep.is_inverse_of(s.ep) && (forall|j: int|
            0 <= j < 16 ==> #[trigger] bit(inv.eo.0, j) == EO::moved_bit(s.eo.0, inv.ep, j))
            && edges_composed(t.eo, t.ep, s, c) && edges_composed(r1.eo, r1.ep, t, inv);
    let (t2, i2) = choose|t: Cube, inv: Cube|
        #![trigger edges_composed(t.eo, t.ep, s, c), edges_composed(r2.eo, r2.ep, t, inv)]
        inv.ep.is_inverse_of(s.ep) && (forall|j: int|
            0 <= j < 16 ==> #[trigger] bit(inv.eo.0, j) == EO::moved_bit(s.eo.0, inv.ep, j))
            && edges_composed(t.eo, t.ep, s, c) && edges_composed(r2.eo, r2.ep, t, inv);
    lemma_edges_composed_unique(t1.eo, t1.ep, t2.eo, t2.ep, s, c);
    lemma_inverse_unique(i1.ep, i2.ep, s.ep);
    lemma_bit_ext(i1.eo.0, i2.eo.0);
    assert(edges_composed(r2.eo, r2.ep, t1, i1));
    lemma_edges_composed_unique(r1.eo, r1.ep, r2.eo, r2.ep, t1, i1);
}

/// Conjugating the corners by a well-formed cube has a single outcome.
pub proof fn lemma_corner_conjugate_unique(r1: Cube, r2: Cube, c: Cube, s: Cube)
    requires
        s.wf(),
        is_corner_conjugate(r1, c, s),
        is_corner_conjugate(r2, c, s),
    ensures
        r1.co == r2.co,
        r1.cp == r2.cp,
{
    let (t1, i1) = choose|t: Cube, inv: Cube|
        #![trigger corners_composed(t.co, t.cp, s, c), corners_composed(r1.co, r1.cp, t, inv)]
        inv.cp.is_inverse_of(s.cp) && inv.co.0 == twist_neg(co_moved(s.co.0, inv.cp, 8))
            && corners_composed(t.co, t.cp, s, c) && corners_composed(r1.co, r1.cp, t, inv);
    let (t2, i2) = choose|t: Cube, inv: Cube|
        #![trigger corners_composed(t.co, t.cp, s, c), corners_composed(r2.co, r2.cp, t, inv)]
        inv.cp.is_inverse_of(s.cp) && inv.co.0 == twist_neg(co_moved(s.co.0, inv.cp, 8))
            && corners_composed(t.co, t.cp, s, c) && corners_composed(r2.co, r2.cp, t, inv);
    lemma_corners_composed_unique(t1.co, t1.cp, t2.co, t2.cp, s, c);
    lemma_inverse_unique(i1.cp, i2.cp, s.cp);
    assert(corners_composed(r2.co, r2.cp, t1, i1));
    lemma_corners_composed_unique(r1.co, r1.cp, r2.co, r2.cp, t1, i1);
}

/// Conjugating by a well-formed cube has a single outcome.
pub proof fn lemma_conjugate_unique(r1: Cube, r2: Cube, c: Cube, s: Cube)
    requires
        s.wf(),
        is_conjugate(r1, c, s),
        is_conjugate(r2, c, s),
    ensures
        r1 == r2,
{
    let (t1, i1) = choose|t: Cube, inv: Cube|
        #![trigger t.is_compose_of(s, c), r1.is_compose_of(t, inv)]
        inv.is_inverse_of(s) && t.is_compose_of(s, c) && r1.is_compose_of(t, inv);
    let (t2, i2) = choose|t: Cube, inv: Cube|
        #![trigger t.is_compose_of(s, c), r2.is_compose_of(t, inv)]
        inv.is_inverse_of(s) && t.is_compose_of(s, c) && r2.is_compose_of(t, inv);
    lemma_edges_composed_unique(t1.eo, t1.ep, t2.eo, t2.ep, s, c);
    lemma_corners_composed_unique(t1.co, t1.cp, t2.co, t2.cp, s, c);
    lemma_inverse_unique(i1.ep, i2.ep, s.ep);
    lemma_inverse_unique(i1.cp, i2.cp, s.cp);
    lemma_bit_ext(i1.eo.0, i2.eo.0);
    assert(t1 == t2);
    assert(i1 == i2);
    lemma_edges_composed_unique(r1.eo, r1.ep, r2.eo, r2.ep, t1, i1);
    lemma_corners_composed_unique(r1.co, r1.cp, r2.co, r2.cp, t1, i1);
}

/// Code of the inverse of `a`.
pub open spec fn sym_inverse(a: int) -> int {
    sym_code(
        sym_m(a),
        sym_x(a),
        if sym_flips(a) {
            sym_y(a)
        } else {
            (4 - sym_y(a)) % 4
        },
    )
}

// Encoding for the 16 DRUD-preserving symmetries on the cube.
// Layout: m|x|yy (4 bits)
// - y: y rotation
// - x: x2 parity
// - m: LR-mirroring parity
#[derive(Copy, Clone, Debug)]
pub struct Sym(u8);

impl Sym {
    #[allow(non_snake_case)]
    pub fn UF() -> (r: Sym)
        ensures
            r.code() == 0,
            r == Sym::from_code(0),
    {
        Sym(0)
    }

    #[allow(non_snake_case)]
    pub fn UR() -> (r: Sym)
        ensures
            r.code() == 1,
            r == Sym::from_code(1),
    {
        Sym(1)
    }

    #[allow(non_snake_case)]
    pub fn UB() -> (r: Sym)
        ensures
            r.code() == 2,
            r == Sym::from_code(2),
    {
        Sym(2)
    }

    #[allow(non_snake_case)]
    pub fn UL() -> (r: Sym)
        ensures
            r.code() == 3,
            r == Sym::from_code(3),
    {
        Sym(3)
    }

    #[allow(non_snake_case)]
    pub fn DB() -> (r: Sym)
        ensures
            r.code() == 4,
            r == Sym::from_code(4),
    {
        Sym(4)
    }

    #[allow(non_snake_case)]
    pub fn DR() -> (r: Sym)
        ensures
            r.code() == 5,
            r == Sym::from_code(5),
    {
        Sym(5)
    }

    #[allow(non_snake_case)]
    pub fn DF() -> (r: Sym)
        ensures
            r.code() == 6,
            r == Sym::from_code(6),
    {
        Sym(6)
    }

    #[allow(non_snake_case)]
    pub fn DL() -> (r: Sym)
        ensures
            r.code() == 7,
            r == Sym::from_code(7),
    {
        Sym(7)
    }

    #[allow(non_snake_case)]
    pub fn UF2() -> (r: Sym)
        ensures
            r.code() == 8,
            r == Sym::from_code(8),
    {
        Sym(8)
    }

    #[allow(non_snake_case)]
    pub fn UR2() -> (r: Sym)
        ensures
            r.code() == 9,
            r == Sym::from_code(9),
    {
        Sym(9)
    }

    #[allow(non_snake_case)]
    pub fn UB2() -> (r: Sym)
        ensures
            r.code() == 10,
            r == Sym::from_code(10),
    {
        Sym(10)
    }

    #[allow(non_snake_case)]
    pub fn UL2() -> (r: Sym)
        ensures
            r.code() == 11,
            r == Sym::from_code(11),
    {
        Sym(11)
    }

    #[allow(non_snake_case)]
    pub fn DB2() -> (r: Sym)
        ensures
            r.code() == 12,
            r == Sym::from_code(12),
    {
        Sym(12)
    }

    #[allow(non_snake_case)]
    pub fn DR2() -> (r: Sym)
        ensures
            r.code() == 13,
            r == Sym::from_code(13),
    {
        Sym(13)
    }

    #[allow(non_snake_case)]
    pub fn DF2() -> (r: Sym)
        ensures
            r.code() == 14,
            r == Sym::from_code(14),
    {
        Sym(14)
    }

    #[allow(non_snake_case)]
    pub fn DL2() -> (r: Sym)
        ensures
            r.code() == 15,
            r == Sym::from_code(15),
    {
        Sym(15)
    }

    /// The symmetry with the given code.
    pub closed spec fn from_code(c: int) -> Sym {
        Sym(c as u8)
    }

    /// A symmetry is the one with its code.
    pub proof fn lemma_from_code(s: Sym)
        ensures
            Sym::from_code(s.code()) == s,
    {
    }

    /// The symmetry with a code below 16 has that code.
    pub proof fn lemma_code_of(c: int)
        requires
            0 <= c < 16,
        ensures
            Sym::from_code(c).code() == c,
            Sym::from_code(c).valid(),
    {
    }

    /// The code `m|x|yy` of the symmetry.
    pub closed spec fn code(self) -> int {
        self.0 as int
    }

    /// One of the sixteen symmetries.
    pub open spec fn valid(self) -> bool {
        0 <= self.code() < 16
    }

    /// Where each edge slot is sent by the symmetry's conjugating cube.
    pub open spec fn edge_dests(self) -> Seq<int> {
        if self.code() == 0 {
            seq![0, 1, 2, 3, 4, 5, 6, 7, 8, 9, 10, 11]
        } else if self.code() == 1 {
            seq![1, 2, 3, 0, 5, 6, 7, 4, 9, 10, 11, 8]
        } else if self.code() == 2 {
            seq![2, 3, 0, 1, 6, 7, 4, 5, 10, 11, 8, 9]
        } else if self.code() == 3 {
            seq![3, 0, 1, 2, 7, 4, 5, 6, 11, 8, 9, 10]
        } else if self.code() == 4 {
            seq![6, 5, 4, 7, 2, 1, 0, 3, 11, 10, 9, 8]
        } else if self.code() == 5 {
            seq![5, 4, 7, 6, 1, 0, 3, 2, 10, 9, 8, 11]
        } else if self.code() == 6 {
            seq![4, 7, 6, 5, 0, 3, 2, 1, 9, 8, 11, 10]
        } else if self.code() == 7 {
            seq![7, 6, 5, 4, 3, 2, 1, 0, 8, 11, 10, 9]
        } else if self.code() == 8 {
            seq![0, 3, 2, 1, 4, 7, 6, 5, 9, 8, 11, 10]
        } else if self.code() == 9 {
            seq![3, 2, 1, 0, 7, 6, 5, 4, 8, 11, 10, 9]
        } else if self.code() == 10 {
            seq![2, 1, 0, 3, 6, 5, 4, 7, 11, 10, 9, 8]
        } else if self.code() == 11 {
            seq![1, 0, 3, 2, 5, 4, 7, 6, 10, 9, 8, 11]
        } else if self.code() == 12 {
            seq![6, 7, 4, 5, 2, 3, 0, 1, 10, 11, 8, 9]
        } else if self.code() == 13 {
            seq![7, 4, 5, 6, 3, 0, 1, 2, 11, 8, 9, 10]
        } else if self.code() == 14 {
            seq![4, 5, 6, 7, 0, 1, 2, 3, 8, 9, 10, 11]
        } else {
            seq![5, 6, 7, 4, 1, 2, 3, 0, 9, 10, 11, 8]
        }
    }

    /// Where each corner slot is sent by the symmetry's conjugating cube.
    pub open spec fn corner_dests(self) -> Seq<int> {
        if self.code() == 0 {
            seq![0, 1, 2, 3, 4, 5, 6, 7]
        } else if self.code() == 1 {
            seq![1, 2, 3, 0, 5, 6, 7, 4]
        } else if self.code() == 2 {
            seq![2, 3, 0, 1, 6, 7, 4, 5]
        } else if self.code() == 3 {
            seq![3, 0, 1, 2, 7, 4, 5, 6]
        } else if self.code() == 4 {
            seq![7, 6, 5, 4, 3, 2, 1, 0]
        } else if self.code() == 5 {
            seq![6, 5, 4, 7, 2, 1, 0, 3]
        } else if self.code() == 6 {
            seq![5, 4, 7, 6, 1, 0, 3, 2]
        } else if self.code() == 7 {
            seq![4, 7, 6, 5, 0, 3, 2, 1]
        } else if self.code() == 8 {
            seq![1, 0, 3, 2, 5, 4, 7, 6]
        } else if self.code() == 9 {
            seq![0, 3, 2, 1, 4, 7, 6, 5]
        } else if self.code() == 10 {
            seq![3, 2, 1, 0, 7, 6, 5, 4]
        } else if self.code() == 11 {
            seq![2, 1, 0, 3, 6, 5, 4, 7]
        } else if self.code() == 12 {
            seq![6, 7, 4, 5, 2, 3, 0, 1]
        } else if self.code() == 13 {
            seq![7, 4, 5, 6, 3, 0, 1, 2]
        } else if self.code() == 14 {
            seq![4, 5, 6, 7, 0, 1, 2, 3]
        } else {
            seq![5, 6, 7, 4, 1, 2, 3, 0]
        }
    }

    /// `c` is the cube by which the symmetry conjugates: no flips or twists, and the
    /// symmetry's slot permutations.
    pub open spec fn is_conjugator(self, c: Cube) -> bool {
        &&& c.wf()
        &&& c.eo.0 == 0
        &&& c.co.0 == 0
        &&& c.ep@ == self.edge_dests()
        &&& c.cp@ == self.corner_dests()
    }

    /// The cube by which the symmetry conjugates.
    pub open spec fn spec_conjugator(self) -> Cube {
        choose|c: Cube| self.is_conjugator(c)
    }

    pub proof fn lemma_conjugator_unique(self, c1: Cube, c2: Cube)
        requires
            self.is_conjugator(c1),
            self.is_conjugator(c2),
        ensures
            c1 == c2,
    {
        assert forall|i: int| 0 <= i < 12 implies c1.ep.dest_of(i) == c2.ep.dest_of(i) by {
            assert(c1.ep@[i] == c2.ep@[i]);
        }
        c1.ep.lemma_ext(c2.ep);
        assert forall|i: int| 0 <= i < 8 implies c1.cp.dest_of(i) == c2.cp.dest_of(i) by {
            assert(c1.cp@[i] == c2.cp@[i]);
        }
        c1.cp.lemma_ext(c2.cp);
    }

    /// Every symmetry keeps the four E-slice edges among themselves.
    pub proof fn lemma_edge_dests_keep_eslice(self)
        requires
            self.valid(),
        ensures
            forall|i: int| 0 <= i < 12 ==> (#[trigger] self.edge_dests()[i] >= 8 <==> i >= 8),
    {
    }

    /// Facts about the conjugating cube and the inverse of its edges that conjugation uses.
    proof fn lemma_conjugator_parts(self, s: Cube, s1: Cube)
        requires
            self.valid(),
            self.is_conjugator(s),
            s1.ep.is_inverse_of(s.ep),
            s1.ep.valid(),
            forall|j: int| 0 <= j < 16 ==> #[trigger] bit(s1.eo.0, j) == EO::moved_bit(s.eo.0, s1.ep, j),
        ensures
            s1.eo.valid(),
            keeps_eslice(s.ep),
            keeps_eslice(s1.ep),
    {
        assert forall|j: int| 12 <= j < 16 implies !#[trigger] bit(s1.eo.0, j) by {
            lemma_moved_bit_valid(s.eo.0, s1.ep, 0, j);
        }
        self.lemma_edge_dests_keep_eslice();
        assert forall|i: int| 0 <= i < 12 implies (#[trigger] s.ep.dest_of(i) >= 8 <==> i >= 8) by {
            assert(s.ep.dest_of(i) == s.ep@[i]);
        }
        lemma_keeps_eslice_inverse(s1.ep, s.ep);
    }

    /// The symmetry with code 0 conjugates by the solved cube.
    pub proof fn lemma_conjugator_identity(self)
        requires
            self.code() == 0,
            self.is_conjugator(self.spec_conjugator()),
        ensures
            self.spec_conjugator().spec_is_solved(),
    {
        let s = self.spec_conjugator();
        assert forall|i: int| 0 <= i < 12 implies #[trigger] s.ep.dest_of(i) == i by {
            assert(s.ep.dest_of(i) == s.ep@[i]);
        }
        assert forall|i: int| 0 <= i < 8 implies #[trigger] s.cp.dest_of(i) == i by {
            assert(s.cp.dest_of(i) == s.cp@[i]);
        }
        s.ep.lemma_is_identity_eq();
        s.cp.lemma_is_identity_eq();
    }

    /// The symmetry with code 0 has a conjugating cube: the solved cube.
    pub proof fn lemma_identity_has_conjugator(self)
        requires
            self.code() == 0,
        ensures
            self.is_conjugator(self.spec_conjugator()),
    {
        let e = Cube {
            eo: EO(0),
            co: CO(0),
            ep: Perm::<12>::identity_perm(),
            cp: Perm::<8>::identity_perm(),
        };
        Cube::lemma_solved_wf(e);
        Perm::<12>::lemma_identity_perm();
        Perm::<8>::lemma_identity_perm();
        assert(e.ep@ =~= self.edge_dests());
        assert(e.cp@ =~= self.corner_dests());
        assert(self.is_conjugator(e));
    }

    /// Conjugating a well-formed cube by the symmetry with code 0 changes nothing.
    pub proof fn lemma_conj_identity(self, c: Cube)
        requires
            self.code() == 0,
            c.wf(),
        ensures
            self.spec_conj(c) == c,
            self.spec_conj_edges(c) == c,
            self.spec_conj_corners(c) == c,
            self.is_conjugator(self.spec_conjugator()),
            is_conjugate(c, c, self.spec_conjugator()),
            is_edge_conjugate(c, c, self.spec_conjugator()),
            is_corner_conjugate(c, c, self.spec_conjugator()),
    {
        self.lemma_identity_has_conjugator();
        let s = self.spec_conjugator();
        self.lemma_conjugator_identity();
        Cube::lemma_solved_wf(s);
        Cube::lemma_identity_composes(c, s);
        Cube::lemma_solved_self_inverse(s);
        assert(is_conjugate(c, c, s));
        lemma_conjugate_unique(self.spec_conj(c), c, c, s);
        assert(is_edge_conjugate(c, c, s));
        let re = self.spec_conj_edges(c);
        lemma_edge_conjugate_unique(re, c, c, s);
        assert(is_corner_conjugate(c, c, s));
        let rc = self.spec_conj_corners(c);
        lemma_corner_conjugate_unique(rc, c, c, s);
    }

    /// The cube by which the symmetry conjugates.
    pub fn conjugator(self) -> (r: Cube)
        requires
            self.valid(),
        ensures
            self.is_conjugator(r),
            r == self.spec_conjugator(),
    {
        let r = self.build_conjugator();
        proof {
            self.lemma_conjugator_unique(r, self.spec_conjugator());
        }
        r
    }

    fn build_conjugator(self) -> (r: Cube)
        requires
            self.valid(),
        ensures
            r.wf(),
            r.eo.0 == 0,
            r.co.0 == 0,
            r.ep@ == self.edge_dests(),
            r.cp@ == self.corner_dests(),
    {
        let eo = crate::cube::EO::new();
        let co = crate::cube::CO::new();
        proof {
            assert forall|j: int| 12 <= j < 16 implies !#[trigger] crate::bitset::bit(eo.0, j) by {
                crate::bitset::lemma_bit_zero(j);
            }
            assert forall|k: int| 0 <= k < 8 implies #[trigger] crate::cube::lane(co.0, k) < 3 by {
                crate::cube::lemma_lane_zero(k);
            }
        }
        match self.0 {
            0 => Cube {
                eo,
                co,
                ep: Perm::<12>::from_dests(&[0, 1, 2, 3, 4, 5, 6, 7, 8, 9, 10, 11]),
                cp: Perm::<8>::from_dests(&[0, 1, 2, 3, 4, 5, 6, 7]),
            },
            1 => Cube {
                eo,
                co,
                ep: Perm::<12>::from_dests(&[1, 2, 3, 0, 5, 6, 7, 4, 9, 10, 11, 8]),
                cp: Perm::<8>::from_dests(&[1, 2, 3, 0, 5, 6, 7, 4]),
            },
            2 => Cube {
                eo,
                co,
                ep: Perm::<12>::from_dests(&[2, 3, 0, 1, 6, 7, 4, 5, 10, 11, 8, 9]),
                cp: Perm::<8>::from_dests(&[2, 3, 0, 1, 6, 7, 4, 5]),
            },
            3 => Cube {
                eo,
                co,
                ep: Perm::<12>::from_dests(&[3, 0, 1, 2, 7, 4, 5, 6, 11, 8, 9, 10]),
                cp: Perm::<8>::from_dests(&[3, 0, 1, 2, 7, 4, 5, 6]),
            },
            4 => Cube {
                eo,
                co,
                ep: Perm::<12>::from_dests(&[6, 5, 4, 7, 2, 1, 0, 3, 11, 10, 9, 8]),
                cp: Perm::<8>::from_dests(&[7, 6, 5, 4, 3, 2, 1, 0]),
            },
            5 => Cube {
                eo,
                co,
                ep: Perm::<12>::from_dests(&[5, 4, 7, 6, 1, 0, 3, 2, 10, 9, 8, 11]),
                cp: Perm::<8>::from_dests(&[6, 5, 4, 7, 2, 1, 0, 3]),
            },
            6 => Cube {
                eo,
                co,
                ep: Perm::<12>::from_dests(&[4, 7, 6, 5, 0, 3, 2, 1, 9, 8, 11, 10]),
                cp: Perm::<8>::from_dests(&[5, 4, 7, 6, 1, 0, 3, 2]),
            },
            7 => Cube {
                eo,
                co,
                ep: Perm::<12>::from_dests(&[7, 6, 5, 4, 3, 2, 1, 0, 8, 11, 10, 9]),
                cp: Perm::<8>::from_dests(&[4, 7, 6, 5, 0, 3, 2, 1]),
            },
            8 => Cube {
                eo,
                co,
                ep: Perm::<12>::from_dests(&[0, 3, 2, 1, 4, 7, 6, 5, 9, 8, 11, 10]),
                cp: Perm::<8>::from_dests(&[1, 0, 3, 2, 5, 4, 7, 6]),
            },
            9 => Cube {
                eo,
                co,
                ep: Perm::<12>::from_dests(&[3, 2, 1, 0, 7, 6, 5, 4, 8, 11, 10, 9]),
                cp: Perm::<8>::from_dests(&[0, 3, 2, 1, 4, 7, 6, 5]),
            },
            10 => Cube {
                eo,
                co,
                ep: Perm::<12>::from_dests(&[2, 1, 0, 3, 6, 5, 4, 7, 11, 10, 9, 8]),
                cp: Perm::<8>::from_dests(&[3, 2, 1, 0, 7, 6, 5, 4]),
            },
            11 => Cube {
                eo,
                co,
                ep: Perm::<12>::from_dests(&[1, 0, 3, 2, 5, 4, 7, 6, 10, 9, 8, 11]),
                cp: Perm::<8>::from_dests(&[2, 1, 0, 3, 6, 5, 4, 7]),
            },
            12 => Cube {
                eo,
                co,
                ep: Perm::<12>::from_dests(&[6, 7, 4, 5, 2, 3, 0, 1, 10, 11, 8, 9]),
                cp: Perm::<8>::from_dests(&[6, 7, 4, 5, 2, 3, 0, 1]),
            },
            13 => Cube {
                eo,
                co,
                ep: Perm::<12>::from_dests(&[7, 4, 5, 6, 3, 0, 1, 2, 11, 8, 9, 10]),
                cp: Perm::<8>::from_dests(&[7, 4, 5, 6, 3, 0, 1, 2]),
            },
            14 => Cube {
                eo,
                co,
                ep: Perm::<12>::from_dests(&[4, 5, 6, 7, 0, 1, 2, 3, 8, 9, 10, 11]),
                cp: Perm::<8>::from_dests(&[4, 5, 6, 7, 0, 1, 2, 3]),
            },
            _ => Cube {
                eo,
                co,
                ep: Perm::<12>::from_dests(&[5, 6, 7, 4, 1, 2, 3, 0, 9, 10, 11, 8]),
                cp: Perm::<8>::from_dests(&[5, 6, 7, 4, 1, 2, 3, 0]),
            },
        }
    }

    /// `c` with its edges conjugated by the symmetry.
    pub open spec fn spec_conj_edges(self, c: Cube) -> Cube {
        choose|r: Cube|
            is_edge_conjugate(r, c, self.spec_conjugator()) && r.co == c.co && r.cp == c.cp
    }

    /// `c` with its corners conjugated by the symmetry.
    pub open spec fn spec_conj_corners(self, c: Cube) -> Cube {
        choose|r: Cube|
            is_corner_conjugate(r, c, self.spec_conjugator()) && r.eo == c.eo && r.ep == c.ep
    }

    /// `c` conjugated by the symmetry.
    pub open spec fn spec_conj(self, c: Cube) -> Cube {
        choose|r: Cube| is_conjugate(r, c, self.spec_conjugator())
    }

    pub fn coord(self) -> (r: usize)
        ensures
            r == self.code(),
    {
        self.0 as usize
    }

    pub fn from_coord(coord: usize) -> (r: Self)
        ensures
            r.code() == coord as u8,
    {
        Self(coord as u8)
    }

    /// `self` followed by `rhs`.
    pub fn compose(self, rhs: Sym) -> (r: Self)
        requires
            sym_flips(self.code()) || self.code() + rhs.code() <= 255,
        ensures
            r.code() == sym_compose(self.code(), rhs.code()),
    {
        let a = self.0;
        let b = rhs.0;
        proof {
            lemma_sym_bits(a, b);
        }
        let y = if (a & 4) != (a & 8) >> 1 {
            a.wrapping_sub(b) & 3
        } else {
            (a + b) & 3
        };
        Self(((a ^ b) & 0xc) + y)
    }

    pub fn inverse(self) -> (r: Self)
        ensures
            r.code() == sym_inverse(self.code()),
    {
        let a = self.0;
        proof {
            lemma_sym_bits(a, a);
        }
        let y = if (a & 4) != (a & 8) >> 1 {
            a & 3
        } else {
            4u8.wrapping_sub(a) & 3
        };
        Self((a & 0xc) + y)
    }

    /// Conjugate the edges of `c` by the symmetry; the corners are kept.
    pub fn conj_edges(self, c: &Cube) -> (r: Cube)
        requires
            self.valid(),
            c.ep.in_range(),
        ensures
            is_edge_conjugate(r, *c, self.spec_conjugator()),
            self.is_conjugator(self.spec_conjugator()),
            r.co == c.co,
            r.cp == c.cp,
            r == self.spec_conj_edges(*c),
            c.wf() ==> r.wf(),
            keeps_eslice(c.ep) ==> keeps_eslice(r.ep),
    {
        let s = self.conjugator();
        let s1 = s.inverse_edges();
        proof {
            assert forall|i: int| 0 <= i < 12 implies #[trigger] c.ep.dest_of(s.ep.dest_of(i)) < 12 by {
                assert(s.ep.dest_of(i) < 12);
            }
        }
        let (eo1, ep1) = s.compose_edges(c);
        let t = Cube { eo: eo1, co: c.co, ep: ep1, cp: c.cp };
        proof {
            assert forall|i: int| 0 <= i < 12 implies #[trigger] s1.ep.dest_of(t.ep.dest_of(i)) < 12 by {
                assert(s.ep.dest_of(i) < 12);
                assert(c.ep.dest_of(s.ep.dest_of(i)) < 12);
            }
        }
        let (eo2, ep2) = t.compose_edges(&s1);
        let r = Cube { eo: eo2, co: c.co, ep: ep2, cp: c.cp };
        proof {
            assert(edges_composed(t.eo, t.ep, s, *c));
            assert(edges_composed(r.eo, r.ep, t, s1));
            self.lemma_conjugator_parts(s, s1);
            if c.wf() {
                lemma_edges_composed_wf(t.eo, t.ep, s, *c);
                lemma_edges_composed_wf(r.eo, r.ep, t, s1);
            }
            if keeps_eslice(c.ep) {
                lemma_keeps_eslice_compose(t.ep, s.ep, c.ep);
                assert(t.ep.in_range()) by {
                    assert forall|i: int| 0 <= i < 12 implies #[trigger] t.ep.dest_of(i) < 12 by {
                        assert(s.ep.dest_of(i) < 12);
                    }
                }
                lemma_keeps_eslice_compose(r.ep, t.ep, s1.ep);
            }
            assert(is_edge_conjugate(r, *c, s));
            let q = self.spec_conj_edges(*c);
            lemma_edge_conjugate_unique(r, q, *c, s);
        }
        r
    }

    /// Conjugate the corners of `c` by the symmetry; the edges are kept.
    pub fn conj_corners(self, c: &Cube) -> (r: Cube)
        requires
            self.valid(),
            c.cp.in_range(),
        ensures
            is_corner_conjugate(r, *c, self.spec_conjugator()),
            self.is_conjugator(self.spec_conjugator()),
            r.eo == c.eo,
            r.ep == c.ep,
            r == self.spec_conj_corners(*c),
            c.wf() ==> r.wf(),
    {
        let s = self.conjugator();
        let s1 = s.inverse_corners();
        proof {
            assert forall|i: int| 0 <= i < 8 implies #[trigger] c.cp.dest_of(s.cp.dest_of(i)) < 8 by {
                assert(s.cp.dest_of(i) < 8);
            }
        }
        let (co1, cp1) = s.compose_corners(c);
        let t = Cube { eo: c.eo, co: co1, ep: c.ep, cp: cp1 };
        proof {
            assert forall|i: int| 0 <= i < 8 implies #[trigger] s1.cp.dest_of(t.cp.dest_of(i)) < 8 by {
                assert(s.cp.dest_of(i) < 8);
                assert(c.cp.dest_of(s.cp.dest_of(i)) < 8);
            }
        }
        let (co2, cp2) = t.compose_corners(&s1);
        let r = Cube { eo: c.eo, co: co2, ep: c.ep, cp: cp2 };
        proof {
            assert(corners_composed(t.co, t.cp, s, *c));
            assert(corners_composed(r.co, r.cp, t, s1));
            if c.wf() {
                crate::cube::lemma_inverse_corners_valid(s, s1);
                lemma_corners_composed_wf(t.co, t.cp, s, *c);
                lemma_corners_composed_wf(r.co, r.cp, t, s1);
            }
            assert(is_corner_conjugate(r, *c, s));
            let q = self.spec_conj_corners(*c);
            lemma_corner_conjugate_unique(r, q, *c, s);
        }
        r
    }

    /// Conjugate `c` by the symmetry: the symmetry, then `c`, then the inverse symmetry.
    pub fn conj(self, c: &Cube) -> (r: Cube)
        requires
            self.valid(),
            c.ep.in_range(),
            c.cp.in_range(),
        ensures
            is_conjugate(r, *c, self.spec_conjugator()),
            self.is_conjugator(self.spec_conjugator()),
            c.wf() ==> r.wf(),
            keeps_eslice(c.ep) ==> keeps_eslice(r.ep),
            r == self.spec_conj(*c),
    {
        let s = self.conjugator();
        let s1 = s.inverse();
        proof {
            assert forall|i: int| 0 <= i < 12 implies #[trigger] c.ep.dest_of(s.ep.dest_of(i)) < 12 by {
                assert(s.ep.dest_of(i) < 12);
            }
            assert forall|i: int| 0 <= i < 8 implies #[trigger] c.cp.dest_of(s.cp.dest_of(i)) < 8 by {
                assert(s.cp.dest_of(i) < 8);
            }
        }
        let t = s.compose(c);
        proof {
            Perm::<12>::lemma_inverse_valid(s1.ep, s.ep);
            Perm::<8>::lemma_inverse_valid(s1.cp, s.cp);
            assert forall|i: int| 0 <= i < 12 implies #[trigger] s1.ep.dest_of(t.ep.dest_of(i)) < 12 by {
                assert(s.ep.dest_of(i) < 12);
                assert(c.ep.dest_of(s.ep.dest_of(i)) < 12);
            }
            assert forall|i: int| 0 <= i < 8 implies #[trigger] s1.cp.dest_of(t.cp.dest_of(i)) < 8 by {
                assert(s.cp.dest_of(i) < 8);
                assert(c.cp.dest_of(s.cp.dest_of(i)) < 8);
            }
        }
        let r = t.compose(&s1);
        proof {
            if c.wf() {
                Cube::law_compose_wf(s, *c, t);
                assert(s1.wf()) by {
                    crate::cube::lemma_inverse_wf(s, s1);
                }
                Cube::law_compose_wf(t, s1, r);
            }
            assert(is_conjugate(r, *c, s));
            lemma_conjugate_unique(r, self.spec_conj(*c), *c, s);
            if keeps_eslice(c.ep) {
                self.lemma_edge_dests_keep_eslice();
                lemma_keeps_eslice_compose(t.ep, s.ep, c.ep);
                assert(t.ep.in_range()) by {
                    assert forall|i: int| 0 <= i < 12 implies #[trigger] t.ep.dest_of(i) < 12 by {
                        assert(s.ep.dest_of(i) < 12);
                    }
                }
                lemma_keeps_eslice_inverse(s1.ep, s.ep);
                lemma_keeps_eslice_compose(r.ep, t.ep, s1.ep);
            }
        }
        r
    }
}

/// Relates the bit operations on symmetry codes to their parts.
proof fn lemma_sym_bits(a: u8, b: u8)
    ensures
        ((a & 4) != (a & 8) >> 1) == ((a / 8) % 2 != (a / 4) % 2),
        (a.wrapping_sub(b) & 3) as int == ((a % 4) + 4 - (b % 4)) % 4,
        (4u8.wrapping_sub(a) & 3) as int == (4 - (a % 4)) % 4,
        (a & 3) as int == a % 4,
        a + b <= 255 ==> ((a + b) as u8 & 3) as int == ((a % 4) + (b % 4)) % 4,
        ((a ^ b) & 0xc) as int == 8 * (((a / 8) % 2 + (b / 8) % 2) % 2) + 4 * (((a / 4) % 2 + (b
            / 4) % 2) % 2),
        (a & 0xc) as int == 8 * ((a / 8) % 2) + 4 * ((a / 4) % 2),
{
    assert(((a & 4) != (a & 8) >> 1) == ((a / 8) % 2 != (a / 4) % 2) && (a.wrapping_sub(b) & 3)
        == ((a % 4) + 4 - (b % 4)) % 4 && (4u8.wrapping_sub(a) & 3) == (4 - (a % 4)) % 4 && (a & 3)
        == a % 4 && (a + b <= 255 ==> ((a + b) as u8 & 3) == ((a % 4) + (b % 4)) % 4) && ((a ^ b)
        & 0xc) == 8 * (((a / 8) % 2 + (b / 8) % 2) % 2) + 4 * (((a / 4) % 2 + (b / 4) % 2) % 2) && (a
        & 0xc) == 8 * ((a / 8) % 2) + 4 * ((a / 4) % 2)) by (bit_vector);
}

/// The bit-level formula used by `Sym::compose`.
pub open spec fn sym_compose_bits(a: u8, b: u8) -> u8 {
    (((a ^ b) & 0xcu8) + (if (a & 4u8) != (a & 8u8) >> 1u8 {
        ((a - b) as u8) & 3u8
    } else {
        ((a + b) as u8) & 3u8
    })) as u8
}

proof fn lemma_sym_compose_bits(a: u8, b: u8)
    requires
        a < 16,
        b < 16,
    ensures
        sym_compose(a as int, b as int) == sym_compose_bits(a, b) as int,
        sym_compose_bits(a, b) < 16,
{
    lemma_sym_bits(a, b);
    assert(a.wrapping_sub(b) == (a - b) as u8) by (bit_vector);
    assert(sym_compose_bits(a, b) < 16) by (bit_vector)
        requires
            a < 16,
            b < 16,
    ;
}

/// Composition of symmetries is associative.
pub proof fn law_sym_compose_assoc(a: int, b: int, c: int)
    requires
        0 <= a < 16,
        0 <= b < 16,
        0 <= c < 16,
    ensures
        sym_compose(sym_compose(a, b), c) == sym_compose(a, sym_compose(b, c)),
{
    let (x, y, z) = (a as u8, b as u8, c as u8);
    lemma_sym_compose_bits(x, y);
    lemma_sym_compose_bits(y, z);
    let xy = sym_compose_bits(x, y);
    let yz = sym_compose_bits(y, z);
    lemma_sym_compose_bits(xy, z);
    lemma_sym_compose_bits(x, yz);
    assert(sym_compose_bits(sym_compose_bits(x, y), z) == sym_compose_bits(x, sym_compose_bits(y, z)))
        by (bit_vector)
        requires
            x < 16,
            y < 16,
            z < 16,
    ;
}

/// The symmetry `UF` (code 0) is neutral.
pub proof fn law_sym_identity(a: int)
    requires
        0 <= a < 16,
    ensures
        sym_compose(0, a) == a,
        sym_compose(a, 0) == a,
{
}

/// A symmetry composed with its inverse, in either order, is `UF` (code 0).
pub proof fn law_sym_inverse(a: int)
    requires
        0 <= a < 16,
    ensures
        0 <= sym_inverse(a) < 16,
        sym_compose(a, sym_inverse(a)) == 0,
        sym_compose(sym_inverse(a), a) == 0,
{
}

/// Composing two symmetries gives a symmetry.
pub proof fn lemma_sym_compose_range(a: int, b: int)
    requires
        0 <= a < 16,
        0 <= b < 16,
    ensures
        0 <= sym_compose(a, b) < 16,
{
}

/// The inverse of the inverse of a symmetry is the symmetry itself.
pub proof fn law_sym_inverse_involution(a: int)
    requires
        0 <= a < 16,
    ensures
        sym_inverse(sym_inverse(a)) == a,
{
}

/// Conjugating the solved cube by any symmetry gives the solved cube.
pub proof fn law_conj_solved(s: Sym, sc: Cube, c: Cube, r: Cube)
    requires
        s.is_conjugator(sc),
        c.spec_is_solved(),
        is_conjugate(r, c, sc),
    ensures
        r.spec_is_solved(),
{
    let (t, inv) = choose|t: Cube, inv: Cube|
        #![trigger t.is_compose_of(sc, c), r.is_compose_of(t, inv)]
        inv.is_inverse_of(sc) && t.is_compose_of(sc, c) && r.is_compose_of(t, inv);
    Cube::lemma_solved_wf(c);
    Cube::lemma_compose_right_identity(sc, c, t);
    assert(r.is_compose_of(sc, inv));
    Cube::lemma_compose_inverse_right(sc, inv, r);
}

/// A conjugate of `c` is a conjugate of its corners and of its edges.
pub proof fn lemma_conjugate_parts(r: Cube, c: Cube, sc: Cube)
    requires
        is_conjugate(r, c, sc),
    ensures
        is_corner_conjugate(r, c, sc),
        is_edge_conjugate(r, c, sc),
{
    let (t, inv) = choose|t: Cube, inv: Cube|
        #![trigger t.is_compose_of(sc, c), r.is_compose_of(t, inv)]
        inv.is_inverse_of(sc) && t.is_compose_of(sc, c) && r.is_compose_of(t, inv);
    assert(corners_composed(t.co, t.cp, sc, c) && corners_composed(r.co, r.cp, t, inv));
    assert(edges_composed(t.eo, t.ep, sc, c) && edges_composed(r.eo, r.ep, t, inv));
}

/// The conjugating cube of a corner conjugate has a corner permutation with an inverse.
pub proof fn lemma_corner_conjugate_inverse(r: Cube, c: Cube, sc: Cube)
    requires
        is_corner_conjugate(r, c, sc),
    ensures
        exists|p: Perm<8>| p.is_inverse_of(sc.cp),
{
    let (t, inv) = choose|t: Cube, inv: Cube|
        #![trigger corners_composed(t.co, t.cp, sc, c), corners_composed(r.co, r.cp, t, inv)]
        inv.cp.is_inverse_of(sc.cp) && inv.co.0 == twist_neg(co_moved(sc.co.0, inv.cp, 8))
            && corners_composed(t.co, t.cp, sc, c) && corners_composed(r.co, r.cp, t, inv);
    assert(inv.cp.is_inverse_of(sc.cp));
}

/// The conjugating cube of an edge conjugate has an edge permutation with an inverse.
pub proof fn lemma_edge_conjugate_inverse(r: Cube, c: Cube, sc: Cube)
    requires
        is_edge_conjugate(r, c, sc),
    ensures
        exists|p: Perm<12>| p.is_inverse_of(sc.ep),
{
    let (t, inv) = choose|t: Cube, inv: Cube|
        #![trigger edges_composed(t.eo, t.ep, sc, c), edges_composed(r.eo, r.ep, t, inv)]
        inv.ep.is_inverse_of(sc.ep) && (forall|j: int|
            0 <= j < 16 ==> #[trigger] bit(inv.eo.0, j) == EO::moved_bit(sc.eo.0, inv.ep, j))
            && edges_composed(t.eo, t.ep, sc, c) && edges_composed(r.eo, r.ep, t, inv);
    assert(inv.ep.is_inverse_of(sc.ep));
}

/// The corners of a corner conjugate of `c` by a twist-free cube `sc`, where `tp` undoes
/// the corner permutation of `sc`: the permutation is that of `sc`, then that of `c`, then
/// `tp`, and the twist of corner `k` of `c` lands on `tp(k)`.
pub proof fn lemma_corner_conjugate_formula(r: Cube, c: Cube, sc: Cube, tp: Perm<8>)
    requires
        c.wf(),
        sc.wf(),
        sc.co.0 == 0,
        tp.is_inverse_of(sc.cp),
        is_corner_conjugate(r, c, sc),
    ensures
        forall|i: int| 0 <= i < 8 ==> #[trigger] r.cp.dest_of(i) == tp.dest_of(c.cp.dest_of(sc.cp.dest_of(i))),
        r.cp.upper_clear(),
        forall|k: int| 0 <= k < 8 ==> #[trigger] crate::cube::lane(r.co.0, tp.dest_of(k)) == crate::cube::lane(c.co.0, k),
        crate::cube::twists_valid(r.co.0),
{
    let (t, inv) = choose|t: Cube, inv: Cube|
        #![trigger corners_composed(t.co, t.cp, sc, c), corners_composed(r.co, r.cp, t, inv)]
        inv.cp.is_inverse_of(sc.cp) && inv.co.0 == twist_neg(co_moved(sc.co.0, inv.cp, 8))
            && corners_composed(t.co, t.cp, sc, c) && corners_composed(r.co, r.cp, t, inv);
    lemma_inverse_unique(inv.cp, tp, sc.cp);
    Perm::<8>::lemma_inverse_valid(tp, sc.cp);
    assert(crate::cube::twists_valid(0u16)) by {
        assert forall|k: int| 0 <= k < 8 implies #[trigger] crate::cube::lane(0u16, k) < 3 by {
            crate::cube::lemma_lane_zero(k);
        }
    }
    crate::cube::lemma_co_moved_lanes(0u16, c.cp);
    crate::cube::lemma_twist_sum_lanes(co_moved(0u16, c.cp, 8), c.co.0);
    assert forall|k: int| 0 <= k < 8 implies #[trigger] crate::cube::lane(t.co.0, k) == crate::cube::lane(c.co.0, k) by {
        c.cp.lemma_has_source(k);
        let i = choose|i: int| 0 <= i < 8 && c.cp.dest_of(i) == k;
        crate::cube::lemma_lane_zero(i);
    }
    crate::cube::lemma_co_moved_lanes(0u16, tp);
    let m = co_moved(0u16, tp, 8);
    assert forall|j: int| 0 <= j < 8 implies #[trigger] crate::cube::lane(inv.co.0, j) == 0 by {
        tp.lemma_has_source(j);
        let i = choose|i: int| 0 <= i < 8 && tp.dest_of(i) == j;
        crate::cube::lemma_lane_zero(i);
        crate::cube::lemma_twist_neg(m, j);
    }
    assert(crate::cube::twists_valid(inv.co.0));
    assert(crate::cube::twists_valid(t.co.0)) by {
        assert forall|k: int| 0 <= k < 8 implies #[trigger] crate::cube::lane(t.co.0, k) < 3 by {
            assert(crate::cube::lane(c.co.0, k) < 3);
        }
    }
    crate::cube::lemma_co_moved_lanes(t.co.0, tp);
    crate::cube::lemma_twist_sum_lanes(co_moved(t.co.0, tp, 8), inv.co.0);
    assert forall|k: int| 0 <= k < 8 implies #[trigger] crate::cube::lane(r.co.0, tp.dest_of(k)) == crate::cube::lane(c.co.0, k) by {
        assert(tp.dest_of(k) < 8);
        assert(crate::cube::lane(inv.co.0, tp.dest_of(k)) == 0);
        assert(crate::cube::lane(t.co.0, k) < 3);
    }
}

/// The edges of an edge conjugate of `c` by a flip-free cube `sc`, where `tp` undoes the
/// edge permutation of `sc`: the permutation is that of `sc`, then that of `c`, then
/// `tp`, and the flip of edge `k` of `c` lands on `tp(k)`.
pub proof fn lemma_edge_conjugate_formula(r: Cube, c: Cube, sc: Cube, tp: Perm<12>)
    requires
        c.wf(),
        sc.wf(),
        sc.eo.0 == 0,
        tp.is_inverse_of(sc.ep),
        is_edge_conjugate(r, c, sc),
    ensures
        forall|i: int| 0 <= i < 12 ==> #[trigger] r.ep.dest_of(i) == tp.dest_of(c.ep.dest_of(sc.ep.dest_of(i))),
        r.ep.upper_clear(),
        forall|k: int| 0 <= k < 12 ==> #[trigger] bit(r.eo.0, tp.dest_of(k)) == bit(c.eo.0, k),
        r.eo.valid(),
{
    let (t, inv) = choose|t: Cube, inv: Cube|
        #![trigger edges_composed(t.eo, t.ep, sc, c), edges_composed(r.eo, r.ep, t, inv)]
        inv.ep.is_inverse_of(sc.ep) && (forall|j: int|
            0 <= j < 16 ==> #[trigger] bit(inv.eo.0, j) == EO::moved_bit(sc.eo.0, inv.ep, j))
            && edges_composed(t.eo, t.ep, sc, c) && edges_composed(r.eo, r.ep, t, inv);
    lemma_inverse_unique(inv.ep, tp, sc.ep);
    Perm::<12>::lemma_inverse_valid(tp, sc.ep);
    assert forall|k: int| 0 <= k < 16 implies #[trigger] bit(t.eo.0, k) == bit(c.eo.0, k) by {
        crate::bitset::lemma_bit_zero(k);
        if EO::moved_bit(sc.eo.0, c.ep, k) {
            let i = choose|i: int| 0 <= i < 12 && bit(sc.eo.0, i) && #[trigger] c.ep.dest_of(i) == k;
            crate::bitset::lemma_bit_zero(i);
        }
    }
    assert forall|j: int| 0 <= j < 16 implies !#[trigger] bit(inv.eo.0, j) by {
        if EO::moved_bit(sc.eo.0, inv.ep, j) {
            let i = choose|i: int| 0 <= i < 12 && bit(sc.eo.0, i) && #[trigger] inv.ep.dest_of(i) == j;
            crate::bitset::lemma_bit_zero(i);
        }
    }
    assert forall|k: int| 0 <= k < 12 implies #[trigger] bit(r.eo.0, tp.dest_of(k)) == bit(c.eo.0, k) by {
        let j = tp.dest_of(k);
        assert(j < 12);
        if bit(c.eo.0, k) {
            assert(bit(t.eo.0, k));
            assert(EO::moved_bit(t.eo.0, inv.ep, j));
        }
        if EO::moved_bit(t.eo.0, inv.ep, j) {
            let i = choose|i: int| 0 <= i < 12 && bit(t.eo.0, i) && #[trigger] inv.ep.dest_of(i) == j;
            assert(i == k);
        }
    }
    assert forall|j: int| 12 <= j < 16 implies !#[trigger] bit(r.eo.0, j) by {
        if EO::moved_bit(t.eo.0, inv.ep, j) {
            let i = choose|i: int| 0 <= i < 12 && bit(t.eo.0, i) && #[trigger] inv.ep.dest_of(i) == j;
            assert(inv.ep.dest_of(i) < 12);
        }
    }
}

/// A permutation that sends `i` to `t(q(p(i)))` for permutations `p`, `q`, `t` is one.
pub proof fn lemma_chain_valid<const N: usize>(r: Perm<N>, p: Perm<N>, q: Perm<N>, t: Perm<N>)
    requires
        p.valid(),
        q.valid(),
        t.valid(),
        forall|i: int| 0 <= i < N ==> #[trigger] r.dest_of(i) == t.dest_of(q.dest_of(p.dest_of(i))),
    ensures
        r.valid(),
{
    assert forall|i: int| 0 <= i < N implies #[trigger] r.dest_of(i) < N by {
        assert(p.dest_of(i) < N);
        assert(q.dest_of(p.dest_of(i)) < N);
    }
    assert forall|i: int, j: int| 0 <= i < N && 0 <= j < N && i != j implies #[trigger] r.dest_of(i)
        != #[trigger] r.dest_of(j) by {
        assert(p.dest_of(i) != p.dest_of(j));
        assert(p.dest_of(i) < N && p.dest_of(j) < N);
        assert(q.dest_of(p.dest_of(i)) != q.dest_of(p.dest_of(j)));
        assert(q.dest_of(p.dest_of(i)) < N && q.dest_of(p.dest_of(j)) < N);
    }
}

/// The symmetry with the inverse code.
pub open spec fn inverse_sym(s: Sym) -> Sym {
    Sym::from_code(sym_inverse(s.code()))
}

impl Sym {
    /// The slot permutations of the inverse symmetry undo those of the symmetry, both ways.
    pub proof fn lemma_dests_inverse(self)
        requires
            self.valid(),
        ensures
            inverse_sym(self).valid(),
            forall|i: int| 0 <= i < 12 ==> #[trigger] inverse_sym(self).edge_dests()[self.edge_dests()[i]] == i,
            forall|i: int| 0 <= i < 12 ==> #[trigger] self.edge_dests()[inverse_sym(self).edge_dests()[i]] == i,
            forall|i: int| 0 <= i < 8 ==> #[trigger] inverse_sym(self).corner_dests()[self.corner_dests()[i]] == i,
            forall|i: int| 0 <= i < 8 ==> #[trigger] self.corner_dests()[inverse_sym(self).corner_dests()[i]] == i,
    {
        let a = self.code();
        law_sym_inverse(a);
        Sym::lemma_code_of(sym_inverse(a));
    }
}

/// The conjugating cubes of a symmetry and of its inverse have inverse permutations.
pub proof fn lemma_conjugator_parts_inverse(s: Sym, sc: Cube, tc: Cube)
    requires
        s.valid(),
        s.is_conjugator(sc),
        inverse_sym(s).is_conjugator(tc),
    ensures
        forall|i: int| 0 <= i < 12 ==> #[trigger] tc.ep.dest_of(sc.ep.dest_of(i)) == i,
        forall|i: int| 0 <= i < 12 ==> #[trigger] sc.ep.dest_of(tc.ep.dest_of(i)) == i,
        forall|i: int| 0 <= i < 8 ==> #[trigger] tc.cp.dest_of(sc.cp.dest_of(i)) == i,
        forall|i: int| 0 <= i < 8 ==> #[trigger] sc.cp.dest_of(tc.cp.dest_of(i)) == i,
        tc.ep.is_inverse_of(sc.ep),
        sc.ep.is_inverse_of(tc.ep),
        tc.cp.is_inverse_of(sc.cp),
        sc.cp.is_inverse_of(tc.cp),
{
    s.lemma_dests_inverse();
    assert forall|i: int| 0 <= i < 12 implies #[trigger] tc.ep.dest_of(sc.ep.dest_of(i)) == i by {
        assert(sc.ep.dest_of(i) == sc.ep@[i]);
        assert(sc.ep.dest_of(i) < 12);
        assert(tc.ep.dest_of(sc.ep.dest_of(i)) == tc.ep@[sc.ep.dest_of(i)]);
    }
    assert forall|i: int| 0 <= i < 12 implies #[trigger] sc.ep.dest_of(tc.ep.dest_of(i)) == i by {
        assert(tc.ep.dest_of(i) == tc.ep@[i]);
        assert(tc.ep.dest_of(i) < 12);
        assert(sc.ep.dest_of(tc.ep.dest_of(i)) == sc.ep@[tc.ep.dest_of(i)]);
    }
    assert forall|i: int| 0 <= i < 8 implies #[trigger] tc.cp.dest_of(sc.cp.dest_of(i)) == i by {
        assert(sc.cp.dest_of(i) == sc.cp@[i]);
        assert(sc.cp.dest_of(i) < 8);
        assert(tc.cp.dest_of(sc.cp.dest_of(i)) == tc.cp@[sc.cp.dest_of(i)]);
    }
    assert forall|i: int| 0 <= i < 8 implies #[trigger] sc.cp.dest_of(tc.cp.dest_of(i)) == i by {
        assert(tc.cp.dest_of(i) == tc.cp@[i]);
        assert(tc.cp.dest_of(i) < 8);
        assert(sc.cp.dest_of(tc.cp.dest_of(i)) == sc.cp@[tc.cp.dest_of(i)]);
    }
}

/// An inverse of a conjugating cube is the conjugating cube of the inverse symmetry.
proof fn lemma_inverse_is_conjugator(s: Sym, sc: Cube, tc: Cube, inv: Cube)
    requires
        s.valid(),
        s.is_conjugator(sc),
        inverse_sym(s).is_conjugator(tc),
        inv.is_inverse_of(sc),
    ensures
        inv == tc,
{
    lemma_conjugator_parts_inverse(s, sc, tc);
    assert(tc.ep.is_inverse_of(sc.ep));
    assert(tc.cp.is_inverse_of(sc.cp));
    lemma_inverse_unique(inv.ep, tc.ep, sc.ep);
    lemma_inverse_unique(inv.cp, tc.cp, sc.cp);
    assert forall|j: int| 0 <= j < 16 implies bit(inv.eo.0, j) == bit(tc.eo.0, j) by {
        crate::bitset::lemma_bit_zero(j);
        if EO::moved_bit(sc.eo.0, inv.ep, j) {
            let k = choose|k: int| 0 <= k < 12 && bit(sc.eo.0, k) && #[trigger] inv.ep.dest_of(k) == j;
            crate::bitset::lemma_bit_zero(k);
        }
    }
    lemma_bit_ext(inv.eo.0, tc.eo.0);
    Perm::<8>::lemma_inverse_valid(inv.cp, sc.cp);
    assert(crate::cube::twists_valid(0u16)) by {
        assert forall|k: int| 0 <= k < 8 implies #[trigger] crate::cube::lane(0u16, k) < 3 by {
            crate::cube::lemma_lane_zero(k);
        }
    }
    crate::cube::lemma_co_moved_lanes(0u16, inv.cp);
    let m = co_moved(0u16, inv.cp, 8);
    assert forall|j: int| 0 <= j < 8 implies crate::cube::lane(twist_neg(m), j) == crate::cube::lane(0u16, j) by {
        inv.cp.lemma_has_source(j);
        let i = choose|i: int| 0 <= i < 8 && inv.cp.dest_of(i) == j;
        crate::cube::lemma_lane_zero(i);
        crate::cube::lemma_lane_zero(j);
        crate::cube::lemma_twist_neg(m, j);
    }
    crate::cube::lemma_lane_ext(twist_neg(m), 0u16);
}

/// Conjugating by a symmetry and then by its inverse gives back the cube.
pub proof fn law_conj_inverse(s: Sym, c: Cube, r1: Cube, r2: Cube)
    requires
        s.valid(),
        c.wf(),
        s.is_conjugator(s.spec_conjugator()),
        inverse_sym(s).is_conjugator(inverse_sym(s).spec_conjugator()),
        is_conjugate(r1, c, s.spec_conjugator()),
        is_conjugate(r2, r1, inverse_sym(s).spec_conjugator()),
    ensures
        r2 == c,
{
    let sc = s.spec_conjugator();
    let tc = inverse_sym(s).spec_conjugator();
    s.lemma_dests_inverse();
    let (t1, i1) = choose|t: Cube, inv: Cube|
        #![trigger t.is_compose_of(sc, c), r1.is_compose_of(t, inv)]
        inv.is_inverse_of(sc) && t.is_compose_of(sc, c) && r1.is_compose_of(t, inv);
    lemma_inverse_is_conjugator(s, sc, tc, i1);
    let (t2, i2) = choose|t: Cube, inv: Cube|
        #![trigger t.is_compose_of(tc, r1), r2.is_compose_of(t, inv)]
        inv.is_inverse_of(tc) && t.is_compose_of(tc, r1) && r2.is_compose_of(t, inv);
    assert(inverse_sym(inverse_sym(s)) == s) by {
        law_sym_inverse(s.code());
        Sym::lemma_code_of(sym_inverse(s.code()));
        law_sym_inverse_involution(s.code());
        Sym::lemma_from_code(s);
    }
    inverse_sym(s).lemma_dests_inverse();
    lemma_inverse_is_conjugator(inverse_sym(s), tc, sc, i2);
    lemma_conjugator_parts_inverse(s, sc, tc);
    conj_undo_parts(sc, tc, c, t1, r1, t2, r2);
}

/// `r2` is `tc` after `sc` after `c` after `tc` after `sc` (with `sc`, `tc` flip-free,
/// twist-free and inverse to each other), so it is `c`.
proof fn conj_undo_parts(sc: Cube, tc: Cube, c: Cube, t1: Cube, r1: Cube, t2: Cube, r2: Cube)
    requires
        c.wf(),
        sc.wf(),
        tc.wf(),
        sc.eo.0 == 0,
        sc.co.0 == 0,
        tc.eo.0 == 0,
        tc.co.0 == 0,
        forall|i: int| 0 <= i < 12 ==> #[trigger] tc.ep.dest_of(sc.ep.dest_of(i)) == i,
        forall|i: int| 0 <= i < 12 ==> #[trigger] sc.ep.dest_of(tc.ep.dest_of(i)) == i,
        forall|i: int| 0 <= i < 8 ==> #[trigger] tc.cp.dest_of(sc.cp.dest_of(i)) == i,
        forall|i: int| 0 <= i < 8 ==> #[trigger] sc.cp.dest_of(tc.cp.dest_of(i)) == i,
        t1.is_compose_of(sc, c),
        r1.is_compose_of(t1, tc),
        t2.is_compose_of(tc, r1),
        r2.is_compose_of(t2, sc),
    ensures
        r2 == c,
{
    // Permutations.
    assert forall|i: int| 0 <= i < 12 implies r2.ep.dest_of(i) == c.ep.dest_of(i) by {
        let a = tc.ep.dest_of(i);
        assert(a < 12);
        assert(sc.ep.dest_of(a) == i);
        assert(c.ep.dest_of(i) < 12);
    }
    r2.ep.lemma_ext(c.ep);
    assert forall|i: int| 0 <= i < 8 implies r2.cp.dest_of(i) == c.cp.dest_of(i) by {
        let a = tc.cp.dest_of(i);
        assert(a < 8);
        assert(sc.cp.dest_of(a) == i);
        assert(c.cp.dest_of(i) < 8);
    }
    r2.cp.lemma_ext(c.cp);
    // Flips.
    assert forall|k: int| 0 <= k < 16 implies bit(t1.eo.0, k) == bit(c.eo.0, k) by {
        if EO::moved_bit(sc.eo.0, c.ep, k) {
            let i = choose|i: int| 0 <= i < 12 && bit(sc.eo.0, i) && #[trigger] c.ep.dest_of(i) == k;
            crate::bitset::lemma_bit_zero(i);
        }
    }
    assert forall|k: int| 0 <= k < 16 implies bit(t2.eo.0, k) == EO::moved_bit(c.eo.0, tc.ep, k) by {
        crate::bitset::lemma_bit_zero(k);
        if EO::moved_bit(tc.eo.0, r1.ep, k) {
            let i = choose|i: int| 0 <= i < 12 && bit(tc.eo.0, i) && #[trigger] r1.ep.dest_of(i) == k;
            crate::bitset::lemma_bit_zero(i);
        }
        if EO::moved_bit(t1.eo.0, tc.ep, k) {
            let i = choose|i: int| 0 <= i < 12 && bit(t1.eo.0, i) && #[trigger] tc.ep.dest_of(i) == k;
            assert(bit(c.eo.0, i));
        }
        if EO::moved_bit(c.eo.0, tc.ep, k) {
            let i = choose|i: int| 0 <= i < 12 && bit(c.eo.0, i) && #[trigger] tc.ep.dest_of(i) == k;
            assert(bit(t1.eo.0, i));
        }
    }
    assert forall|j: int| 0 <= j < 16 implies bit(r2.eo.0, j) == bit(c.eo.0, j) by {
        crate::bitset::lemma_bit_zero(j);
        if EO::moved_bit(t2.eo.0, sc.ep, j) {
            let k = choose|k: int| 0 <= k < 12 && bit(t2.eo.0, k) && #[trigger] sc.ep.dest_of(k) == j;
            let i = choose|i: int| 0 <= i < 12 && bit(c.eo.0, i) && #[trigger] tc.ep.dest_of(i) == k;
            assert(sc.ep.dest_of(tc.ep.dest_of(i)) == i);
        }
        if bit(c.eo.0, j) {
            assert(j < 12);
            let k = tc.ep.dest_of(j);
            assert(k < 12);
            assert(EO::moved_bit(c.eo.0, tc.ep, k));
            assert(bit(t2.eo.0, k));
            assert(sc.ep.dest_of(k) == j);
        }
    }
    lemma_bit_ext(r2.eo.0, c.eo.0);
    // Twists.
    assert(crate::cube::twists_valid(0u16)) by {
        assert forall|k: int| 0 <= k < 8 implies #[trigger] crate::cube::lane(0u16, k) < 3 by {
            crate::cube::lemma_lane_zero(k);
        }
    }
    crate::cube::lemma_co_moved_lanes(0u16, c.cp);
    crate::cube::lemma_twist_sum_lanes(co_moved(0u16, c.cp, 8), c.co.0);
    assert forall|k: int| 0 <= k < 8 implies crate::cube::lane(t1.co.0, k) == crate::cube::lane(c.co.0, k) by {
        c.cp.lemma_has_source(k);
        let i = choose|i: int| 0 <= i < 8 && c.cp.dest_of(i) == k;
        crate::cube::lemma_lane_zero(i);
    }
    crate::cube::lemma_lane_ext(t1.co.0, c.co.0);
    crate::cube::lemma_co_moved_lanes(c.co.0, tc.cp);
    crate::cube::lemma_twist_sum_lanes(co_moved(c.co.0, tc.cp, 8), 0u16);
    assert forall|k: int| 0 <= k < 8 implies #[trigger] crate::cube::lane(r1.co.0, k) < 3 by {
        crate::cube::lemma_lane_zero(k);
    }
    Perm::<8>::law_compose_valid(t1.cp, sc.cp, c.cp);
    Perm::<8>::law_compose_valid(r1.cp, t1.cp, tc.cp);
    crate::cube::lemma_co_moved_lanes(0u16, r1.cp);
    crate::cube::lemma_twist_sum_lanes(co_moved(0u16, r1.cp, 8), r1.co.0);
    assert forall|k: int| 0 <= k < 8 implies crate::cube::lane(t2.co.0, k) == crate::cube::lane(r1.co.0, k) by {
        r1.cp.lemma_has_source(k);
        let i = choose|i: int| 0 <= i < 8 && r1.cp.dest_of(i) == k;
        crate::cube::lemma_lane_zero(i);
    }
    crate::cube::lemma_lane_ext(t2.co.0, r1.co.0);
    crate::cube::lemma_co_moved_lanes(t2.co.0, sc.cp);
    crate::cube::lemma_twist_sum_lanes(co_moved(t2.co.0, sc.cp, 8), 0u16);
    assert forall|i: int| 0 <= i < 8 implies crate::cube::lane(r2.co.0, i) == crate::cube::lane(c.co.0, i) by {
        let a = tc.cp.dest_of(i);
        assert(a < 8);
        crate::cube::lemma_lane_zero(i);
        crate::cube::lemma_lane_zero(a);
        assert(sc.cp.dest_of(a) == i);
        assert(crate::cube::lane(c.co.0, i) < 3);
    }
    crate::cube::lemma_lane_ext(r2.co.0, c.co.0);
}

/// The conjugating cube of `a` followed by `b` moves each slot as that of `a`, then as
/// that of `b`.
#[verifier::rlimit(100)]
pub proof fn lemma_dests_compose(a: int, b: int)
    requires
        0 <= a < 16,
        0 <= b < 16,
    ensures
        forall|k: int| 0 <= k < 12 ==> #[trigger] Sym::from_code(sym_compose(a, b)).edge_dests()[k]
            == Sym::from_code(b).edge_dests()[Sym::from_code(a).edge_dests()[k]],
        forall|k: int| 0 <= k < 8 ==> #[trigger] Sym::from_code(sym_compose(a, b)).corner_dests()[k]
            == Sym::from_code(b).corner_dests()[Sym::from_code(a).corner_dests()[k]],
{
    Sym::lemma_code_of(a);
    Sym::lemma_code_of(b);
    Sym::lemma_code_of(sym_compose(a, b));
}

/// The conjugating cube of `s` followed by `t` moves the slots as that of `s` followed by
/// that of `t`.
pub proof fn law_conjugator_compose(s: Sym, t: Sym, u: Sym, sc: Cube, tc: Cube, uc: Cube)
    requires
        s.valid(),
        t.valid(),
        u.code() == sym_compose(s.code(), t.code()),
        s.is_conjugator(sc),
        t.is_conjugator(tc),
        u.is_conjugator(uc),
    ensures
        uc.ep.is_compose_of(sc.ep, tc.ep),
        uc.cp.is_compose_of(sc.cp, tc.cp),
        uc.is_compose_of(sc, tc),
{
    lemma_dests_compose(s.code(), t.code());
    Sym::lemma_from_code(s);
    Sym::lemma_from_code(t);
    Sym::lemma_from_code(u);
    s.lemma_edge_dests_range();
    s.lemma_corner_dests_range();
    assert forall|i: int| 0 <= i < 12 implies #[trigger] uc.ep.dest_of(i) == tc.ep.dest_of(sc.ep.dest_of(i)) by {
        assert(sc.ep.dest_of(i) == sc.ep@[i]);
        assert(uc.ep.dest_of(i) == uc.ep@[i]);
        assert(tc.ep.dest_of(sc.ep.dest_of(i)) == tc.ep@[sc.ep.dest_of(i)]);
    }
    assert forall|i: int| 0 <= i < 8 implies #[trigger] uc.cp.dest_of(i) == tc.cp.dest_of(sc.cp.dest_of(i)) by {
        assert(sc.cp.dest_of(i) == sc.cp@[i]);
        assert(uc.cp.dest_of(i) == uc.cp@[i]);
        assert(tc.cp.dest_of(sc.cp.dest_of(i)) == tc.cp@[sc.cp.dest_of(i)]);
    }
    // Neither conjugating cube flips or twists, and neither does their composition.
    assert forall|j: int| 0 <= j < 16 implies #[trigger] bit(uc.eo.0, j) == (EO::moved_bit(
        sc.eo.0,
        tc.ep,
        j,
    ) != bit(tc.eo.0, j)) by {
        crate::bitset::lemma_bit_zero(j);
        if EO::moved_bit(sc.eo.0, tc.ep, j) {
            let i = choose|i: int| 0 <= i < 12 && bit(sc.eo.0, i) && #[trigger] tc.ep.dest_of(i) == j;
            crate::bitset::lemma_bit_zero(i);
        }
    }
    assert(crate::cube::twists_valid(0u16)) by {
        assert forall|k: int| 0 <= k < 8 implies #[trigger] crate::cube::lane(0u16, k) < 3 by {
            crate::cube::lemma_lane_zero(k);
        }
    }
    crate::cube::lemma_co_moved_lanes(0u16, tc.cp);
    let m = co_moved(0u16, tc.cp, 8);
    crate::cube::lemma_twist_sum_lanes(m, 0u16);
    assert forall|k: int| 0 <= k < 8 implies crate::cube::lane(crate::cube::twist_sum(m, 0u16), k)
        == crate::cube::lane(0u16, k) by {
        tc.cp.lemma_has_source(k);
        let i = choose|i: int| 0 <= i < 8 && tc.cp.dest_of(i) == k;
        crate::cube::lemma_lane_zero(i);
        crate::cube::lemma_lane_zero(k);
    }
    crate::cube::lemma_lane_ext(crate::cube::twist_sum(m, 0u16), 0u16);
}

/// The corner slots of the conjugating cube of `u`, the inverse of `s` followed by `t`: slot
/// `j` goes where `t` sends the slot that `s` brings to `j`.
pub proof fn lemma_compose_conjugator_corners(s: Sym, t: Sym, u: Sym, sc: Cube, tc: Cube, uc: Cube, si: Perm<8>)
    requires
        s.valid(),
        t.valid(),
        u.code() == sym_compose(sym_inverse(s.code()), t.code()),
        s.is_conjugator(sc),
        t.is_conjugator(tc),
        u.is_conjugator(uc),
        si.is_inverse_of(sc.cp),
    ensures
        si.valid(),
        forall|j: int| 0 <= j < 8 ==> #[trigger] sc.cp.dest_of(si.dest_of(j)) == j,
        forall|j: int| 0 <= j < 8 ==> #[trigger] uc.cp.dest_of(j) == tc.cp.dest_of(si.dest_of(j)),
{
    Perm::<8>::lemma_inverse_valid(si, sc.cp);
    let ds = s.corner_dests();
    let dt = t.corner_dests();
    let du = u.corner_dests();
    let dis = inverse_sym(s).corner_dests();
    assert(forall|k: int| 0 <= k < 8 ==> #[trigger] du[k] == dt[dis[k]]) by {
        lemma_dests_compose(sym_inverse(s.code()), t.code());
        Sym::lemma_from_code(t);
        Sym::lemma_from_code(u);
    }
    assert(forall|k: int| 0 <= k < 8 ==> #[trigger] ds[dis[k]] == k && 0 <= dis[k] < 8) by {
        s.lemma_dests_inverse();
        inverse_sym(s).lemma_corner_dests_range();
    }
    assert forall|j: int| 0 <= j < 8 implies #[trigger] uc.cp.dest_of(j) == tc.cp.dest_of(si.dest_of(j)) by {
        let x = dis[j];
        assert(sc.cp.dest_of(x) == ds[x]);
        assert(si.dest_of(j) == x);
        assert(uc.cp.dest_of(j) == du[j]);
        assert(tc.cp.dest_of(x) == dt[x]);
    }
}

/// The edge slots of the conjugating cube of `u`, the inverse of `s` followed by `t`: slot
/// `j` goes where `t` sends the slot that `s` brings to `j`.
pub proof fn lemma_compose_conjugator_edges(s: Sym, t: Sym, u: Sym, sc: Cube, tc: Cube, uc: Cube, si: Perm<12>)
    requires
        s.valid(),
        t.valid(),
        u.code() == sym_compose(sym_inverse(s.code()), t.code()),
        s.is_conjugator(sc),
        t.is_conjugator(tc),
        u.is_conjugator(uc),
        si.is_inverse_of(sc.ep),
    ensures
        si.valid(),
        forall|j: int| 0 <= j < 12 ==> #[trigger] sc.ep.dest_of(si.dest_of(j)) == j,
        forall|j: int| 0 <= j < 12 ==> #[trigger] uc.ep.dest_of(j) == tc.ep.dest_of(si.dest_of(j)),
{
    Perm::<12>::lemma_inverse_valid(si, sc.ep);
    let ds = s.edge_dests();
    let dt = t.edge_dests();
    let du = u.edge_dests();
    let dis = inverse_sym(s).edge_dests();
    assert(forall|k: int| 0 <= k < 12 ==> #[trigger] du[k] == dt[dis[k]]) by {
        lemma_dests_compose(sym_inverse(s.code()), t.code());
        Sym::lemma_from_code(t);
        Sym::lemma_from_code(u);
    }
    assert(forall|k: int| 0 <= k < 12 ==> #[trigger] ds[dis[k]] == k && 0 <= dis[k] < 12) by {
        s.lemma_dests_inverse();
        inverse_sym(s).lemma_edge_dests_range();
    }
    assert forall|j: int| 0 <= j < 12 implies #[trigger] uc.ep.dest_of(j) == tc.ep.dest_of(si.dest_of(j)) by {
        let x = dis[j];
        assert(sc.ep.dest_of(x) == ds[x]);
        assert(si.dest_of(j) == x);
        assert(uc.ep.dest_of(j) == du[j]);
        assert(tc.ep.dest_of(x) == dt[x]);
    }
}

impl Sym {
    /// The corner slots of a symmetry are slots.
    pub proof fn lemma_corner_dests_range(self)
        requires
            self.valid(),
        ensures
            self.corner_dests().len() == 8,
            forall|k: int| 0 <= k < 8 ==> 0 <= #[trigger] self.corner_dests()[k] < 8,
    {
    }

    /// The edge slots of a symmetry are slots.
    pub proof fn lemma_edge_dests_range(self)
        requires
            self.valid(),
        ensures
            self.edge_dests().len() == 12,
            forall|k: int| 0 <= k < 12 ==> 0 <= #[trigger] self.edge_dests()[k] < 12,
    {
    }
}

/// A conjugate of a well-formed cube by the conjugating cube of a symmetry is well formed.
proof fn lemma_conjugate_wf(s: Sym, r: Cube, c: Cube)
    requires
        s.valid(),
        s.is_conjugator(s.spec_conjugator()),
        c.wf(),
        is_conjugate(r, c, s.spec_conjugator()),
    ensures
        r.wf(),
{
    let sc = s.spec_conjugator();
    lemma_conjugate_parts(r, c, sc);
    lemma_corner_conjugate_inverse(r, c, sc);
    let tp = choose|q: Perm<8>| q.is_inverse_of(sc.cp);
    lemma_edge_conjugate_inverse(r, c, sc);
    let te = choose|q: Perm<12>| q.is_inverse_of(sc.ep);
    lemma_corner_conjugate_formula(r, c, sc, tp);
    lemma_edge_conjugate_formula(r, c, sc, te);
    Perm::<8>::lemma_inverse_valid(tp, sc.cp);
    Perm::<12>::lemma_inverse_valid(te, sc.ep);
    lemma_chain_valid(r.cp, sc.cp, c.cp, tp);
    lemma_chain_valid(r.ep, sc.ep, c.ep, te);
}

/// Conjugating by `s` and then by `t` is conjugating by `t` followed by `s`.
pub proof fn law_conj_compose(s: Sym, t: Sym, u: Sym, c: Cube, r1: Cube, r2: Cube, r3: Cube)
    requires
        s.valid(),
        t.valid(),
        u.code() == sym_compose(t.code(), s.code()),
        s.is_conjugator(s.spec_conjugator()),
        t.is_conjugator(t.spec_conjugator()),
        u.is_conjugator(u.spec_conjugator()),
        c.wf(),
        is_conjugate(r1, c, s.spec_conjugator()),
        is_conjugate(r2, r1, t.spec_conjugator()),
        is_conjugate(r3, c, u.spec_conjugator()),
    ensures
        r2 == r3,
{
    let sc = s.spec_conjugator();
    let tc = t.spec_conjugator();
    let uc = u.spec_conjugator();
    lemma_conjugate_wf(s, r1, c);
    lemma_conjugate_parts(r1, c, sc);
    lemma_conjugate_parts(r2, r1, tc);
    lemma_conjugate_parts(r3, c, uc);
    lemma_corner_conjugate_inverse(r1, c, sc);
    let sp = choose|q: Perm<8>| q.is_inverse_of(sc.cp);
    lemma_corner_conjugate_inverse(r2, r1, tc);
    let tp = choose|q: Perm<8>| q.is_inverse_of(tc.cp);
    lemma_corner_conjugate_inverse(r3, c, uc);
    let up = choose|q: Perm<8>| q.is_inverse_of(uc.cp);
    lemma_edge_conjugate_inverse(r1, c, sc);
    let se = choose|q: Perm<12>| q.is_inverse_of(sc.ep);
    lemma_edge_conjugate_inverse(r2, r1, tc);
    let te = choose|q: Perm<12>| q.is_inverse_of(tc.ep);
    lemma_edge_conjugate_inverse(r3, c, uc);
    let ue = choose|q: Perm<12>| q.is_inverse_of(uc.ep);
    lemma_corner_conjugate_formula(r1, c, sc, sp);
    lemma_corner_conjugate_formula(r2, r1, tc, tp);
    lemma_corner_conjugate_formula(r3, c, uc, up);
    lemma_edge_conjugate_formula(r1, c, sc, se);
    lemma_edge_conjugate_formula(r2, r1, tc, te);
    lemma_edge_conjugate_formula(r3, c, uc, ue);
    Perm::<8>::lemma_inverse_valid(sp, sc.cp);
    Perm::<8>::lemma_inverse_valid(tp, tc.cp);
    Perm::<8>::lemma_inverse_valid(up, uc.cp);
    Perm::<12>::lemma_inverse_valid(se, sc.ep);
    Perm::<12>::lemma_inverse_valid(te, tc.ep);
    Perm::<12>::lemma_inverse_valid(ue, uc.ep);
    law_conjugator_compose(t, s, u, tc, sc, uc);
    // Where the composed conjugation sends each slot, and how its inverse undoes it.
    assert forall|v: int| 0 <= v < 8 implies #[trigger] up.dest_of(v) == tp.dest_of(sp.dest_of(v)) by {
        let z = tp.dest_of(sp.dest_of(v));
        assert(0 <= sp.dest_of(v) < 8);
        assert(0 <= z < 8);
        assert(tc.cp.dest_of(z) == sp.dest_of(v));
        assert(uc.cp.dest_of(z) == sc.cp.dest_of(tc.cp.dest_of(z)));
        assert(uc.cp.dest_of(z) == v);
    }
    assert forall|v: int| 0 <= v < 12 implies #[trigger] ue.dest_of(v) == te.dest_of(se.dest_of(v)) by {
        let z = te.dest_of(se.dest_of(v));
        assert(0 <= se.dest_of(v) < 12);
        assert(0 <= z < 12);
        assert(tc.ep.dest_of(z) == se.dest_of(v));
        assert(uc.ep.dest_of(z) == sc.ep.dest_of(tc.ep.dest_of(z)));
        assert(uc.ep.dest_of(z) == v);
    }
    // Permutations.
    assert forall|i: int| 0 <= i < 8 implies r2.cp.dest_of(i) == r3.cp.dest_of(i) by {
        assert(0 <= tc.cp.dest_of(i) < 8);
        assert(0 <= c.cp.dest_of(sc.cp.dest_of(tc.cp.dest_of(i))) < 8);
    }
    r2.cp.lemma_ext(r3.cp);
    assert forall|i: int| 0 <= i < 12 implies r2.ep.dest_of(i) == r3.ep.dest_of(i) by {
        assert(0 <= tc.ep.dest_of(i) < 12);
        assert(0 <= c.ep.dest_of(sc.ep.dest_of(tc.ep.dest_of(i))) < 12);
    }
    r2.ep.lemma_ext(r3.ep);
    // Twists: the twist of corner `k` of `c` lands on `tp(sp(k))` either way.
    assert forall|j: int| 0 <= j < 8 implies crate::cube::lane(r2.co.0, j) == crate::cube::lane(r3.co.0, j) by {
        let k = uc.cp.dest_of(j);
        assert(0 <= k < 8);
        assert(up.dest_of(k) == j);
        assert(crate::cube::lane(r3.co.0, up.dest_of(k)) == crate::cube::lane(c.co.0, k));
        let m = sp.dest_of(k);
        assert(0 <= m < 8);
        assert(crate::cube::lane(r1.co.0, sp.dest_of(k)) == crate::cube::lane(c.co.0, k));
        assert(tp.dest_of(m) == j);
        assert(crate::cube::lane(r2.co.0, tp.dest_of(m)) == crate::cube::lane(r1.co.0, m));
    }
    crate::cube::lemma_lane_ext(r2.co.0, r3.co.0);
    // Flips: the flip of edge `k` of `c` lands on `te(se(k))` either way.
    assert forall|j: int| 0 <= j < 16 implies bit(r2.eo.0, j) == bit(r3.eo.0, j) by {
        if j < 12 {
            let k = uc.ep.dest_of(j);
            assert(0 <= k < 12);
            assert(ue.dest_of(k) == j);
            assert(bit(r3.eo.0, ue.dest_of(k)) == bit(c.eo.0, k));
            let m = se.dest_of(k);
            assert(0 <= m < 12);
            assert(bit(r1.eo.0, se.dest_of(k)) == bit(c.eo.0, k));
            assert(te.dest_of(m) == j);
            assert(bit(r2.eo.0, te.dest_of(m)) == bit(r1.eo.0, m));
        }
    }
    lemma_bit_ext(r2.eo.0, r3.eo.0);
}

/// Conjugating a composition is composing the conjugates: `s` conjugates `a` followed by
/// `b` to the conjugate of `a` followed by the conjugate of `b`.
pub proof fn law_conj_distributes(s: Sym, a: Cube, b: Cube, ab: Cube, ra: Cube, rb: Cube, rab: Cube, x: Cube)
    requires
        s.valid(),
        s.is_conjugator(s.spec_conjugator()),
        a.wf(),
        b.wf(),
        ab.is_compose_of(a, b),
        is_conjugate(ra, a, s.spec_conjugator()),
        is_conjugate(rb, b, s.spec_conjugator()),
        is_conjugate(rab, ab, s.spec_conjugator()),
        x.is_compose_of(ra, rb),
    ensures
        rab == x,
{
    let sc = s.spec_conjugator();
    Cube::law_compose_wf(a, b, ab);
    lemma_conjugate_wf(s, ra, a);
    lemma_conjugate_wf(s, rb, b);
    lemma_conjugate_parts(ra, a, sc);
    lemma_conjugate_parts(rb, b, sc);
    lemma_conjugate_parts(rab, ab, sc);
    lemma_corner_conjugate_inverse(ra, a, sc);
    let sp = choose|q: Perm<8>| q.is_inverse_of(sc.cp);
    lemma_edge_conjugate_inverse(ra, a, sc);
    let se = choose|q: Perm<12>| q.is_inverse_of(sc.ep);
    lemma_corner_conjugate_formula(ra, a, sc, sp);
    lemma_corner_conjugate_formula(rb, b, sc, sp);
    lemma_corner_conjugate_formula(rab, ab, sc, sp);
    lemma_edge_conjugate_formula(ra, a, sc, se);
    lemma_edge_conjugate_formula(rb, b, sc, se);
    lemma_edge_conjugate_formula(rab, ab, sc, se);
    Perm::<8>::lemma_inverse_valid(sp, sc.cp);
    Perm::<12>::lemma_inverse_valid(se, sc.ep);
    // Permutations.
    assert forall|i: int| 0 <= i < 8 implies rab.cp.dest_of(i) == x.cp.dest_of(i) by {
        let v = a.cp.dest_of(sc.cp.dest_of(i));
        assert(0 <= sc.cp.dest_of(i) < 8);
        assert(0 <= v < 8);
        assert(sc.cp.dest_of(sp.dest_of(v)) == v);
    }
    rab.cp.lemma_ext(x.cp);
    assert forall|i: int| 0 <= i < 12 implies rab.ep.dest_of(i) == x.ep.dest_of(i) by {
        let v = a.ep.dest_of(sc.ep.dest_of(i));
        assert(0 <= sc.ep.dest_of(i) < 12);
        assert(0 <= v < 12);
        assert(sc.ep.dest_of(se.dest_of(v)) == v);
    }
    rab.ep.lemma_ext(x.ep);
    // Flips: slot `j` of either side holds the flip of slot `sc(j)` of `a` followed by `b`.
    assert forall|j: int| 0 <= j < 16 implies bit(rab.eo.0, j) == bit(x.eo.0, j) by {
        if j < 12 {
            let k = sc.ep.dest_of(j);
            assert(0 <= k < 12);
            assert(se.dest_of(k) == j);
            assert(bit(rab.eo.0, se.dest_of(k)) == bit(ab.eo.0, k));
            assert(bit(rb.eo.0, se.dest_of(k)) == bit(b.eo.0, k));
            if EO::moved_bit(a.eo.0, b.ep, k) {
                let i0 = choose|i0: int| 0 <= i0 < 12 && bit(a.eo.0, i0) && #[trigger] b.ep.dest_of(i0) == k;
                let i = se.dest_of(i0);
                assert(0 <= i < 12);
                assert(bit(ra.eo.0, se.dest_of(i0)) == bit(a.eo.0, i0));
                assert(sc.ep.dest_of(i) == i0);
                assert(rb.ep.dest_of(i) == se.dest_of(b.ep.dest_of(i0)));
                assert(EO::moved_bit(ra.eo.0, rb.ep, j));
            }
            if EO::moved_bit(ra.eo.0, rb.ep, j) {
                let i = choose|i: int| 0 <= i < 12 && bit(ra.eo.0, i) && #[trigger] rb.ep.dest_of(i) == j;
                let i0 = sc.ep.dest_of(i);
                assert(0 <= i0 < 12);
                assert(se.dest_of(i0) == i);
                assert(bit(ra.eo.0, se.dest_of(i0)) == bit(a.eo.0, i0));
                let w = b.ep.dest_of(i0);
                assert(0 <= w < 12);
                assert(rb.ep.dest_of(i) == se.dest_of(w));
                assert(sc.ep.dest_of(se.dest_of(w)) == w);
                assert(w == k);
                assert(EO::moved_bit(a.eo.0, b.ep, k));
            }
        }
    }
    lemma_bit_ext(rab.eo.0, x.eo.0);
    // Twists: slot `j` of either side holds the twist of slot `sc(j)` of `a` followed by
    // `b`.
    crate::cube::lemma_co_moved_lanes(a.co.0, b.cp);
    crate::cube::lemma_co_moved_lanes(ra.co.0, rb.cp);
    crate::cube::lemma_twist_sum_lanes(co_moved(a.co.0, b.cp, 8), b.co.0);
    crate::cube::lemma_twist_sum_lanes(co_moved(ra.co.0, rb.cp, 8), rb.co.0);
    assert forall|j: int| 0 <= j < 8 implies crate::cube::lane(rab.co.0, j) == crate::cube::lane(x.co.0, j) by {
        let k = sc.cp.dest_of(j);
        assert(0 <= k < 8);
        assert(sp.dest_of(k) == j);
        assert(crate::cube::lane(rab.co.0, sp.dest_of(k)) == crate::cube::lane(ab.co.0, k));
        assert(crate::cube::lane(rb.co.0, sp.dest_of(k)) == crate::cube::lane(b.co.0, k));
        b.cp.lemma_has_source(k);
        let i0 = choose|i0: int| 0 <= i0 < 8 && b.cp.dest_of(i0) == k;
        let i = sp.dest_of(i0);
        assert(0 <= i < 8);
        assert(sc.cp.dest_of(i) == i0);
        assert(rb.cp.dest_of(i) == j);
        assert(crate::cube::lane(co_moved(ra.co.0, rb.cp, 8), rb.cp.dest_of(i)) == crate::cube::lane(ra.co.0, i));
        assert(crate::cube::lane(ra.co.0, sp.dest_of(i0)) == crate::cube::lane(a.co.0, i0));
        assert(crate::cube::lane(co_moved(a.co.0, b.cp, 8), b.cp.dest_of(i0)) == crate::cube::lane(a.co.0, i0));
    }
    crate::cube::lemma_lane_ext(rab.co.0, x.co.0);
}

} // verus!