//! The classes of the values of a coordinate under its symmetries.
use std::marker::PhantomData;
use vstd::prelude::*;

use crate::bitset::{bit, lemma_bit_or, lemma_bit_zero, test_bit};
use crate::coord::{admissible, Coord};
use crate::cube::{keeps_eslice, Cube};
use crate::sym::{inverse_sym, sym_compose, sym_inverse, Sym};

verus! {

/// The symmetries whose codes are the members of `mask` below `n`, in increasing order.
pub open spec fn syms_of_mask(mask: u16, n: int) -> Seq<Sym>
    decreases n,
{
    if n <= 0 {
        Seq::empty()
    } else if bit(mask, n - 1) {
        syms_of_mask(mask, n - 1).push(Sym::from_code(n - 1))
    } else {
        syms_of_mask(mask, n - 1)
    }
}

/// With the identity among them, the identity comes first.
pub proof fn lemma_identity_first_of_mask(mask: u16, n: int)
    requires
        bit(mask, 0),
        1 <= n,
    ensures
        syms_of_mask(mask, n).len() >= 1,
        syms_of_mask(mask, n)[0] == Sym::from_code(0),
    decreases n,
{
    let s = syms_of_mask(mask, n - 1);
    assert(syms_of_mask(mask, n) == if bit(mask, n - 1) {
        s.push(Sym::from_code(n - 1))
    } else {
        s
    });
    if n > 1 {
        lemma_identity_first_of_mask(mask, n - 1);
    } else {
        assert(s =~= Seq::<Sym>::empty());
    }
}

/// The `i`-th listed symmetry of `C`, which has a conjugating cube, takes the cube `a` to
/// a conjugate with coordinate `x`.
pub open spec fn sym_reaches<C: Coord>(a: Cube, i: int, x: int) -> bool {
    &&& 0 <= i < C::spec_syms().len()
    &&& C::spec_syms()[i].valid()
    &&& C::spec_syms()[i].is_conjugator(C::spec_syms()[i].spec_conjugator())
    &&& C::conj_defined(a, C::spec_syms()[i])
    &&& C::spec_index(C::spec_conj(a, C::spec_syms()[i])) == x
}

/// Each of the first `i` listed symmetries of `C` has a conjugating cube and conjugates
/// `rep`.
pub open spec fn conj_defined_upto<C: Coord>(rep: Cube, i: int) -> bool {
    forall|i2: int|
        0 <= i2 < i ==> #[trigger] sym_reaches::<C>(
            rep,
            i2,
            C::spec_index(C::spec_conj(rep, C::spec_syms()[i2])) as int,
        )
}

/// A listed symmetry takes one of the first `k` cubes of `reps` to coordinate `x`.
pub open spec fn reached_in<C: Coord>(reps: Seq<Cube>, k: int, x: int) -> bool {
    exists|q: int, i: int| 0 <= q < k && #[trigger] sym_reaches::<C>(reps[q], i, x)
}

/// Symmetry information about a coordinate `C`.
pub struct SymTable<C: Coord> {
    /// Symmetries which bring the cube with the given coordinate back
    /// to the canonical representative.
    conj: Vec<Sym>,
    /// Conjugacy class of each coordinate.
    cls: Vec<usize>,
    /// Self-symmetries of each conjugacy class, encoded as a bitset.
    ssym: Vec<u16>,
    /// The cube from which each class was generated.
    reps: Ghost<Seq<Cube>>,
    _c: PhantomData<C>,
}

impl<C: Coord> SymTable<C> {
    /// The symmetry stored for coordinate `x`.
    pub closed spec fn conj_of(self, x: int) -> Sym {
        self.conj@[x]
    }

    /// The class stored for coordinate `x`.
    pub closed spec fn class_of(self, x: int) -> int {
        self.cls@[x] as int
    }

    /// One stored symmetry and class per coordinate, one cube per class.
    pub closed spec fn sized(self) -> bool {
        &&& self.conj@.len() == C::spec_n_values()
        &&& self.cls@.len() == C::spec_n_values()
        &&& self.reps@.len() == self.ssym@.len()
    }

    /// Number of classes.
    pub closed spec fn n_classes(self) -> nat {
        self.ssym@.len()
    }

    /// The self-symmetries of class `k`, as a set of codes.
    pub closed spec fn mask_of(self, k: int) -> u16 {
        self.ssym@[k]
    }

    /// The cube from which class `k` was generated.
    pub closed spec fn rep_of(self, k: int) -> Cube {
        self.reps@[k]
    }

    /// Coordinate `x` is reached from the cube of its class by a listed symmetry whose
    /// inverse is stored for `x`.
    pub open spec fn entry_ok(self, x: int) -> bool {
        &&& self.conj_of(x).valid()
        &&& 0 <= self.class_of(x) < self.n_classes()
        &&& exists|i: int|
            #[trigger] sym_reaches::<C>(self.rep_of(self.class_of(x)), i, x)
                && self.conj_of(x).code() == sym_inverse(C::spec_syms()[i].code())
    }

    /// The cube of class `k` is admissible and complete, and the self-symmetries of the
    /// class are the listed symmetries that keep the coordinate of that cube.
    pub open spec fn class_ok(self, k: int) -> bool {
        &&& admissible(C::needs_dr(), self.rep_of(k))
        &&& C::complete(self.rep_of(k))
        &&& forall|j: int|
            0 <= j < 16 ==> (#[trigger] bit(self.mask_of(k), j) <==> exists|i: int|
                #[trigger] sym_reaches::<C>(self.rep_of(k), i, C::spec_index(self.rep_of(k)) as int)
                    && C::spec_syms()[i].code() == j)
    }

    /// Each class starts at a coordinate that no listed symmetry takes the cube of an earlier
    /// class to.
    pub open spec fn classes_distinct(self) -> bool {
        forall|k1: int, k2: int, i: int|
            0 <= k1 < k2 < self.n_classes() ==> !#[trigger] sym_reaches::<C>(
                self.rep_of(k1),
                i,
                C::spec_index(#[trigger] self.rep_of(k2)) as int,
            )
    }

    /// The classes are numbered in the order of their cubes' coordinates, and the cube of
    /// each class has the least coordinate that no listed symmetry takes the cube of an
    /// earlier class to.
    pub open spec fn classes_ordered(self) -> bool {
        &&& forall|k1: int, k2: int|
            0 <= k1 < k2 < self.n_classes() ==> C::spec_index(#[trigger] self.rep_of(k1))
                < C::spec_index(#[trigger] self.rep_of(k2))
        &&& forall|k: int, x: int|
            0 <= k < self.n_classes() && 0 <= x < C::spec_index(self.rep_of(k))
                ==> #[trigger] self.reached_before(k, x)
    }

    /// The cube of each class has the least coordinate of its class and belongs to it, and
    /// no class is numbered higher than any of its coordinates.
    pub open spec fn classes_least(self) -> bool {
        &&& forall|x: int|
            0 <= x < C::spec_n_values() ==> C::spec_index(self.rep_of(#[trigger] self.class_of(x))) <= x
        &&& forall|k: int|
            0 <= k < self.n_classes() ==> self.class_of(C::spec_index(#[trigger] self.rep_of(k)) as int) == k
        &&& forall|x: int| 0 <= x < C::spec_n_values() ==> #[trigger] self.class_of(x) <= x
    }

    /// A listed symmetry takes the cube of a class before class `k` to coordinate `x`.
    pub open spec fn reached_before(self, k: int, x: int) -> bool {
        exists|q: int, i: int| 0 <= q < k && #[trigger] sym_reaches::<C>(self.rep_of(q), i, x)
    }

    /// The table describes the classes of `C`.
    pub open spec fn wf(self) -> bool {
        &&& C::reducible()
        &&& self.sized()
        &&& self.n_classes() <= C::spec_n_values()
        &&& forall|x: int| 0 <= x < C::spec_n_values() ==> #[trigger] self.entry_ok(x)
        &&& forall|k: int| 0 <= k < self.n_classes() ==> #[trigger] self.class_ok(k)
        &&& self.classes_distinct()
        &&& self.classes_ordered()
        &&& self.classes_least()
        &&& forall|k: int|
            0 <= k < self.n_classes() ==> conj_defined_upto::<C>(
                #[trigger] self.rep_of(k),
                C::spec_syms().len() as int,
            )
    }
}

/// `s` with the bit of `j` set: the bits of `s`, and `j`.
proof fn lemma_set_bit(s: u16, j: u16)
    requires
        j < 16,
    ensures
        forall|k: int| 0 <= k < 16 ==> #[trigger] bit(s | (1u16 << j), k) == (bit(s, k) || k == j),
{
    assert forall|k: int| 0 <= k < 16 implies #[trigger] bit(s | (1u16 << j), k) == (bit(s, k) || k
        == j) by {
        lemma_bit_or(s, 1, j as int, k);
        assert((s | (1u16 << j)) == (s | ((1u16 << ((j as int) as u16)) as u16)));
    }
}

impl<C: Coord> SymTable<C> {
    /// Build the table: each coordinate not yet seen starts a new class, whose members are
    /// the coordinates of the conjugates of its cube under the listed symmetries. Classes
    /// are numbered in increasing order of their least coordinates, and the cube of each
    /// class has its least coordinate.
    #[verifier::spinoff_prover]
    #[verifier::rlimit(50)]
    pub fn new() -> (r: Self)
        requires
            C::reducible(),
        ensures
            r.wf(),
            r.classes_ordered(),
            r.classes_least(),
    {
        let n = C::n_values();
        proof {
            C::lemma_n_values();
            C::lemma_identity_first();
        }
        let syms = C::syms();
        let mut conj: Vec<Option<Sym>> = Vec::new();
        let mut cls: Vec<usize> = Vec::new();
        let mut k: usize = 0;
        while k < n
            invariant
                k <= n,
                conj@.len() == k,
                cls@.len() == k,
                forall|x: int| 0 <= x < k ==> #[trigger] conj@[x] is None,
            decreases n - k,
        {
            conj.push(None);
            cls.push(0);
            k = k + 1;
        }
        let mut ssym: Vec<u16> = Vec::new();
        let ghost mut reps: Seq<Cube> = Seq::empty();
        let mut clsno: usize = 0;
        let mut a_coord: usize = 0;
        while a_coord < n
            invariant
                C::reducible(),
                n == C::spec_n_values(),
                0 < n <= 40320,
                syms@ == C::spec_syms(),
                syms@.len() > 0,
                syms@[0].code() == 0,
                forall|i: int| 0 <= i < syms@.len() ==> (#[trigger] syms@[i]).valid(),
                a_coord <= n,
                conj@.len() == n,
                cls@.len() == n,
                ssym@.len() == clsno,
                reps.len() == clsno,
                clsno <= a_coord,
                forall|q: int| 0 <= q < clsno ==> conj_defined_upto::<C>(#[trigger] reps[q], syms@.len() as int),
                forall|x: int|
                    0 <= x < n && #[trigger] conj@[x] is Some ==> C::spec_index(reps[cls@[x] as int]) <= x,
                forall|q: int| 0 <= q < clsno ==> cls@[C::spec_index(#[trigger] reps[q]) as int] == q,
                forall|q: int| 0 <= q < clsno ==> q <= C::spec_index(#[trigger] reps[q]),
                forall|x: int| 0 <= x < a_coord ==> #[trigger] conj@[x] is Some,
                forall|x: int|
                    0 <= x < n && #[trigger] conj@[x] is Some ==> {
                        &&& conj@[x].unwrap().valid()
                        &&& cls@[x] < clsno
                        &&& exists|i: int|
                            #[trigger] sym_reaches::<C>(reps[cls@[x] as int], i, x)
                                && conj@[x].unwrap().code() == sym_inverse(syms@[i].code())
                    },
                forall|q: int| 0 <= q < clsno ==> admissible(C::needs_dr(), #[trigger] reps[q]),
                forall|q: int| 0 <= q < clsno ==> C::complete(#[trigger] reps[q]),
                forall|q: int| 0 <= q < clsno ==> C::spec_index(#[trigger] reps[q]) < n,
                forall|q: int| 0 <= q < clsno ==> C::spec_index(#[trigger] reps[q]) < a_coord,
                forall|q1: int, q2: int|
                    0 <= q1 < q2 < clsno ==> C::spec_index(#[trigger] reps[q1]) < C::spec_index(
                        #[trigger] reps[q2],
                    ),
                forall|q: int, x: int|
                    0 <= q < clsno && 0 <= x < C::spec_index(reps[q]) ==> #[trigger] reached_in::<C>(reps, q, x),
                forall|q: int, i: int, x: int|
                    0 <= q < clsno && 0 <= x < n && #[trigger] sym_reaches::<C>(reps[q], i, x)
                        ==> conj@[x] is Some,
                forall|q1: int, q2: int, i: int|
                    0 <= q1 < q2 < clsno ==> !#[trigger] sym_reaches::<C>(
                        reps[q1],
                        i,
                        C::spec_index(#[trigger] reps[q2]) as int,
                    ),
                forall|q: int, j: int|
                    0 <= q < clsno && 0 <= j < 16 ==> (#[trigger] bit(ssym@[q], j) <==> exists|i: int|
                        #[trigger] sym_reaches::<C>(reps[q], i, C::spec_index(reps[q]) as int)
                            && syms@[i].code() == j),
            decreases n - a_coord,
        {
            if conj[a_coord].is_some() {
                a_coord = a_coord + 1;
                continue;
            }
            let a = C::rep(a_coord);
            let ghost reps2 = reps.push(a);
            proof {
                assert forall|x: int| 0 <= x < a_coord implies #[trigger] reached_in::<C>(reps, clsno as int, x) by {
                    assert(conj@[x] is Some);
                    let i = choose|i: int|
                        #[trigger] sym_reaches::<C>(reps[cls@[x] as int], i, x)
                            && conj@[x].unwrap().code() == sym_inverse(syms@[i].code());
                    assert(0 <= cls@[x] < clsno && sym_reaches::<C>(reps[cls@[x] as int], i, x));
                }
            }
            proof {
                assert forall|q1: int, i: int| 0 <= q1 < clsno implies !#[trigger] sym_reaches::<C>(
                    reps[q1],
                    i,
                    a_coord as int,
                ) by {
                    if sym_reaches::<C>(reps[q1], i, a_coord as int) {
                        assert(conj@[a_coord as int] is Some);
                    }
                }
            }
            let mut s: u16 = 0;
            proof {
                assert forall|j: int| 0 <= j < 16 implies !bit(s, j) by {
                    lemma_bit_zero(j);
                }
            }
            proof {
                assert forall|x: int| 0 <= x < n && #[trigger] conj@[x] is Some implies exists|i: int|
                    #[trigger] sym_reaches::<C>(reps2[cls@[x] as int], i, x)
                        && conj@[x].unwrap().code() == sym_inverse(syms@[i].code()) by {
                    let i = choose|i: int|
                        #[trigger] sym_reaches::<C>(reps[cls@[x] as int], i, x)
                            && conj@[x].unwrap().code() == sym_inverse(syms@[i].code());
                    assert(reps2[cls@[x] as int] == reps[cls@[x] as int]);
                    assert(sym_reaches::<C>(reps2[cls@[x] as int], i, x));
                }
            }
            proof {
                assert forall|x: int|
                    0 <= x < n && #[trigger] conj@[x] is Some implies C::spec_index(reps2[cls@[x] as int]) <= x by {
                    assert(reps2[cls@[x] as int] == reps[cls@[x] as int]);
                }
                assert forall|x: int| 0 <= x < a_coord implies #[trigger] cls@[x] < clsno by {
                    assert(conj@[x] is Some);
                }
            }
            let mut i: usize = 0;
            while i < syms.len()
                invariant
                    C::reducible(),
                    n == C::spec_n_values(),
                    0 < n <= 40320,
                    syms@ == C::spec_syms(),
                    syms@.len() > 0,
                    syms@[0].code() == 0,
                    forall|i: int| 0 <= i < syms@.len() ==> (#[trigger] syms@[i]).valid(),
                    a_coord < n,
                    admissible(C::needs_dr(), a),
                    C::complete(a),
                    C::spec_index(a) == a_coord,
                    reps2 == reps.push(a),
                    reps.len() == clsno,
                    clsno <= a_coord,
                    conj_defined_upto::<C>(a, i as int),
                    forall|q: int| 0 <= q < clsno ==> conj_defined_upto::<C>(#[trigger] reps[q], syms@.len() as int),
                    forall|x: int| 0 <= x < a_coord ==> #[trigger] cls@[x] < clsno,
                    forall|x: int|
                        0 <= x < n && #[trigger] conj@[x] is Some ==> C::spec_index(reps2[cls@[x] as int]) <= x,
                    forall|q: int| 0 <= q < clsno ==> cls@[C::spec_index(#[trigger] reps[q]) as int] == q,
                    i > 0 ==> cls@[a_coord as int] == clsno,
                    forall|q: int| 0 <= q < clsno ==> admissible(C::needs_dr(), #[trigger] reps[q]) && C::complete(reps[q]),
                    i <= syms@.len(),
                    conj@.len() == n,
                    cls@.len() == n,
                    i > 0 ==> conj@[a_coord as int] is Some,
                    forall|x: int| 0 <= x < a_coord ==> #[trigger] conj@[x] is Some,
                    forall|x: int|
                        0 <= x < n && #[trigger] conj@[x] is Some ==> {
                            &&& conj@[x].unwrap().valid()
                            &&& cls@[x] < clsno + 1
                            &&& exists|i: int|
                                #[trigger] sym_reaches::<C>(reps2[cls@[x] as int], i, x)
                                    && conj@[x].unwrap().code() == sym_inverse(syms@[i].code())
                        },
                    forall|j: int|
                        0 <= j < 16 ==> (bit(s, j) <==> exists|i2: int|
                            0 <= i2 < i && #[trigger] sym_reaches::<C>(a, i2, a_coord as int)
                                && syms@[i2].code() == j),
                    forall|q: int, i2: int, x: int|
                        0 <= q < clsno && 0 <= x < n && #[trigger] sym_reaches::<C>(reps[q], i2, x)
                            ==> conj@[x] is Some,
                    forall|i2: int, x: int|
                        0 <= i2 < i && 0 <= x < n && #[trigger] sym_reaches::<C>(a, i2, x)
                            ==> conj@[x] is Some,
                    forall|q1: int, i2: int|
                        0 <= q1 < clsno ==> !#[trigger] sym_reaches::<C>(reps[q1], i2, a_coord as int),
                    forall|x: int| 0 <= x < a_coord ==> #[trigger] reached_in::<C>(reps, clsno as int, x),
                    forall|q: int| 0 <= q < clsno ==> C::spec_index(#[trigger] reps[q]) < a_coord,
                    forall|q1: int, q2: int|
                        0 <= q1 < q2 < clsno ==> C::spec_index(#[trigger] reps[q1]) < C::spec_index(
                            #[trigger] reps[q2],
                        ),
                    forall|q: int, x: int|
                        0 <= q < clsno && 0 <= x < C::spec_index(reps[q]) ==> #[trigger] reached_in::<C>(reps, q, x),
                decreases syms@.len() - i,
            {
                let sym = syms[i];
                let b = C::conj(&a, sym);
                let b_coord = C::index(&b);
                let inv = sym.inverse();
                proof {
                    assert(sym_reaches::<C>(a, i as int, b_coord as int));
                    assert(reps2[clsno as int] == a);
                    if i == 0 {
                        C::lemma_conj_identity(a, sym);
                    }
                    assert(0 <= sym_inverse(sym.code()) < 16) by {
                        crate::sym::law_sym_inverse(sym.code());
                    }
                    if b_coord < a_coord {
                        // The orbit of `a` would meet that of an earlier class, which would
                        // then reach `a_coord`.
                        let q = cls@[b_coord as int] as int;
                        assert(conj@[b_coord as int] is Some);
                        let i1 = choose|i1: int|
                            #[trigger] sym_reaches::<C>(reps2[q], i1, b_coord as int)
                                && conj@[b_coord as int].unwrap().code() == sym_inverse(syms@[i1].code());
                        assert(reps2[q] == reps[q]);
                        C::lemma_syms_closed();
                        assert(0 <= i1 < syms@.len());
                        let l = choose|l: int|
                            0 <= l < C::spec_syms().len() && #[trigger] C::spec_syms()[l].code()
                                == sym_compose(sym_inverse(C::spec_syms()[i as int].code()), C::spec_syms()[i1].code());
                        assert(conj_defined_upto::<C>(reps[q], syms@.len() as int));
                        assert(sym_reaches::<C>(
                            reps[q],
                            l,
                            C::spec_index(C::spec_conj(reps[q], C::spec_syms()[l])) as int,
                        ));
                        C::lemma_orbits_meet(reps[q], syms@[i1], a, sym, syms@[l]);
                        assert(sym_reaches::<C>(reps[q], l, a_coord as int));
                    }
                }
                let ghost conj_old = conj@;
                let ghost cls_old = cls@;
                conj.set(b_coord, Some(inv));
                cls.set(b_coord, clsno);
                let ghost s0 = s;
                if a_coord == b_coord {
                    let c = sym.coord() as u16;
                    proof {
                        lemma_set_bit(s, c);
                    }
                    s = s | (1u16 << c);
                }
                proof {
                    assert forall|j: int|
                        0 <= j < 16 implies (bit(s, j) <==> exists|i2: int|
                            0 <= i2 < i + 1 && #[trigger] sym_reaches::<C>(a, i2, a_coord as int)
                                && syms@[i2].code() == j) by {
                        if exists|i2: int|
                            0 <= i2 < i + 1 && #[trigger] sym_reaches::<C>(a, i2, a_coord as int)
                                && syms@[i2].code() == j {
                            let i2 = choose|i2: int|
                                0 <= i2 < i + 1 && #[trigger] sym_reaches::<C>(a, i2, a_coord as int)
                                    && syms@[i2].code() == j;
                            if i2 < i {
                                assert(bit(s0, j));
                            }
                        }
                        if bit(s0, j) {
                            let i2 = choose|i2: int|
                                0 <= i2 < i && #[trigger] sym_reaches::<C>(a, i2, a_coord as int)
                                    && syms@[i2].code() == j;
                            assert(0 <= i2 < i + 1 && sym_reaches::<C>(a, i2, a_coord as int)
                                && syms@[i2].code() == j);
                        }
                    }
                }
                proof {
                    assert(C::spec_syms()[i as int] == sym);
                    assert forall|i2: int| 0 <= i2 < i + 1 implies #[trigger] sym_reaches::<C>(
                        a,
                        i2,
                        C::spec_index(C::spec_conj(a, C::spec_syms()[i2])) as int,
                    ) by {
                        if i2 == i {
                            assert(sym_reaches::<C>(a, i as int, b_coord as int));
                        }
                    }
                    assert forall|x: int| 0 <= x < n && #[trigger] conj@[x] is Some implies {
                        &&& conj@[x].unwrap().valid()
                        &&& cls@[x] < clsno + 1
                        &&& exists|i2: int|
                            #[trigger] sym_reaches::<C>(reps2[cls@[x] as int], i2, x)
                                && conj@[x].unwrap().code() == sym_inverse(syms@[i2].code())
                    } by {
                        if x == b_coord {
                            assert(reps2[cls@[x] as int] == a);
                            assert(sym_reaches::<C>(reps2[cls@[x] as int], i as int, x)
                                && conj@[x].unwrap().code() == sym_inverse(syms@[i as int].code()));
                        } else {
                            assert(conj@[x] == conj_old[x] && cls@[x] == cls_old[x]);
                        }
                    }
                }
                i = i + 1;
            }
            proof {
                assert forall|q: int| 0 <= q < clsno + 1 implies admissible(
                    C::needs_dr(),
                    #[trigger] reps2[q],
                ) && C::complete(reps2[q]) by {
                    if q < clsno {
                        assert(reps2[q] == reps[q]);
                    }
                }
            }
            let ghost ssym0 = ssym@;
            let ghost reps0 = reps;
            ssym.push(s);
            clsno = clsno + 1;
            proof {
                reps = reps2;
                assert forall|q: int, i2: int, x: int|
                    0 <= q < clsno && 0 <= x < n && #[trigger] sym_reaches::<C>(reps[q], i2, x)
                        implies conj@[x] is Some by {
                    if q < clsno - 1 {
                        assert(reps[q] == reps0[q]);
                    } else {
                        assert(reps[q] == a);
                    }
                }
                assert forall|q1: int, q2: int, i2: int| 0 <= q1 < q2 < clsno implies !#[trigger] sym_reaches::<C>(
                    reps[q1],
                    i2,
                    C::spec_index(#[trigger] reps[q2]) as int,
                ) by {
                    assert(reps[q1] == reps0[q1]);
                    if q2 < clsno - 1 {
                        assert(reps[q2] == reps0[q2]);
                    } else {
                        assert(reps[q2] == a);
                    }
                }
                assert forall|q: int| 0 <= q < clsno implies C::spec_index(#[trigger] reps[q]) < n
                    && C::spec_index(reps[q]) < a_coord + 1 by {
                    if q < clsno - 1 {
                        assert(reps[q] == reps0[q]);
                    }
                }
                assert forall|q1: int, q2: int|
                    0 <= q1 < q2 < clsno implies C::spec_index(#[trigger] reps[q1]) < C::spec_index(
                    #[trigger] reps[q2],
                ) by {
                    assert(reps[q1] == reps0[q1]);
                    if q2 < clsno - 1 {
                        assert(reps[q2] == reps0[q2]);
                    }
                }
                assert forall|q: int, x: int|
                    0 <= q < clsno && 0 <= x < C::spec_index(reps[q]) implies #[trigger] reached_in::<C>(reps, q, x) by {
                    if q < clsno - 1 {
                        assert(reps[q] == reps0[q]);
                        assert(reached_in::<C>(reps0, q, x));
                        let (q2, i) = choose|q2: int, i: int|
                            0 <= q2 < q && #[trigger] sym_reaches::<C>(reps0[q2], i, x);
                        assert(reps[q2] == reps0[q2]);
                    } else {
                        assert(reps[q] == a);
                        assert(reached_in::<C>(reps0, clsno - 1, x));
                        let (q2, i) = choose|q2: int, i: int|
                            0 <= q2 < clsno - 1 && #[trigger] sym_reaches::<C>(reps0[q2], i, x);
                        assert(reps[q2] == reps0[q2]);
                    }
                }
                assert forall|q: int, j: int|
                    0 <= q < clsno && 0 <= j < 16 implies (#[trigger] bit(ssym@[q], j) <==> exists|
                    i: int|
                    #[trigger] sym_reaches::<C>(reps[q], i, C::spec_index(reps[q]) as int)
                        && syms@[i].code() == j) by {
                    if q < clsno - 1 {
                        assert(ssym@[q] == ssym0[q]);
                        assert(reps[q] == reps0[q]);
                    } else {
                        assert(reps[q] == a);
                        if exists|i: int|
                            #[trigger] sym_reaches::<C>(reps[q], i, C::spec_index(reps[q]) as int)
                                && syms@[i].code() == j {
                            let i = choose|i: int|
                                #[trigger] sym_reaches::<C>(reps[q], i, C::spec_index(reps[q]) as int)
                                    && syms@[i].code() == j;
                            assert(0 <= i < syms@.len() && sym_reaches::<C>(a, i, a_coord as int));
                        }
                    }
                }
            }
            a_coord = a_coord + 1;
        }
        let mut out: Vec<Sym> = Vec::new();
        let mut x: usize = 0;
        while x < n
            invariant
                x <= n,
                n == C::spec_n_values(),
                conj@.len() == n,
                out@.len() == x,
                forall|y: int| 0 <= y < n ==> #[trigger] conj@[y] is Some,
                forall|y: int| 0 <= y < x ==> Some(#[trigger] out@[y]) == conj@[y],
            decreases n - x,
        {
            match conj[x] {
                Some(v) => out.push(v),
                None => out.push(Sym::UF()),
            }
            x = x + 1;
        }
        let r = SymTable { conj: out, cls, ssym, reps: Ghost(reps), _c: PhantomData };
        proof {
            assert forall|y: int| 0 <= y < n implies #[trigger] r.entry_ok(y) by {
                assert(Some(out@[y]) == conj@[y]);
                let i = choose|i: int|
                    #[trigger] sym_reaches::<C>(reps[cls@[y] as int], i, y)
                        && conj@[y].unwrap().code() == sym_inverse(syms@[i].code());
                assert(sym_reaches::<C>(r.rep_of(r.class_of(y)), i, y));
            }
            assert forall|q: int| 0 <= q < r.n_classes() implies #[trigger] r.class_ok(q) by {
                assert(r.rep_of(q) == reps[q]);
                assert(r.mask_of(q) == ssym@[q]);
                assert forall|j: int| 0 <= j < 16 implies (#[trigger] bit(r.mask_of(q), j)
                    <==> exists|i: int|
                    #[trigger] sym_reaches::<C>(r.rep_of(q), i, C::spec_index(r.rep_of(q)) as int)
                        && C::spec_syms()[i].code() == j) by {
                    assert(bit(ssym@[q], j) <==> exists|i: int|
                        #[trigger] sym_reaches::<C>(reps[q], i, C::spec_index(reps[q]) as int)
                            && syms@[i].code() == j);
                }
            }
            assert(r.n_classes() <= C::spec_n_values());
            assert forall|k1: int, k2: int|
                0 <= k1 < k2 < r.n_classes() implies C::spec_index(#[trigger] r.rep_of(k1))
                < C::spec_index(#[trigger] r.rep_of(k2)) by {
                assert(r.rep_of(k1) == reps[k1] && r.rep_of(k2) == reps[k2]);
            }
            assert forall|k: int, x: int|
                0 <= k < r.n_classes() && 0 <= x < C::spec_index(r.rep_of(k)) implies #[trigger] r.reached_before(k, x) by {
                assert(r.rep_of(k) == reps[k]);
                assert(reached_in::<C>(reps, k, x));
                let (q, i) = choose|q: int, i: int| 0 <= q < k && #[trigger] sym_reaches::<C>(reps[q], i, x);
                assert(r.rep_of(q) == reps[q]);
            }
            assert forall|x: int| 0 <= x < n implies C::spec_index(r.rep_of(#[trigger] r.class_of(x))) <= x
                && r.class_of(x) <= x by {
                assert(conj@[x] is Some);
                let q = cls@[x] as int;
                assert(r.rep_of(q) == reps[q]);
                assert(q <= C::spec_index(reps[q]));
            }
            assert forall|q: int| 0 <= q < r.n_classes() implies r.class_of(
                C::spec_index(#[trigger] r.rep_of(q)) as int,
            ) == q by {
                assert(r.rep_of(q) == reps[q]);
            }
            assert forall|q: int| 0 <= q < r.n_classes() implies conj_defined_upto::<C>(
                #[trigger] r.rep_of(q),
                C::spec_syms().len() as int,
            ) by {
                assert(r.rep_of(q) == reps[q]);
            }
        }
        r
    }

    /// The classes are the orbits of their cubes: a coordinate that a listed symmetry takes
    /// the cube of class `k` to belongs to class `k`.
    pub proof fn law_classes_are_orbits(self, k: int, i: int, x: int)
        requires
            self.wf(),
            0 <= k < self.n_classes(),
            0 <= x < C::spec_n_values(),
            sym_reaches::<C>(self.rep_of(k), i, x),
        ensures
            self.class_of(x) == k,
    {
        let q = self.class_of(x);
        assert(self.entry_ok(x));
        let i1 = choose|i1: int|
            #[trigger] sym_reaches::<C>(self.rep_of(q), i1, x) && self.conj_of(x).code() == sym_inverse(
                C::spec_syms()[i1].code(),
            );
        assert(self.class_ok(k) && self.class_ok(q));
        C::lemma_syms_closed();
        if q < k {
            self.lemma_orbit_reaches(q, i1, k, i, x);
        } else if k < q {
            self.lemma_orbit_reaches(k, i, q, i1, x);
        }
    }

    /// When the cubes of classes `q` and `k` both reach `x`, the cube of `q` reaches the
    /// coordinate of the cube of `k`.
    proof fn lemma_orbit_reaches(self, q: int, i1: int, k: int, i: int, x: int)
        requires
            self.wf(),
            0 <= q < self.n_classes(),
            0 <= k < self.n_classes(),
            sym_reaches::<C>(self.rep_of(q), i1, x),
            sym_reaches::<C>(self.rep_of(k), i, x),
        ensures
            exists|l: int| #[trigger] sym_reaches::<C>(self.rep_of(q), l, C::spec_index(self.rep_of(k)) as int),
    {
        assert(self.class_ok(k) && self.class_ok(q));
        C::lemma_syms_closed();
        let l = choose|l: int|
            0 <= l < C::spec_syms().len() && C::spec_syms()[l].code() == #[trigger] sym_compose(
                sym_inverse(C::spec_syms()[i].code()),
                C::spec_syms()[i1].code(),
            );
        assert(conj_defined_upto::<C>(self.rep_of(q), C::spec_syms().len() as int));
        assert(sym_reaches::<C>(
            self.rep_of(q),
            l,
            C::spec_index(C::spec_conj(self.rep_of(q), C::spec_syms()[l])) as int,
        ));
        C::lemma_orbits_meet(self.rep_of(q), C::spec_syms()[i1], self.rep_of(k), C::spec_syms()[i], C::spec_syms()[l]);
        assert(sym_reaches::<C>(self.rep_of(q), l, C::spec_index(self.rep_of(k)) as int));
    }

    /// Number of conjugacy classes for the coordinate.
    pub fn n_conj_classes(&self) -> (r: usize)
        ensures
            r == self.n_classes(),
    {
        self.ssym.len()
    }

    /// Symmetry which brings the coordinate to its conjugacy class representative.
    pub fn canonical_conj(&self, coord: usize) -> (r: Sym)
        requires
            self.wf(),
            coord < C::spec_n_values(),
        ensures
            r == self.conj_of(coord as int),
            r.valid(),
    {
        proof {
            assert(self.entry_ok(coord as int));
        }
        self.conj[coord]
    }

    /// Canonicalize the given cube, applying a transformation so that coordinate is the
    /// representative of its conjugacy class.
    pub fn canonicalize(&self, c: &Cube) -> (r: Cube)
        requires
            self.wf(),
            admissible(C::needs_dr(), *c),
        ensures
            r == self.conj_of(C::spec_index(*c) as int).spec_conj(*c),
            r.wf(),
            keeps_eslice(c.ep) ==> keeps_eslice(r.ep),
            C::complete(*c) ==> C::spec_index(r) == C::spec_index(
                self.rep_of(self.class_of(C::spec_index(*c) as int)),
            ),
            C::complete(*c) ==> self.class_of(C::spec_index(r) as int) == self.class_of(
                C::spec_index(*c) as int,
            ),
            C::complete(*c) ==> forall|y: int|
                0 <= y < C::spec_n_values() && #[trigger] self.class_of(y) == self.class_of(
                    C::spec_index(*c) as int,
                ) ==> C::spec_index(r) <= y,
    {
        let coord = C::index(c);
        let sym = self.canonical_conj(coord);
        let r = sym.conj(c);
        proof {
            if C::complete(*c) {
                let x = coord as int;
                assert(self.entry_ok(x));
                let rep = self.rep_of(self.class_of(x));
                assert(self.class_ok(self.class_of(x)));
                let i = choose|i: int|
                    #[trigger] sym_reaches::<C>(rep, i, x) && self.conj_of(x).code() == sym_inverse(
                        C::spec_syms()[i].code(),
                    );
                let si = C::spec_syms()[i];
                assert(sym == inverse_sym(si)) by {
                    Sym::lemma_from_code(sym);
                }
                C::lemma_conj_back(rep, si, *c, r);
            }
        }
        r
    }

    /// Conjugacy class of the given coordinate.
    pub fn conj_class(&self, coord: usize) -> (r: usize)
        requires
            self.wf(),
            coord < C::spec_n_values(),
        ensures
            r == self.class_of(coord as int),
            r < self.n_classes(),
    {
        proof {
            assert(self.entry_ok(coord as int));
        }
        self.cls[coord]
    }

    /// The self-symmetries of the conjugacy class of the cube's coordinate, in increasing
    /// order of their codes.
    pub fn self_syms(&self, c: &Cube) -> (r: Vec<Sym>)
        requires
            self.wf(),
            admissible(C::needs_dr(), *c),
        ensures
            r@ == syms_of_mask(self.mask_of(self.class_of(C::spec_index(*c) as int)), 16),
            forall|i: int| 0 <= i < r@.len() ==> (#[trigger] r@[i]).valid(),
            r@.len() >= 1,
            r@[0] == Sym::from_code(0),
    {
        let cls = self.conj_class(C::index(c));
        proof {
            let k = self.class_of(C::spec_index(*c) as int);
            assert(self.entry_ok(C::spec_index(*c) as int));
            assert(self.class_ok(k));
            let rep = self.rep_of(k);
            C::lemma_identity_first();
            C::lemma_conj_identity(rep, C::spec_syms()[0]);
            assert(sym_reaches::<C>(rep, 0, C::spec_index(rep) as int));
            assert(bit(self.mask_of(k), 0));
            lemma_identity_first_of_mask(self.mask_of(k), 16);
        }
        let n = self.ssym[cls];
        let mut r: Vec<Sym> = Vec::new();
        let mut j: u16 = 0;
        while j < 16
            invariant
                j <= 16,
                r@ == syms_of_mask(n, j as int),
                forall|i: int| 0 <= i < r@.len() ==> (#[trigger] r@[i]).valid(),
            decreases 16 - j,
        {
            if test_bit(n, j) {
                let s = Sym::from_coord(j as usize);
                proof {
                    Sym::lemma_code_of(j as int);
                    Sym::lemma_from_code(s);
                }
                r.push(s);
            }
            j = j + 1;
        }
        r
    }
}

} // verus!
