use lib::math::{binom, fact, perm};
use lib::perm::Perm;

#[test]
fn test_index_from_index() {
    for i in 0..720 {
        let p = Perm::<6>::from_index(i);
        assert_eq!(p.index(), i);
    }
}

#[test]
fn test_index_partial_unordered() {
    let p = Perm::<4>::from_dests(&[3, 2, 1, 0]);
    assert_ne!(p.index_partial_unordered(0b0011), 0);

    let p = Perm::<4>::from_dests(&[0, 1, 2, 3]);
    assert_eq!(p.index_partial_unordered(0b0011), 0);

    let p = Perm::<4>::from_dests(&[1, 0, 2, 3]);
    assert_eq!(p.index_partial_unordered(0b0011), 0);

    let mut count = [0; 20];
    for i in 0..720 {
        let p = Perm::<6>::from_index(i);
        let j = p.index_partial_unordered(0b010101);
        count[j] += 1;
    }
    for c in count {
        assert_eq!(c, 720 / 20);
    }
}

#[test]
fn test_identity_index_zero() {
    assert_eq!(Perm::<8>::new().index(), 0);
    assert_eq!(Perm::<8>::from_index(0), Perm::<8>::new());
    assert_eq!(Perm::<4>::from_dests(&[3, 2, 1, 0]).index(), 23);
    assert_eq!(Perm::<3>::from_dests(&[1, 0, 2]).index(), 2);
}

#[test]
fn test_compose_inverse() {
    for i in [0usize, 1, 77, 719] {
        let p = Perm::<6>::from_index(i);
        let inv = p.inverse();
        assert_eq!(p.compose(inv), Perm::<6>::new());
        assert_eq!(inv.compose(p), Perm::<6>::new());
        assert!(inv.is_valid());
    }
}

#[test]
fn test_compose_order() {
    let a = Perm::<3>::from_dests(&[1, 2, 0]);
    let b = Perm::<3>::from_dests(&[0, 2, 1]);
    // a then b: 0 -> 1 -> 2, 1 -> 2 -> 1, 2 -> 0 -> 0
    let ab = a.compose(b);
    assert_eq!((ab.dest(0), ab.dest(1), ab.dest(2)), (2, 1, 0));
}

#[test]
fn test_from_swap_and_cycle() {
    let s = Perm::<5>::from_swap(1, 3);
    assert_eq!((s.dest(0), s.dest(1), s.dest(2), s.dest(3), s.dest(4)), (0, 3, 2, 1, 4));
    let c = Perm::<5>::from_cycle(&[4, 0, 2]);
    assert_eq!((c.dest(0), c.dest(1), c.dest(2), c.dest(3), c.dest(4)), (2, 1, 4, 3, 0));
    assert_eq!(Perm::<5>::from_cycle(&[]), Perm::<5>::new());
}

#[test]
fn test_source_and_validity() {
    let p = Perm::<4>::from_dests(&[2, 0, 3, 1]);
    for i in 0..4 {
        assert_eq!(p.dest(p.source(i)), i);
    }
    assert!(p.is_valid());
    assert!(!Perm::<4>::from_repr(0x0011).is_valid());
    assert_eq!(Perm::<4>::from_repr(0x1302).repr(), 0x1302);
}

#[test]
fn test_mask() {
    let p = Perm::<6>::from_dests(&[4, 1, 0, 5, 2, 3]);
    // 0 -> 4 -> 2 -> 0 stays among {0, 2, 4}; renumbered 0, 1, 2 in the given order.
    let m = p.mask(&[0, 2, 4]);
    assert_eq!((m.dest(0), m.dest(1), m.dest(2)), (2, 0, 1));
    let m = p.mask(&[4, 0, 2]);
    assert_eq!((m.dest(0), m.dest(1), m.dest(2)), (2, 0, 1));
}

#[test]
fn test_math() {
    assert_eq!(fact(0), 1);
    assert_eq!(fact(5), 120);
    assert_eq!(fact(12), 479001600);
    assert_eq!(perm(10, 3), 720);
    assert_eq!(perm(5, 0), 1);
    assert_eq!(binom(12, 4), 495);
    assert_eq!(binom(6, 3), 20);
    assert_eq!(binom(3, 5), 0);
}

#[test]
fn test_cycles() {
    let p = Perm::<5>::from_dests(&[1, 0, 3, 4, 2]);
    assert_eq!(p.cycles(), vec![vec![0, 1], vec![2, 3, 4]]);
    assert_eq!(Perm::<5>::new().cycles(), Vec::<Vec<usize>>::new());
    let q = Perm::<6>::from_dests(&[0, 5, 2, 1, 4, 3]);
    assert_eq!(q.cycles(), vec![vec![1, 5, 3]]);
}

#[test]
fn test_transform() {
    let p = Perm::<3>::from_dests(&[2, 0, 1]);
    assert_eq!(p.transform(&['a', 'b', 'c']), vec!['b', 'c', 'a']);
}

#[test]
fn test_index_partial() {
    // With all the indices, the partial index is the index.
    for i in 0..24 {
        let p = Perm::<4>::from_index(i);
        assert_eq!(p.index_partial(&[0, 1, 2, 3]), i);
    }
    // Keeping the given indices in place gives 0.
    let p = Perm::<5>::from_dests(&[0, 2, 1, 3, 4]);
    assert_eq!(p.index_partial(&[0, 3, 4]), 0);
    // Each of the 4 * 3 placements of two indices comes from 2 of the 24 permutations.
    let mut count = [0; 12];
    for i in 0..24 {
        let j = Perm::<4>::from_index(i).index_partial(&[0, 1]);
        count[j] += 1;
    }
    for c in count {
        assert_eq!(c, 2);
    }
}

#[test]
fn test_transform_compose() {
    let p = Perm::<4>::from_dests(&[1, 2, 3, 0]);
    let q = Perm::<4>::from_dests(&[2, 0, 3, 1]);
    let a = [10, 20, 30, 40];
    let once: [i32; 4] = p.transform(&a).try_into().unwrap();
    let twice = q.transform(&once);
    assert_eq!(twice, p.compose(q).transform(&a));
    assert_eq!(twice, vec![10, 30, 40, 20]);
}

#[test]
fn test_index_partial_unordered_images() {
    // Permutations that send {0, 1} to the same set share the index; others differ.
    let a = Perm::<4>::from_dests(&[1, 0, 2, 3]);
    let b = Perm::<4>::from_dests(&[0, 1, 3, 2]);
    let c = Perm::<4>::from_dests(&[2, 1, 0, 3]);
    assert_eq!(a.index_partial_unordered(0b0011), 0);
    assert_eq!(b.index_partial_unordered(0b0011), 0);
    assert_ne!(c.index_partial_unordered(0b0011), 0);
    let d = Perm::<4>::from_dests(&[1, 2, 0, 3]);
    assert_eq!(c.index_partial_unordered(0b0011), d.index_partial_unordered(0b0011));
    // A two-element set of four elements ranks below C(4, 2) = 6.
    assert!(c.index_partial_unordered(0b0011) < 6);
}

#[test]
fn test_from_index_of_index() {
    let p = Perm::<5>::from_dests(&[3, 0, 4, 1, 2]);
    assert_eq!(Perm::<5>::from_index(p.index()), p);
}

#[test]
fn test_default_and_add() {
    assert_eq!(Perm::<6>::default(), Perm::<6>::new());
    let p = Perm::<4>::from_dests(&[1, 2, 3, 0]);
    let q = Perm::<4>::from_dests(&[2, 0, 3, 1]);
    assert_eq!(p + q, p.compose(q));
}

#[test]
fn test_cycle_notation() {
    let p = Perm::<4>::from_dests(&[3, 1, 0, 2]);
    assert_eq!(p.cycle_notation(), "Perm<4>((0 3 2))");
    let q = Perm::<12>::from_dests(&[1, 0, 2, 3, 4, 5, 6, 7, 8, 9, 11, 10]);
    assert_eq!(q.cycle_notation(), "Perm<12>((0 1)(10 11))");
    assert_eq!(Perm::<3>::new().cycle_notation(), "Perm<3>()");
}
