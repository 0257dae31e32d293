use lib::cube::Cube;
use lib::mov::Move;
use lib::sym::Sym;

#[test]
fn test_inverse() {
    for coord in 0..16 {
        let s = Sym::from_coord(coord);
        let res = s.compose(s.inverse());
        assert_eq!(res.coord(), 0);
    }
}

#[test]
fn test_conj() {
    for coord in 0..16 {
        let s = Sym::from_coord(coord);
        let c = Cube::default();
        assert!(s.conj(&c).is_solved());
    }
}

#[test]
fn test_sym_group() {
    for a in 0..16 {
        let sa = Sym::from_coord(a);
        assert_eq!(sa.compose(Sym::UF()).coord(), a);
        assert_eq!(Sym::UF().compose(sa).coord(), a);
        assert_eq!(sa.inverse().compose(sa).coord(), 0);
        for b in 0..16 {
            for c in 0..16 {
                let sb = Sym::from_coord(b);
                let sc = Sym::from_coord(c);
                assert_eq!(
                    sa.compose(sb).compose(sc).coord(),
                    sa.compose(sb.compose(sc)).coord()
                );
            }
        }
    }
}

#[test]
fn test_named_syms() {
    let named = [
        Sym::UF(),
        Sym::UR(),
        Sym::UB(),
        Sym::UL(),
        Sym::DB(),
        Sym::DR(),
        Sym::DF(),
        Sym::DL(),
        Sym::UF2(),
        Sym::UR2(),
        Sym::UB2(),
        Sym::UL2(),
        Sym::DB2(),
        Sym::DR2(),
        Sym::DF2(),
        Sym::DL2(),
    ];
    for (i, s) in named.iter().enumerate() {
        assert_eq!(s.coord(), i);
    }
}

#[test]
fn test_conjugators() {
    let expect = [
        (0x0000u16, 0x0000u16, 0xba9876543210u64, 0x76543210u64),
        (0, 0, 0x8ba947650321, 0x47650321),
        (0, 0, 0x98ba54761032, 0x54761032),
        (0, 0, 0xa98b65472103, 0x65472103),
        (0, 0, 0x89ab30127456, 0x01234567),
        (0, 0, 0xb89a23016745, 0x30127456),
        (0, 0, 0xab8912305674, 0x23016745),
        (0, 0, 0x9ab801234567, 0x12305674),
        (0, 0, 0xab8956741230, 0x67452301),
        (0, 0, 0x9ab845670123, 0x56741230),
        (0, 0, 0x89ab74563012, 0x45670123),
        (0, 0, 0xb89a67452301, 0x74563012),
        (0, 0, 0x98ba10325476, 0x10325476),
        (0, 0, 0xa98b21036547, 0x21036547),
        (0, 0, 0xba9832107654, 0x32107654),
        (0, 0, 0x8ba903214765, 0x03214765),
    ];
    for (i, (eo, co, ep, cp)) in expect.iter().enumerate() {
        let s = Sym::from_coord(i);
        assert_eq!(s.conjugator(), Cube::from_repr(*eo, *co, *ep, *cp));
    }
}

#[test]
fn test_conj_parts() {
    let c = Cube::from_moves(&[Move::R, Move::U, Move::F2, Move::L3]).unwrap();
    for i in 0..16 {
        let s = Sym::from_coord(i);
        let full = s.conj(&c);
        let e = s.conj_edges(&c);
        let k = s.conj_corners(&c);
        assert_eq!((e.eo, e.ep), (full.eo, full.ep));
        assert_eq!((k.co, k.cp), (full.co, full.cp));
        assert_eq!((e.co, e.cp), (c.co, c.cp));
        assert_eq!((k.eo, k.ep), (c.eo, c.ep));
        // Conjugating back by the inverse symmetry restores the cube.
        assert_eq!(s.inverse().conj(&full), c);
    }
    // The identity symmetry changes nothing.
    assert_eq!(Sym::UF().conj(&c), c);
}

#[test]
fn test_conj_compose() {
    let c = Cube::from_moves(&[Move::R, Move::U, Move::F2, Move::L3, Move::D]).unwrap();
    for a in 0..16 {
        let s = Sym::from_coord(a);
        for b in 0..16 {
            let t = Sym::from_coord(b);
            assert_eq!(t.conj(&s.conj(&c)), t.compose(s).conj(&c));
        }
    }
}

#[test]
fn test_compose_codes_and_conjugators() {
    assert_eq!(Sym::UR().compose(Sym::DB()).coord(), 5);
    assert_eq!(Sym::DB().compose(Sym::UR()).coord(), 7);
    for a in 0..16 {
        for b in 0..16 {
            let s = Sym::from_coord(a);
            let t = Sym::from_coord(b);
            assert_eq!(s.compose(t).conjugator(), s.conjugator().compose(&t.conjugator()));
        }
    }
}

#[test]
fn test_conj_distributes() {
    let a = Cube::from_moves(&[Move::R, Move::U, Move::F2, Move::L3]).unwrap();
    let b = Cube::from_moves(&[Move::D, Move::B3, Move::R2]).unwrap();
    for k in 0..16 {
        let s = Sym::from_coord(k);
        assert_eq!(s.conj(&a.compose(&b)), s.conj(&a).compose(&s.conj(&b)));
    }
    assert_eq!(Sym::UF().conj(&a), a);
}
