use lib::coord::co::CoordCO;
use lib::coord::cp::CoordCP;
use lib::coord::eo::CoordEO;
use lib::coord::ep::CoordEP;
use lib::coord::eslice::CoordESlice;
use lib::coord::eslice_ep::CoordESliceEP;
use lib::cube::Cube;
use lib::mov::Move;
use lib::pruning::PrunTable;
use lib::solver::{time_up_exec, Solver};

#[test]
fn test_solver_short_scramble() {
    let all = Move::all();
    let drud = Move::drud_moveset();
    let pt_co = PrunTable::<CoordCO, CoordESlice>::new(&all).unwrap();
    let pt_eo = PrunTable::<CoordEO, CoordESlice>::new(&all).unwrap();
    let pt_cp = PrunTable::<CoordCP, CoordESliceEP>::new(&drud).unwrap();
    let pt_ep = PrunTable::<CoordEP, CoordESliceEP>::new(&drud).unwrap();
    assert_eq!(pt_co.eval(&Cube::default()), 0);
    assert_eq!(pt_eo.eval(&Cube::default()), 0);
    assert_eq!(pt_ep.eval(&Cube::default()), 0);

    let scramble = Move::parse_alg("R U F' D2").unwrap();
    let c = Cube::from_moves(&scramble).unwrap();
    let mut s = Solver {
        start: std::time::Instant::now(),
        time_limit: 5_000_000_000,
        best: None,
        stack_dr: Vec::new(),
        stack_fin: Vec::new(),
        pt_co: &pt_co,
        pt_eo: &pt_eo,
        pt_cp: &pt_cp,
        pt_ep: &pt_ep,
        time_count: 0,
        time_over: false,
    };
    s.solve(c);
    let best = s.best.unwrap();
    let mut d = c;
    for m in &best {
        d = d.apply_move(*m);
    }
    assert!(d.is_solved());
    assert!(best.len() <= 4);

    // The solved cube needs no moves.
    let mut s = Solver {
        start: std::time::Instant::now(),
        time_limit: 5_000_000_000,
        best: None,
        stack_dr: Vec::new(),
        stack_fin: Vec::new(),
        pt_co: &pt_co,
        pt_eo: &pt_eo,
        pt_cp: &pt_cp,
        pt_ep: &pt_ep,
        time_count: 0,
        time_over: false,
    };
    s.solve(Cube::default());
    assert_eq!(s.best.map(|b| b.len()), Some(0));
}

#[test]
fn test_time_up() {
    let limit = 1_000_000_000u128;
    assert!(!time_up_exec(900_000_000, limit, true));
    assert!(!time_up_exec(950_000_000, limit, true));
    assert!(time_up_exec(950_000_001, limit, true));
    assert!(!time_up_exec(2_000_000_000, limit, false));
    assert!(time_up_exec(1, 10, true));
    assert!(!time_up_exec(0, 10, true));
}
