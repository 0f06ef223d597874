use libbucharesthashing::prover::default_solve;

#[test]
fn list_search_against_reference() {
    for seed in 0u8..8 {
        let h = [seed; 32];
        assert_eq!(bucharest_solver::solve(&h, 0), default_solve(&h, 0), "seed {seed}");
    }
}

#[test]
fn op_lib_search_against_reference() {
    for seed in 0u8..8 {
        let h = [seed; 32];
        assert_eq!(bucharest_solver::op_lib::solve(&h, 0), default_solve(&h, 0), "seed {seed}");
    }
}

#[test]
fn tracker_search_against_reference() {
    for seed in 0u8..8 {
        let h = [seed; 32];
        if let Some((l, hi)) = bucharest_solver::tracker::solve(&h, 0) {
            assert_eq!(default_solve(&h, l), Some((l, hi)), "seed {seed}");
        } else {
            assert_eq!(default_solve(&h, 0), None, "seed {seed}");
        }
    }
}
