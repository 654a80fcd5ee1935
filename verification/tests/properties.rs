use cat_solver::Solver;
use cat_solver::SolverConfig;
use cat_solver::SolverState;

fn solver_with(clauses: &[&[i32]]) -> Solver {
    let mut sat = Solver::new();
    for clause in clauses {
        sat.add_clause(clause);
    }
    sat
}

fn clause_is_true(sat: &Solver, clause: &[i32]) -> bool {
    clause.iter().any(|&lit| sat.value(lit) == Some(true))
}

fn pigeon_hole(num: i32) -> Solver {
    let mut sat: Solver = Solver::new();
    for i in 0..(num + 1) {
        let mut clause: Vec<i32> = Vec::new();
        for j in 0..num {
            clause.push(1 + i * num + j);
        }
        sat.add_clause(&clause);
    }
    for i1 in 0..(num + 1) {
        for i2 in 0..(num + 1) {
            if i1 == i2 {
                continue;
            }
            for j in 0..num {
                let l1 = 1 + i1 * num + j;
                let l2 = 1 + i2 * num + j;
                sat.add_clause(&[-l1, -l2])
            }
        }
    }
    sat
}

#[test]
fn satisfying_assignment_satisfies_every_clause() {
    let clauses: &[&[i32]] = &[&[1, -3], &[2, 3, -1], &[-2, -3], &[4, 5], &[-4, -5], &[1, 4]];
    let mut sat = solver_with(clauses);
    assert_eq!(sat.solve(), Some(true));
    for clause in clauses {
        assert!(clause_is_true(&sat, clause));
    }
}

#[test]
fn pigeonhole_formulas_are_unsatisfiable() {
    for n in 1..=4 {
        let mut sat = pigeon_hole(n);
        assert_eq!(sat.solve(), Some(false));
    }
}

#[test]
fn unit_clauses_fix_variable_values() {
    let mut sat = solver_with(&[&[1], &[-2], &[1, 2]]);
    assert_eq!(sat.solve(), Some(true));
    assert_eq!(sat.value(1), Some(true));
    assert_eq!(sat.value(2), Some(false));
}

#[test]
fn contradictory_binary_clauses_are_unsatisfiable() {
    let mut sat = solver_with(&[&[1, 2], &[-1], &[-2]]);
    assert_eq!(sat.solve(), Some(false));
}

#[test]
fn empty_formula_is_satisfiable() {
    let mut sat = Solver::new();
    assert_eq!(sat.solve(), Some(true));
}

#[test]
fn empty_clause_is_unsatisfiable() {
    let mut sat = Solver::new();
    sat.add_clause(&[]);
    assert_eq!(sat.solve(), Some(false));
}

#[test]
fn reserve_extends_variable_range() {
    let mut sat = Solver::new();
    sat.reserve(4);
    sat.add_clause(&[1]);
    assert_eq!(sat.solve(), Some(true));
    assert_eq!(sat.value(1), Some(true));
    // Reserved but unconstrained variables still get some value.
    assert!(sat.value(4).is_some());
}

#[test]
fn unreserved_variable_is_dont_care() {
    let mut sat = Solver::new();
    sat.add_clause(&[1]);
    assert_eq!(sat.solve(), Some(true));
    assert_eq!(sat.value(100), None);
    assert_eq!(sat.value(-100), None);
}

#[test]
fn limited_solve_never_answers_wrongly() {
    // A limit small enough to stop the search must yield an unknown outcome,
    // not a wrong definite answer.
    let mut sat = pigeon_hole(6);
    sat.set_limit("decisions", 1).unwrap();
    assert_eq!(sat.solve(), None);
}

#[test]
fn techniques_are_toggleable_without_changing_answers() {
    let configs = [
        SolverConfig { subsumption: true, vivification: true, probing: true },
        SolverConfig { subsumption: false, vivification: false, probing: false },
        SolverConfig { subsumption: true, vivification: false, probing: false },
        SolverConfig { subsumption: false, vivification: true, probing: false },
        SolverConfig { subsumption: false, vivification: false, probing: true },
    ];
    for cfg in configs {
        let mut sat = Solver::with_config(cfg);
        sat.add_clause(&[1, 2]);
        sat.add_clause(&[-1, 2]);
        sat.add_clause(&[-2, 3]);
        assert_eq!(sat.solve(), Some(true));
        // Both 2 and 3 are forced in every model, whatever passes ran.
        assert_eq!(sat.value(2), Some(true));
        assert_eq!(sat.value(3), Some(true));
        let mut uns = Solver::with_config(cfg);
        uns.add_clause(&[1, 2]);
        uns.add_clause(&[-1]);
        uns.add_clause(&[-2]);
        assert_eq!(uns.solve(), Some(false));
    }
}

#[test]
fn state_tracks_the_session_phase() {
    let mut sat = Solver::new();
    assert_eq!(sat.state(), SolverState::Input);
    sat.add_clause(&[1]);
    assert_eq!(sat.state(), SolverState::Input);
    assert_eq!(sat.solve(), Some(true));
    assert_eq!(sat.state(), SolverState::Satisfied);

    let mut refuted = Solver::new();
    refuted.add_clause(&[]);
    assert_eq!(refuted.solve(), Some(false));
    assert_eq!(refuted.state(), SolverState::Unsatisfied);

    let mut limited = pigeon_hole(5);
    limited.set_limit("decisions", 1).unwrap();
    assert_eq!(limited.solve(), None);
    assert_eq!(limited.state(), SolverState::Interrupted);
}

fn solve_and_read(clauses: &[&[i32]], max_var: i32) -> (Option<bool>, Vec<Option<bool>>) {
    let mut sat = solver_with(clauses);
    let outcome = sat.solve();
    let mut values = Vec::new();
    if outcome == Some(true) {
        for v in 1..=max_var {
            values.push(sat.value(v));
        }
    }
    (outcome, values)
}

#[test]
fn repeated_solves_are_deterministic() {
    let clauses: &[&[i32]] = &[&[1, 2, 3], &[-1, -2], &[-2, -3], &[-1, -3], &[2, 4], &[-4, 1]];
    let first = solve_and_read(clauses, 4);
    for _ in 0..5 {
        let again = solve_and_read(clauses, 4);
        assert_eq!(first, again);
    }
}

#[test]
fn repeated_bare_solves_are_deterministic() {
    // With every inprocessing pass off, the whole outcome and model are
    // functionally determined by the contracts; check it holds at run time
    // too, with a limit in force as well.
    let clauses: &[&[i32]] = &[&[1, 2, 3], &[-1, -2], &[-2, -3], &[-1, -3], &[2, 4], &[-4, 1]];
    let off = SolverConfig { subsumption: false, vivification: false, probing: false };
    let run = || {
        let mut sat = Solver::with_config(off);
        for clause in clauses {
            sat.add_clause(clause);
        }
        sat.set_limit("decisions", 50).unwrap();
        let outcome = sat.solve();
        let mut values = Vec::new();
        if outcome == Some(true) {
            for v in 1..=4 {
                values.push(sat.value(v));
            }
        }
        (outcome, values)
    };
    let first = run();
    for _ in 0..5 {
        assert_eq!(first, run());
    }
}
