use cat_solver::simplify::eliminate_pure;
use cat_solver::simplify::probe;
use cat_solver::simplify::subsume;
use cat_solver::simplify::vivify_clause;
use cat_solver::Solver;

#[test]
fn subsumption_removes_supersets_and_duplicates() {
    let f: Vec<Vec<i32>> = vec![vec![1, 2], vec![1, 2, 3], vec![1, 2], vec![-3]];
    let r = subsume(&f);
    assert_eq!(r, vec![vec![1, 2], vec![-3]]);
}

#[test]
fn subsumption_twice_changes_nothing() {
    let f: Vec<Vec<i32>> = vec![vec![3, 1], vec![1], vec![2, -3], vec![2, -3, 4], vec![1, 3]];
    let once = subsume(&f);
    let twice = subsume(&once);
    assert_eq!(once, twice);
}

#[test]
fn subsumption_keeps_satisfying_assignments() {
    let f: Vec<Vec<i32>> = vec![vec![1, 2], vec![1, 2, 3], vec![-1, 3], vec![-1, 3, 3]];
    let r = subsume(&f);
    let mut original = Solver::new();
    for c in &f {
        original.add_clause(c);
    }
    let mut reduced = Solver::new();
    for c in &r {
        reduced.add_clause(c);
    }
    reduced.reserve(3);
    assert_eq!(original.solve(), Some(true));
    assert_eq!(reduced.solve(), Some(true));
    // A model of the reduced formula satisfies every original clause.
    for clause in &f {
        assert!(clause.iter().any(|&lit| reduced.value(lit) == Some(true)));
    }
}

#[test]
fn impure_literal_is_not_eliminated() {
    let f: Vec<Vec<i32>> = vec![vec![1, 2], vec![-1, 3]];
    assert!(eliminate_pure(&f, 1, 3).is_none());
}

#[test]
fn pure_literal_elimination_drops_its_clauses() {
    let f: Vec<Vec<i32>> = vec![vec![1, 2], vec![1, -3], vec![2, 3], vec![-2, -3]];
    let g = eliminate_pure(&f, 1, 3).unwrap();
    assert_eq!(g, vec![vec![2, 3], vec![-2, -3]]);
}

#[test]
fn pure_literal_elimination_twice_changes_nothing() {
    let f: Vec<Vec<i32>> = vec![vec![1, 2], vec![1, -3], vec![2, 3]];
    let once = eliminate_pure(&f, 1, 3).unwrap();
    let twice = eliminate_pure(&once, 1, 3).unwrap();
    assert_eq!(once, twice);
}

fn outcome_of(clauses: &[Vec<i32>], max_var: i32) -> Option<bool> {
    let mut sat = Solver::new();
    sat.reserve(max_var);
    for c in clauses {
        sat.add_clause(c);
    }
    sat.solve()
}

#[test]
fn pure_literal_elimination_preserves_satisfiability() {
    let f: Vec<Vec<i32>> = vec![vec![1, 2], vec![1, -3], vec![2, 3], vec![-2, -3]];
    let g = eliminate_pure(&f, 1, 3).unwrap();
    assert_eq!(outcome_of(&f, 3), Some(true));
    assert_eq!(outcome_of(&g, 3), Some(true));
}

#[test]
fn pure_literal_elimination_preserves_unsatisfiability() {
    let f: Vec<Vec<i32>> = vec![vec![1, 2], vec![-2], vec![2]];
    let g = eliminate_pure(&f, 1, 2).unwrap();
    assert_eq!(outcome_of(&f, 2), Some(false));
    assert_eq!(outcome_of(&g, 2), Some(false));
}

#[test]
fn probing_detects_a_failed_literal() {
    // Assuming 1 propagates 2 and then falsifies the second clause, so every
    // model makes 1 false.
    let f: Vec<Vec<i32>> = vec![vec![-1, 2], vec![-1, -2], vec![1, 3]];
    assert!(probe(&f, 1, 3));
    let mut sat = Solver::new();
    for c in &f {
        sat.add_clause(c);
    }
    assert_eq!(sat.solve(), Some(true));
    assert_eq!(sat.value(1), Some(false));
}

#[test]
fn probing_claims_nothing_without_a_conflict() {
    let f: Vec<Vec<i32>> = vec![vec![1, 2], vec![-2, 3]];
    assert!(!probe(&f, 1, 3));
    // Probing twice sees the same, unchanged formula.
    assert!(!probe(&f, 1, 3));
}

#[test]
fn vivification_shortens_an_implied_clause() {
    // Assuming the negation of 2 propagates 1 through the unit clause and
    // falsifies the second clause, so the third clause shrinks to [2].
    let f: Vec<Vec<i32>> = vec![vec![1], vec![-1, 2], vec![2, 3, 4]];
    assert_eq!(vivify_clause(&f, 2, 4), Some(vec![2]));
    // The shortened formula keeps the same satisfying assignments.
    let g: Vec<Vec<i32>> = vec![vec![1], vec![-1, 2], vec![2]];
    let mut original = Solver::new();
    let mut shortened = Solver::new();
    for c in &f {
        original.add_clause(c);
    }
    for c in &g {
        shortened.add_clause(c);
    }
    assert_eq!(original.solve(), Some(true));
    assert_eq!(shortened.solve(), Some(true));
}

#[test]
fn vivification_leaves_an_irreducible_clause_alone() {
    let f: Vec<Vec<i32>> = vec![vec![1, 2]];
    assert_eq!(vivify_clause(&f, 0, 2), None);
    // Vivification reads the formula and never changes it, so a second run
    // sees the same formula and reports the same.
    assert_eq!(vivify_clause(&f, 0, 2), None);
}

#[test]
fn elimination_witness_extends_models() {
    let f: Vec<Vec<i32>> = vec![vec![1, -2], vec![2, 3], vec![-3, 2]];
    let g = eliminate_pure(&f, 1, 3).unwrap();
    let mut sat = Solver::new();
    sat.reserve(3);
    for c in &g {
        sat.add_clause(c);
    }
    assert_eq!(sat.solve(), Some(true));
    // Reconstruction rule for the eliminated variable: make literal 1 hold.
    let value = |v: i32| -> bool {
        if v == 1 {
            true
        } else {
            sat.value(v) == Some(true)
        }
    };
    for clause in &f {
        assert!(clause.iter().any(|&lit| if lit > 0 { value(lit) } else { !value(-lit) }));
    }
}
