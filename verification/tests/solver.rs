use cat_solver::Solver;
use cat_solver::Error;

#[test]
fn solver() {
    let mut sat: Solver = Solver::new();
    assert!(sat.signature().starts_with("cat-solver-"));
    sat.add_clause(&[1, 2]);
    assert_eq!(sat.solve(), Some(true));
    sat = Solver::new();
    sat.add_clause(&[1, 2]);
    sat.add_clause(&[-1]);
    sat.add_clause(&[-2]);
    assert_eq!(sat.solve(), Some(false));
}

fn pigeon_hole(num: i32) -> Solver {
    let mut sat: Solver = Solver::new();
    for i in 0..(num + 1) {
        let mut clause: Vec<i32> = Vec::new();
        for j in 0..num {
            clause.push(1 + i * num + j);
        }
        sat.add_clause(&clause);
    }
    for i1 in 0..(num + 1) {
        for i2 in 0..(num + 1) {
            if i1 == i2 {
                continue;
            }
            for j in 0..num {
                let l1 = 1 + i1 * num + j;
                let l2 = 1 + i2 * num + j;
                sat.add_clause(&[-l1, -l2])
            }
        }
    }
    sat
}

#[test]
fn decision_limit() {
    let mut sat = pigeon_hole(5);
    sat.set_limit("decisions", 100).unwrap();
    let result = sat.solve();
    assert_eq!(result, None);
}

#[test]
fn conflict_limit() {
    let mut sat = pigeon_hole(5);
    sat.set_limit("conflicts", 100).unwrap();
    let result = sat.solve();
    assert_eq!(result, None);
}

#[test]
fn bad_limit() {
    let mut sat = pigeon_hole(5);
    assert!(sat.set_limit("bad", 0) == Err(Error::new("unknown limit")));
}
