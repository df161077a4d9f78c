use cnf_dpll_2wl::frames::ImpEdge;
use cnf_dpll_2wl::solver::Solver;

/// Parse DIMACS CNF text the way the external input collaborator does:
/// comment lines are skipped, a `p cnf` line supplies the variable count, and
/// every other line lists literals terminated by a `0` sentinel.
fn parse_cnf(content: &str) -> (usize, Vec<Vec<i32>>) {
    let mut n_vars: usize = 0;
    let mut clauses: Vec<Vec<i32>> = Vec::new();
    for line in content.lines() {
        if line.starts_with('c') || line.is_empty() {
            continue;
        }
        if line.starts_with("p cnf") {
            n_vars = line
                .split_whitespace()
                .nth(2)
                .and_then(|s| s.parse().ok())
                .unwrap_or(0);
            continue;
        }
        let lits: Vec<i32> = line
            .split_whitespace()
            .filter_map(|s| s.parse().ok())
            .take_while(|&x| x != 0)
            .collect();
        clauses.push(lits);
    }
    (n_vars, clauses)
}

/// A clause evaluates true when some literal of it is true under the model.
fn clause_satisfied(assign: &Vec<Option<bool>>, clause: &Vec<i32>) -> bool {
    clause.iter().any(|&l| {
        let v = l.unsigned_abs() as usize;
        assign[v] == Some(l > 0)
    })
}

fn run_cnf(content: &str, expected: bool) {
    let (n_vars, clauses) = parse_cnf(content);
    let mut solver = Solver::from_formula(n_vars, &clauses);
    let result = solver.solve();
    assert_eq!(result, expected, "Failed on CNF:\n{}", content);
    if result {
        for clause in &clauses {
            assert!(
                clause_satisfied(&solver.assign, clause),
                "model does not satisfy {:?} for CNF:\n{}",
                clause,
                content
            );
        }
    }
}

/// Exhaustive reference check over every total assignment, for small inputs.
fn brute_force_sat(n_vars: usize, clauses: &Vec<Vec<i32>>) -> bool {
    let total = 1usize << n_vars;
    'outer: for bits in 0..total {
        let mut assign: Vec<Option<bool>> = vec![None; n_vars + 1];
        for v in 1..=n_vars {
            assign[v] = Some(bits & (1 << (v - 1)) != 0);
        }
        for clause in clauses {
            if !clause_satisfied(&assign, clause) {
                continue 'outer;
            }
        }
        return true;
    }
    false
}

#[test]
fn empty_formula() {
    run_cnf("p cnf 0 0\n", true);
}

#[test]
fn single_var_no_clauses() {
    run_cnf("p cnf 1 0\n", true);
}

#[test]
fn unit_positive() {
    run_cnf("p cnf 1 1\n1 0\n", true);
}

#[test]
fn unit_negative() {
    run_cnf("p cnf 1 1\n-1 0\n", true);
}

#[test]
fn empty_clause() {
    // an empty clause is a permanent contradiction
    run_cnf("p cnf 0 1\n0\n", false);
}

#[test]
fn contradictory_units() {
    run_cnf("p cnf 1 2\n1 0\n-1 0\n", false);
}

#[test]
fn simple_propagation() {
    run_cnf("p cnf 3 3\n1 2 0\n-1 3 0\n-2 -3 0\n", true);
}

#[test]
fn pigeonhole() {
    run_cnf("p cnf 2 3\n1 2 0\n-1 0\n-2 0\n", false);
}

#[test]
fn horn_sat() {
    run_cnf("p cnf 3 3\n-1 -2 3 0\n1 0\n2 0\n", true);
}

#[test]
fn backtrack_unsat() {
    run_cnf("p cnf 3 4\n1 2 0\n1 -2 0\n-1 3 0\n-3 0\n", false);
}

#[test]
fn tautologies() {
    run_cnf("p cnf 2 2\n1 -1 0\n2 -2 0\n", true);
}

#[test]
fn deep_unsat() {
    run_cnf(
        "p cnf 4 7\n1 2 0\n-1 3 0\n-2 -3 4 0\n-4 0\n-1 0\n2 0\n3 0\n",
        false,
    );
}

#[test]
fn chain_with_backtrack() {
    run_cnf(
        "p cnf 5 7\n1 2 3 0\n-1 -2 4 0\n-3 -4 5 0\n-5 0\n1 0\n-2 0\n-3 0\n",
        true,
    );
}

#[test]
fn test_2wl_watcher_movement() {
    run_cnf("p cnf 3 2\n1 2 3 0\n-1 0\n-2 0\n", true);
}

#[test]
fn test_2wl_skip_satisfied() {
    run_cnf("p cnf 3 2\n1 2 3 0\n1 0\n-2 0\n", true);
}

#[test]
fn test_2wl_non_chronological_logic() {
    run_cnf("p cnf 5 5\n1 2 3 4 5 0\n-5 0\n-4 0\n-3 0\n-1 0\n", true);
}

#[test]
fn test_2wl_conflict_at_last_literal() {
    run_cnf("p cnf 2 3\n1 2 0\n-1 0\n-2 0\n", false);
}

#[test]
fn test_2wl_long_clause_unit_propagation() {
    run_cnf(
        "p cnf 10 10\n1 2 3 4 5 6 7 8 9 10 0\n-1 0\n-2 0\n-3 0\n-4 0\n-5 0\n-6 0\n-7 0\n-8 0\n-9 0\n",
        true,
    );
}

#[test]
fn test_2wl_mechanism_proof() {
    let (n_vars, clauses) = parse_cnf("p cnf 5 1\n1 2 3 4 5 0\n");
    let mut solver = Solver::from_formula(n_vars, &clauses);

    let lits_to_falsify: [i32; 3] = [-3, -4, -5];
    for &l in &lits_to_falsify {
        let v = Solver::lit_to_var(l);
        solver.assign[v] = Some(l > 0);
        solver.trail.push(v);
        solver.propagate(l);
    }

    assert_eq!(
        solver.clauses[0].visit_count, 0,
        "Clause visited for unwatched literal!"
    );

    let lit1: i32 = -1;
    solver.assign[1] = Some(false);
    solver.trail.push(1);
    solver.propagate(lit1);

    assert_eq!(
        solver.clauses[0].visit_count, 1,
        "Clause not visited for watched literal!"
    );
}

#[test]
fn test_real_backtrack_sat() {
    run_cnf("p cnf 3 3\n1 2 0\n-1 3 0\n-2 3 0\n", true);
}

#[test]
fn test_long_chain_rollback() {
    run_cnf("p cnf 5 6\n1 -2 0\n2 -3 0\n3 -4 0\n4 -5 0\n5 0\n-1 0\n", false);
}

#[test]
fn test_interleaved_decisions() {
    run_cnf("p cnf 4 5\n1 2 0\n-2 3 0\n-3 4 0\n-4 0\n-1 0\n", false);
}

#[test]
fn test_trail_leak_pollution() {
    run_cnf("p cnf 3 3\n1 2 0\n-1 3 0\n-3 0\n", true);
}

#[test]
fn test_2wl_stagnation_failure() {
    run_cnf("p cnf 3 4\n1 2 3 0\n-1 0\n-3 0\n1 2 0\n", true);
}

#[test]
fn test_zombie_watcher_logic_error() {
    run_cnf("p cnf 3 4\n1 2 3 0\n-1 0\n-2 0\n-3 0\n", false);
}

#[test]
fn watch_invariant_after_propagation() {
    // after a successful propagation no clause with two or more literals
    // watches two false literals
    let (n_vars, clauses) = parse_cnf("p cnf 4 3\n1 2 3 0\n-2 4 1 0\n2 -3 0\n");
    let mut solver = Solver::from_formula(n_vars, &clauses);
    solver.assign[2] = Some(false);
    solver.trail.push(2);
    assert!(solver.propagate(-2));
    for c in &solver.clauses {
        if c.lits.len() >= 2 {
            let w0 = c.lits[c.w0];
            let w1 = c.lits[c.w1];
            let w0_false = solver.assign[w0.unsigned_abs() as usize] == Some(w0 < 0);
            let w1_false = solver.assign[w1.unsigned_abs() as usize] == Some(w1 < 0);
            assert!(!(w0_false && w1_false), "clause watches two false literals");
        }
    }
}

#[test]
fn undo_to_level_clears_exactly_the_suffix() {
    // variables assigned at or after the checkpoint are cleared, the ones
    // before keep their values
    let (n_vars, clauses) = parse_cnf("p cnf 4 1\n1 2 3 4 0\n");
    let mut solver = Solver::from_formula(n_vars, &clauses);
    solver.assign[1] = Some(true);
    solver.trail.push(1);
    solver.trail_limits.push(solver.trail.len());
    solver.assign[2] = Some(false);
    solver.trail.push(2);
    solver.assign[3] = Some(true);
    solver.trail.push(3);
    solver.undo_to_level(0);
    assert_eq!(solver.assign[1], Some(true));
    assert_eq!(solver.assign[2], None);
    assert_eq!(solver.assign[3], None);
    assert_eq!(solver.trail, vec![1]);
    assert_eq!(solver.trail_limits.len(), 0);
}

#[test]
fn probe_leaves_no_residual_state() {
    // probing an implication edge leaves the assignment table, trail and
    // checkpoints exactly as they were, whatever the probe's outcome
    let (n_vars, clauses) = parse_cnf("p cnf 3 2\n-1 -2 3 0\n-1 3 0\n");
    let mut solver = Solver::from_formula(n_vars, &clauses);
    let assign_before = solver.assign.clone();
    let trail_before = solver.trail.clone();
    let limits_before = solver.trail_limits.clone();
    solver.probe_implication(1, 3);
    assert_eq!(solver.assign, assign_before);
    assert_eq!(solver.trail, trail_before);
    assert_eq!(solver.trail_limits, limits_before);
    solver.probe_implication(2, 3);
    assert_eq!(solver.assign, assign_before);
    assert_eq!(solver.trail, trail_before);
    assert_eq!(solver.trail_limits, limits_before);
}

#[test]
fn probing_records_proven_implications() {
    // 1 implies 3 through the binary clause, but 2 alone does not force 3
    let (n_vars, clauses) = parse_cnf("p cnf 3 2\n-1 -2 3 0\n-1 3 0\n");
    let mut solver = Solver::from_formula(n_vars, &clauses);
    assert!(solver.solve());
    assert!(solver.proven.contains(&ImpEdge { from: 1, to: 3 }));
    assert!(!solver.proven.contains(&ImpEdge { from: 2, to: 3 }));
    assert_eq!(solver.pending.len(), 0);
}

#[test]
fn agrees_with_brute_force_on_small_formulas() {
    let cases = [
        "p cnf 3 3\n1 2 0\n-1 3 0\n-2 -3 0\n",
        "p cnf 3 4\n1 2 3 0\n-1 -2 0\n-2 -3 0\n-1 -3 0\n",
        "p cnf 4 6\n1 2 0\n-1 -2 0\n3 4 0\n-3 -4 0\n1 3 0\n-2 -4 0\n",
        "p cnf 2 4\n1 2 0\n1 -2 0\n-1 2 0\n-1 -2 0\n",
        "p cnf 3 2\n-1 -2 3 0\n-3 0\n",
        "p cnf 4 4\n1 -2 0\n2 -3 0\n3 -4 0\n4 -1 0\n",
    ];
    for content in cases {
        let (n_vars, clauses) = parse_cnf(content);
        let mut solver = Solver::from_formula(n_vars, &clauses);
        assert_eq!(
            solver.solve(),
            brute_force_sat(n_vars, &clauses),
            "disagrees with brute force on:\n{}",
            content
        );
    }
}

#[test]
fn duplicate_literals_are_harmless() {
    run_cnf("p cnf 2 2\n1 1 2 0\n-1 -1 0\n", true);
    run_cnf("p cnf 1 2\n1 1 0\n-1 -1 0\n", false);
}

#[test]
fn solved_model_within_declared_variables() {
    let (n_vars, clauses) = parse_cnf("p cnf 3 2\n1 2 0\n-2 3 0\n");
    let mut solver = Solver::from_formula(n_vars, &clauses);
    assert!(solver.solve());
    assert_eq!(solver.assign.len(), n_vars + 1);
    assert_eq!(solver.assign[0], None);
}
