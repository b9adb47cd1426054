use two_sat::TwoSAT;

type Clause = (usize, bool, usize, bool);

fn instance(num_variables: usize, clauses: &[Clause]) -> TwoSAT {
    let mut sat = TwoSAT::new(num_variables);
    for &(x, x_neg, y, y_neg) in clauses {
        sat.add_clause(x, x_neg, y, y_neg);
    }
    sat
}

fn holds(assignment: &[bool], clause: Clause) -> bool {
    let (x, x_neg, y, y_neg) = clause;
    (assignment[x] != x_neg) || (assignment[y] != y_neg)
}

fn node(var: usize, negated: bool) -> usize {
    2 * var + if negated { 1 } else { 0 }
}

/// No edge of the implication graph leads from a smaller id to a larger one.
fn in_reverse_topological_order(component: &[usize], clauses: &[Clause]) -> bool {
    clauses.iter().all(|&(x, x_neg, y, y_neg)| {
        let first = node(x, x_neg);
        let second = node(y, y_neg);
        component[first ^ 1] >= component[second] && component[second ^ 1] >= component[first]
    })
}

#[test]
fn fresh_instance_is_all_false() {
    let sat = TwoSAT::new(3);
    assert_eq!(sat.get_assignment(), vec![false, false, false]);
}

#[test]
fn no_variables_is_satisfiable() {
    let mut sat = TwoSAT::new(0);
    assert!(sat.solve());
    assert_eq!(sat.get_assignment(), Vec::<bool>::new());
    assert_eq!(sat.compute_scc(), Vec::<usize>::new());
}

#[test]
fn no_clauses_is_satisfiable() {
    let mut sat = TwoSAT::new(3);
    assert!(sat.solve());
    assert_eq!(sat.get_assignment(), vec![false, false, false]);
    assert_eq!(sat.compute_scc(), vec![5, 4, 3, 2, 1, 0]);
}

#[test]
fn repeated_positive_literal() {
    let clauses = [(0, false, 0, false)];
    let mut sat = instance(1, &clauses);
    assert!(sat.solve());
    assert_eq!(sat.compute_scc(), vec![0, 1]);
    let assignment = sat.get_assignment();
    assert_eq!(assignment, vec![true]);
    assert!(holds(&assignment, clauses[0]));
}

#[test]
fn repeated_negative_literal() {
    let clauses = [(0, true, 0, true)];
    let mut sat = instance(1, &clauses);
    assert!(sat.solve());
    assert_eq!(sat.compute_scc(), vec![1, 0]);
    let assignment = sat.get_assignment();
    assert_eq!(assignment, vec![false]);
    assert!(holds(&assignment, clauses[0]));
}

#[test]
fn variable_forced_both_ways() {
    let mut sat = instance(1, &[(0, false, 0, false), (0, true, 0, true)]);
    assert!(!sat.solve());
    assert_eq!(sat.compute_scc(), vec![0, 0]);
    assert_eq!(sat.get_assignment(), vec![false]);
}

#[test]
fn one_clause_over_two_variables() {
    let clauses = [(0, false, 1, false)];
    let mut sat = instance(2, &clauses);
    assert!(sat.solve());
    let component = sat.compute_scc();
    assert_eq!(component, vec![2, 1, 0, 3]);
    assert!(in_reverse_topological_order(&component, &clauses));
    let assignment = sat.get_assignment();
    assert!(assignment[0] || assignment[1]);
    assert_eq!(assignment, vec![false, true]);
}

#[test]
fn chain_of_implications() {
    // x0 -> x1, x1 -> x2, x2 -> not x0
    let clauses = [(0, true, 1, false), (1, true, 2, false), (2, true, 0, true)];
    let mut sat = instance(3, &clauses);
    assert!(sat.solve());
    let component = sat.compute_scc();
    assert_eq!(component, vec![5, 0, 2, 3, 1, 4]);
    assert!(in_reverse_topological_order(&component, &clauses));
    let assignment = sat.get_assignment();
    assert_eq!(assignment, vec![false, true, true]);
    assert!(!assignment[0] || assignment[1]);
    assert!(!assignment[1] || assignment[2]);
    assert!(!assignment[2] || !assignment[0]);
    for clause in clauses {
        assert!(holds(&assignment, clause));
    }
}

#[test]
fn tautology_is_satisfiable() {
    let clauses = [(0, false, 0, true)];
    let mut sat = instance(1, &clauses);
    assert!(sat.solve());
    assert_eq!(sat.compute_scc(), vec![1, 0]);
    let assignment = sat.get_assignment();
    assert_eq!(assignment, vec![false]);
    assert!(holds(&assignment, clauses[0]));
}

#[test]
fn clause_of_two_negative_literals() {
    let clauses = [(0, true, 1, true)];
    let mut sat = instance(2, &clauses);
    assert!(sat.solve());
    let component = sat.compute_scc();
    assert_eq!(component, vec![3, 1, 2, 0]);
    assert!(in_reverse_topological_order(&component, &clauses));
    let assignment = sat.get_assignment();
    assert_eq!(assignment, vec![false, false]);
    assert!(holds(&assignment, clauses[0]));
}

#[test]
fn all_four_clauses_over_two_variables() {
    let mut sat = instance(
        2,
        &[(0, false, 1, false), (0, true, 1, false), (0, false, 1, true), (0, true, 1, true)],
    );
    assert!(!sat.solve());
    assert_eq!(sat.compute_scc(), vec![0, 0, 0, 0]);
    assert_eq!(sat.get_assignment(), vec![false, false]);
}

#[test]
fn equal_variables_share_components() {
    // x0 <-> x1
    let clauses = [(0, false, 1, true), (0, true, 1, false)];
    let mut sat = instance(2, &clauses);
    assert!(sat.solve());
    assert_eq!(sat.compute_scc(), vec![1, 0, 1, 0]);
    let assignment = sat.get_assignment();
    assert_eq!(assignment, vec![false, false]);
    for clause in clauses {
        assert!(holds(&assignment, clause));
    }
}

#[test]
fn cycle_of_four_variables() {
    let clauses = [(0, false, 1, true), (1, false, 2, true), (2, false, 3, true), (3, false, 0, true)];
    let mut sat = instance(4, &clauses);
    assert!(sat.solve());
    assert_eq!(sat.compute_scc(), vec![1, 0, 1, 0, 1, 0, 1, 0]);
    let assignment = sat.get_assignment();
    assert_eq!(assignment, vec![false, false, false, false]);
    for clause in clauses {
        assert!(holds(&assignment, clause));
    }
}

#[test]
fn mixed_formula() {
    let clauses = [(0, false, 1, false), (1, true, 2, false), (2, true, 0, true), (0, true, 1, true)];
    let mut sat = instance(3, &clauses);
    assert!(sat.solve());
    let component = sat.compute_scc();
    assert_eq!(component, vec![1, 0, 0, 1, 0, 1]);
    assert!(in_reverse_topological_order(&component, &clauses));
    let assignment = sat.get_assignment();
    assert_eq!(assignment, vec![false, true, true]);
    for clause in clauses {
        assert!(holds(&assignment, clause));
    }
}

#[test]
fn every_clause_holds_under_the_assignment() {
    let clauses = [
        (0, false, 1, false),
        (1, true, 2, false),
        (2, true, 3, true),
        (3, false, 4, false),
        (4, true, 0, false),
        (2, false, 4, true),
    ];
    let mut sat = instance(5, &clauses);
    assert!(sat.solve());
    let component = sat.compute_scc();
    assert_eq!(component, vec![0, 5, 2, 3, 1, 4, 4, 1, 1, 4]);
    assert!(in_reverse_topological_order(&component, &clauses));
    let assignment = sat.get_assignment();
    assert_eq!(assignment, vec![true, true, true, false, true]);
    for clause in clauses {
        assert!(holds(&assignment, clause));
    }
}

#[test]
fn same_clauses_same_assignment() {
    let clauses = [(0, true, 1, false), (1, true, 2, false), (2, true, 0, true), (3, false, 1, true)];
    let mut first = instance(4, &clauses);
    let mut second = instance(4, &clauses);
    assert_eq!(first.solve(), second.solve());
    assert_eq!(first.get_assignment(), second.get_assignment());
    assert_eq!(first.compute_scc(), second.compute_scc());
}

#[test]
fn solving_twice_changes_nothing() {
    let mut sat = instance(3, &[(0, true, 1, false), (1, true, 2, false), (2, true, 0, true)]);
    let first = sat.solve();
    let assignment = sat.get_assignment();
    let second = sat.solve();
    assert_eq!(first, second);
    assert_eq!(sat.get_assignment(), assignment);

    let mut unsat = instance(1, &[(0, false, 0, false), (0, true, 0, true)]);
    assert!(!unsat.solve());
    assert!(!unsat.solve());
    assert_eq!(unsat.get_assignment(), vec![false]);
}

#[test]
fn nodes_of_a_variable_lie_apart() {
    let clauses = [(0, true, 1, false), (1, true, 2, false), (2, true, 0, true), (3, false, 1, true)];
    let mut sat = instance(4, &clauses);
    assert!(sat.solve());
    let component = sat.compute_scc();
    assert_eq!(component, vec![7, 1, 3, 4, 2, 6, 0, 5]);
    assert!(in_reverse_topological_order(&component, &clauses));
    for node in 0..8 {
        assert_ne!(component[node], component[node ^ 1]);
    }
    let assignment = sat.get_assignment();
    assert_eq!(assignment, vec![false, true, true, true]);
    for clause in clauses {
        assert!(holds(&assignment, clause));
    }
}

#[test]
fn failed_solve_keeps_the_buffer() {
    let mut sat = instance(1, &[(0, false, 0, false)]);
    assert!(sat.solve());
    assert_eq!(sat.get_assignment(), vec![true]);
    sat.add_clause(0, true, 0, true);
    assert!(!sat.solve());
    assert_eq!(sat.get_assignment(), vec![true]);
}

#[test]
fn clauses_may_be_added_after_solving() {
    let mut sat = TwoSAT::new(2);
    assert!(sat.solve());
    assert_eq!(sat.get_assignment(), vec![false, false]);
    sat.add_clause(0, false, 1, true);
    assert!(sat.solve());
    assert_eq!(sat.compute_scc(), vec![2, 1, 3, 0]);
    let assignment = sat.get_assignment();
    assert_eq!(assignment, vec![false, false]);
    assert!(holds(&assignment, (0, false, 1, true)));
}

#[test]
fn long_chain_needs_no_deep_recursion() {
    let n = 200_000;
    let mut sat = TwoSAT::new(n);
    sat.add_clause(0, false, 0, false);
    for v in 0..n - 1 {
        sat.add_clause(v, true, v + 1, false);
    }
    assert!(sat.solve());
    let assignment = sat.get_assignment();
    assert_eq!(assignment, vec![true; n]);
}

#[test]
fn random_formulas_agree_with_exhaustive_search() {
    let mut state: u64 = 0x2545_f491_4f6c_dd1d;
    let mut next = move |bound: u64| {
        state ^= state << 13;
        state ^= state >> 7;
        state ^= state << 17;
        state % bound
    };
    for _ in 0..2000 {
        let n = 1 + next(6) as usize;
        let m = next(11) as usize;
        let mut clauses: Vec<Clause> = Vec::new();
        for _ in 0..m {
            clauses.push((next(n as u64) as usize, next(2) == 1, next(n as u64) as usize, next(2) == 1));
        }
        let satisfiable = (0..1u32 << n).any(|bits| {
            let candidate: Vec<bool> = (0..n).map(|v| (bits >> v) & 1 == 1).collect();
            clauses.iter().all(|&clause| holds(&candidate, clause))
        });
        let mut sat = instance(n, &clauses);
        assert_eq!(sat.solve(), satisfiable);
        let component = sat.compute_scc();
        assert!(in_reverse_topological_order(&component, &clauses));
        if satisfiable {
            let assignment = sat.get_assignment();
            assert_eq!(assignment.len(), n);
            for &clause in &clauses {
                assert!(holds(&assignment, clause));
            }
        } else {
            assert_eq!(sat.get_assignment(), vec![false; n]);
        }
    }
}
