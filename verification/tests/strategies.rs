use booleanium::alternation::{solve_certified, EXPANSION_BUDGET};
use booleanium::incdet::determinacy::dpll;
use booleanium::incdet::{IncDet, Options};
use booleanium::incremental::IncrementalSolver;
use booleanium::literal::{Lit, Var};
use booleanium::qcnf::QCNF;
use booleanium::simplify::simplify;
use booleanium::strategy::Strategy;
use booleanium::strategy_check::verify_strategy;
use booleanium::{QuantTy, SolverResult};
use std::collections::HashMap;
use std::rc::Rc;

fn lit(number: i32) -> Lit {
    Lit::from_dimacs(number)
}

fn var(number: i32) -> Var {
    Var::from_dimacs(number)
}

fn formula(prefix: &[(QuantTy, &[u32])], matrix: &[&[i32]]) -> QCNF {
    QCNF::new(prefix, matrix)
}

fn constants(numbers: &[i32]) -> Strategy {
    Strategy::Choose { constants: numbers.iter().map(|&n| lit(n)).collect(), rest: Rc::new(Strategy::Done) }
}

#[test]
fn constant_choice_is_accepted() {
    let q = formula(&[(QuantTy::Forall, &[1]), (QuantTy::Exists, &[2])], &[&[1, 2]]);
    assert!(!verify_strategy(&q, &Strategy::Done));
    assert!(verify_strategy(&q, &constants(&[2])));
    assert!(!verify_strategy(&q, &constants(&[-2])));
}

#[test]
fn split_and_expanded_strategies_are_checked() {
    // 2 must differ from 1
    let q = formula(&[(QuantTy::Forall, &[1]), (QuantTy::Exists, &[2])], &[&[1, 2], &[-1, -2]]);
    let split = Strategy::Split {
        cases: vec![(vec![lit(1)], Rc::new(constants(&[-2]))), (vec![lit(-1)], Rc::new(constants(&[2])))],
    };
    assert!(verify_strategy(&q, &split));
    let swapped = Strategy::Split {
        cases: vec![(vec![lit(1)], Rc::new(constants(&[2]))), (vec![lit(-1)], Rc::new(constants(&[-2])))],
    };
    assert!(!verify_strategy(&q, &swapped));
    let expanded = Strategy::Expanded {
        copies: vec![(vec![lit(1)], vec![(var(2), var(3))]), (vec![lit(-1)], vec![(var(2), var(4))])],
        rest: Rc::new(constants(&[-3, 4])),
    };
    assert!(verify_strategy(&q, &expanded));
}

#[test]
fn constants_render_without_gates() {
    let names = HashMap::new();
    assert_eq!(
        constants(&[1, -2]).to_aiger(&vec![var(3)], &names),
        "aag 1 1 0 2 0\n2\n1\n0\ni0 3\no0 1\no1 2\n"
    );
    let names = HashMap::from([(2, "v2".to_string()), (3, "v3".to_string())]);
    assert_eq!(
        constants(&[1, -2]).to_smtlib(&vec![var(3)], &names),
        "(\n  (define-fun v2 ((v3 Bool)) Bool false)\n)\n"
    );
}

#[test]
fn evaluation_keeps_other_keys_and_drops_copies() {
    let strategy = Strategy::Expanded {
        copies: vec![(vec![lit(-2)], vec![(var(3), var(4))]), (vec![lit(2)], vec![(var(3), var(5))])],
        rest: Rc::new(Strategy::Fixed { assignments: vec![lit(4), lit(-5)], rest: Rc::new(Strategy::Done) }),
    };
    let mut values = HashMap::from([(-7, true), (0, false)]);
    strategy.evaluate(&[2], &mut values);
    assert_eq!(values, HashMap::from([(-7, true), (0, false), (3, false)]));
    let mut values = HashMap::new();
    strategy.evaluate(&[-2], &mut values);
    assert_eq!(values, HashMap::from([(3, true)]));
}

#[test]
fn certified_strategies_verify() {
    let prefix: &[(QuantTy, &[u32])] =
        &[(QuantTy::Exists, &[1]), (QuantTy::Forall, &[2]), (QuantTy::Exists, &[3]), (QuantTy::Forall, &[4]), (QuantTy::Exists, &[5])];
    // 3 <-> (1 xor 2), 5 <-> (3 and 4)
    let matrix: &[&[i32]] =
        &[&[-3, 1, 2], &[-3, -1, -2], &[3, -1, 2], &[3, 1, -2], &[-5, 3], &[-5, 4], &[5, -3, -4]];
    let q = formula(prefix, matrix);
    for budget in [0, EXPANSION_BUDGET] {
        let (verdict, strategy) = solve_certified(&q, Options::default(), budget);
        assert_eq!(verdict, SolverResult::Satisfiable);
        assert!(verify_strategy(&q, &strategy.expect("a strategy")));
    }
}

#[test]
fn simplification_refutes_an_empty_clause() {
    let q = formula(&[(QuantTy::Forall, &[1]), (QuantTy::Exists, &[2])], &[&[1, 2], &[1, -2]]);
    assert!(simplify(&q).is_none());
}

#[test]
fn queries_run_before_the_first_solve() {
    let q = formula(&[(QuantTy::Forall, &[1]), (QuantTy::Exists, &[2, 3])], &[&[1, 2], &[-1, -2], &[2, 3], &[-3, -2, 1]]);
    let mut solver = IncDet::from_qcnf_with_options(&q, Options::default());
    assert!(solver.fast_query_available());
    assert_eq!(solver.resolve_with_assumptions(&vec![lit(2)]), Some(SolverResult::Unsatisfiable));
    // a universal assumption is no query
    assert_eq!(solver.resolve_with_assumptions(&vec![lit(1)]), None);
}

#[test]
fn contradicting_assumptions_are_unsatisfiable() {
    let q = formula(&[(QuantTy::Forall, &[1]), (QuantTy::Exists, &[2, 3])], &[&[1, 2, 3], &[-1, -2, 3], &[2, -3], &[-2, -3, 1]]);
    let mut solver = IncDet::from_qcnf_with_options(&q, Options { cegar: false, ..Options::default() });
    let verdict = solver.solve();
    assert_eq!(verdict, q.brute_force());
    if solver.fast_query_available() {
        let answer = solver.resolve_with_assumptions(&vec![lit(3), lit(-3)]);
        assert!(answer.is_none() || answer == Some(SolverResult::Unsatisfiable));
    }
}

#[test]
fn dpll_takes_exactly_its_steps() {
    // one unit propagation and nothing left
    let clauses = vec![vec![lit(1)]];
    let mut budget = 0;
    assert_eq!(dpll(clauses.clone(), &mut budget), None);
    let mut budget = 5;
    assert_eq!(dpll(clauses, &mut budget), Some(true));
    assert_eq!(budget, 4);
    // nothing to do takes no step
    let mut budget = 0;
    assert_eq!(dpll(Vec::new(), &mut budget), Some(true));
    assert_eq!(dpll(vec![vec![lit(1)], Vec::new()], &mut budget), Some(false));
    // a split, a unit in the failing first case, a unit in the second one
    let clauses = vec![vec![lit(1), lit(2)], vec![lit(-1), lit(2)], vec![lit(-1), lit(-2)]];
    let mut budget = 3;
    assert_eq!(dpll(clauses.clone(), &mut budget), Some(true));
    assert_eq!(budget, 0);
    let mut budget = 2;
    assert_eq!(dpll(clauses, &mut budget), None);
}

#[test]
fn minimized_moves_name_a_variable_once() {
    let mut solver = IncrementalSolver::new(Options::default());
    for u in 1..=3 {
        solver.declare_universal(u);
    }
    solver.declare_existential(4);
    solver.add_clause(&[1, 4]);
    solver.add_clause(&[2, -4]);
    assert_eq!(solver.solve(), SolverResult::Unsatisfiable);
    let mut witness = solver.universal_witness_minimized(&vec![var(1), var(2), var(3)]).expect("a move");
    witness.sort_unstable();
    assert_eq!(witness, vec![-2, -1]);
}

#[test]
fn verification_covers_the_model_served() {
    let mut solver = IncrementalSolver::new(Options::default());
    assert!(!solver.verify());
    solver.declare_universal(1);
    solver.declare_existential(2);
    solver.add_clause(&[1, 2]);
    solver.add_clause(&[-1, -2]);
    assert_eq!(solver.solve(), SolverResult::Satisfiable);
    assert!(solver.verify());
}
