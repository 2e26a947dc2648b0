use booleanium::aiger::parse::parse_aag;
use booleanium::alternation::{solve, solve_certified, solve_with_expansion_budget, EXPANSION_BUDGET};
use booleanium::incdet::{IncDet, Options};
use booleanium::literal::{Lit, Var};
use booleanium::qcnf::QCNF;
use booleanium::strategy_check::verify_strategy;
use booleanium::{QuantTy, SolverResult};
use std::collections::HashMap;

fn formula(forall: &[u32], exists: &[u32], matrix: &[&[i32]]) -> QCNF {
    QCNF::new(&[(QuantTy::Forall, forall), (QuantTy::Exists, exists)], matrix)
}

fn verdict(qcnf: &QCNF) -> SolverResult {
    let mut solver = IncDet::from_qcnf(qcnf);
    let result = solver.solve();
    assert_eq!(result, qcnf.brute_force());
    result
}

#[test]
fn free_variables() {
    // variables 2 and 3 are free, the formula is satisfiable
    let qcnf = QCNF::new(&[(QuantTy::Exists, &[1])], &[&[1, -2], &[2, -3]]);
    assert_eq!(verdict(&qcnf), SolverResult::Satisfiable);
    // all variables free, unsatisfiable
    let qcnf = QCNF::new(&[], &[&[1], &[-1]]);
    assert_eq!(verdict(&qcnf), SolverResult::Unsatisfiable);
}

#[test]
fn declared_but_unused_variables() {
    let qcnf = formula(&[1], &[2], &[&[1, -2], &[-1, 2]]);
    assert_eq!(verdict(&qcnf), SolverResult::Satisfiable);
    // one that is quantified and occurs in no clause
    let qcnf = formula(&[1], &[2, 5], &[&[1, -2], &[-1, 2]]);
    assert_eq!(verdict(&qcnf), SolverResult::Satisfiable);
}

#[test]
fn propagation_sat() {
    assert_eq!(verdict(&formula(&[1], &[2], &[&[1, -2], &[-1, 2]])), SolverResult::Satisfiable);
}

#[test]
fn propagation_unsat() {
    assert_eq!(verdict(&formula(&[1], &[2], &[&[1, -2], &[-1, 2], &[-1, -2]])), SolverResult::Unsatisfiable);
}

#[test]
fn propagation_sat_incdet_paper() {
    let qcnf = formula(&[1, 2], &[3, 4], &[&[1, -3], &[2, -3], &[-1, -2, 3], &[-1, -4], &[-3, -4], &[1, 3, 4]]);
    assert_eq!(verdict(&qcnf), SolverResult::Satisfiable);
}

#[test]
fn global_conflict_analysis() {
    assert_eq!(verdict(&formula(&[1], &[2, 3], &[&[2], &[2, -3], &[-2, 3], &[2, 3]])), SolverResult::Satisfiable);
}

#[test]
fn unsat_with_decsision() {
    let qcnf = formula(
        &[1, 2],
        &[3, 4, 5],
        &[&[2, -3], &[-1, -2, 3], &[1, -4], &[-3, -4], &[1, 3, 4], &[-1, 5], &[1, -5]],
    );
    assert_eq!(verdict(&qcnf), SolverResult::Unsatisfiable);
}

#[test]
fn unsat_1() {
    assert_eq!(verdict(&formula(&[3], &[1, 2, 4, 5], &[&[-5, -3], &[5, -1], &[1], &[4, 2]])), SolverResult::Unsatisfiable);
}

#[test]
fn unsat_2() {
    let qcnf = formula(&[2, 4], &[1, 3, 5], &[&[-5, 2], &[-3, -1], &[3, 1], &[1, -3, 5], &[-1, -4]]);
    assert_eq!(verdict(&qcnf), SolverResult::Unsatisfiable);
}

#[test]
fn constant_propagation_unsat() {
    assert_eq!(verdict(&formula(&[2], &[1], &[&[-1], &[1, -2]])), SolverResult::Unsatisfiable);
}

#[test]
fn every_option_gives_the_same_verdict() {
    let qcnf = formula(
        &[1, 2],
        &[3, 4, 5],
        &[&[2, -3], &[-1, -2, 3], &[1, -4], &[-3, -4], &[1, 3, 4], &[-1, 5], &[1, -5]],
    );
    for flags in 0..64 {
        let options = Options {
            constant_propagation: flags & 1 != 0,
            incremental_conflict_check: flags & 2 != 0,
            clause_deletion: flags & 4 != 0,
            cegar: flags & 8 != 0,
            case_splits: flags & 16 != 0,
            case_split_threshold: 2,
            restarts: flags & 32 != 0,
        };
        let mut solver = IncDet::from_qcnf_with_options(&qcnf, options);
        assert_eq!(solver.solve(), SolverResult::Unsatisfiable);
        let witness = solver.unsat_witness().expect("a refutation has a witness");
        assert!(witness.iter().all(|l| l.var().to_dimacs() <= 2));
    }
}

#[test]
fn three_block_basics() {
    // exists x, forall y, exists z: z <-> (x xor y) and z must equal x
    let qcnf = QCNF::new(
        &[(QuantTy::Exists, &[1][..]), (QuantTy::Forall, &[2][..]), (QuantTy::Exists, &[3][..])],
        &[&[-3, 1, 2][..], &[-3, -1, -2][..], &[3, -1, 2][..], &[3, 1, -2][..], &[-3, 1][..], &[3, -1][..]],
    );
    assert_eq!(solve(&qcnf, Options::default()), qcnf.brute_force());
    assert_eq!(solve_with_expansion_budget(&qcnf, Options::default(), 0), qcnf.brute_force());
    // exists x, forall y, exists z: z <-> (x xor y), satisfiable for any x
    let qcnf = QCNF::new(
        &[(QuantTy::Exists, &[1][..]), (QuantTy::Forall, &[2][..]), (QuantTy::Exists, &[3][..])],
        &[&[-3, 1, 2][..], &[-3, -1, -2][..], &[3, -1, 2][..], &[3, 1, -2][..]],
    );
    assert_eq!(solve(&qcnf, Options::default()), SolverResult::Satisfiable);
}

#[test]
fn strategies_are_certified_with_and_without_expansion() {
    // forall a, exists b, forall c, exists d: b <-> a and d <-> (b xor c)
    let qcnf = QCNF::new(
        &[
            (QuantTy::Forall, &[1][..]),
            (QuantTy::Exists, &[2][..]),
            (QuantTy::Forall, &[3][..]),
            (QuantTy::Exists, &[4][..]),
        ],
        &[&[-1, 2], &[1, -2], &[-4, 2, 3], &[-4, -2, -3], &[4, -2, 3], &[4, 2, -3]],
    );
    for budget in [0, EXPANSION_BUDGET] {
        let (result, strategy) = solve_certified(&qcnf, Options::default(), budget);
        assert_eq!(result, SolverResult::Satisfiable);
        assert!(verify_strategy(&qcnf, &strategy.expect("a strategy")));
    }
}

fn output_vars(text: &str) -> Vec<i32> {
    let aiger = parse_aag(text).expect("the strategy parses");
    aiger
        .output_names
        .iter()
        .filter_map(|name| name.as_ref())
        .filter_map(|chars| chars.iter().collect::<String>().parse().ok())
        .collect()
}

#[test]
fn region_only_variables_are_emitted() {
    let qcnf = formula(&[3], &[1, 2], &[&[-2, -1], &[2, 3], &[2, 1]]);
    let mut solver = IncDet::from_qcnf(&qcnf);
    assert_eq!(solver.solve(), SolverResult::Satisfiable);
    let model = solver.skolem_model();
    let text = model.to_aiger(&HashMap::new());
    assert!(output_vars(&text).contains(&2), "variable 2 is missing from:\n{text}");
    // the model answers every universal point
    for u in [3, -3] {
        let values = model.evaluate(&[u]);
        let holds = |l: i32| if l.abs() == 3 { l == u } else { values[&l.abs()] == (l > 0) };
        assert!([[-2, -1], [2, 3], [2, 1]].iter().all(|c| c.iter().any(|&l| holds(l))));
    }
}

#[test]
fn names_label_the_emitted_circuit() {
    let qcnf = formula(&[1], &[2], &[&[1, -2], &[-1, 2]]);
    let mut solver = IncDet::from_qcnf(&qcnf);
    assert_eq!(solver.solve(), SolverResult::Satisfiable);
    let mut names = HashMap::new();
    names.insert(1, "request".to_string());
    names.insert(2, "grant".to_string());
    let text = solver.skolem_model().to_aiger(&names);
    assert!(text.contains("i0 request\n"), "{text}");
    assert!(text.contains("o0 grant\n"), "{text}");
    let text = solver.skolem_model().to_smtlib(&names);
    assert!(text.contains("grant") && text.contains("request"), "{text}");
}

#[test]
fn verdicts_have_codes_and_names() {
    assert_eq!(SolverResult::Satisfiable.code(), 10);
    assert_eq!(SolverResult::Unsatisfiable.code(), 20);
    assert_eq!(SolverResult::Unknown.code(), 30);
    assert_eq!(SolverResult::Unsatisfiable.name(), "unsatisfiable");
    assert_eq!(SolverResult::Unknown.negated(), SolverResult::Unknown);
}

#[test]
fn literals_of_one_variable_are_neighbours() {
    let x = Var::from_dimacs(3);
    assert_eq!(Lit::negative(x).as_index(), Lit::positive(x).as_index() + 1);
    assert_eq!(Lit::from_index(Lit::negative(x).as_index()), Lit::negative(x));
}
