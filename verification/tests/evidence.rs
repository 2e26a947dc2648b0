use booleanium::aiger::control::two_solver_fixpoint;
use booleanium::aiger::cover::prime_cover;
use booleanium::aiger::{solve_safety, solve_safety_with_continuation};
use booleanium::bdd::Bdd;
use booleanium::incdet::{IncDet, Options};
use booleanium::incremental::IncrementalSolver;
use booleanium::literal::{Lit, Var};
use booleanium::qcnf::QCNF;
use booleanium::random::random;
use booleanium::strategy::Strategy;
use booleanium::workloads::{feed_chunks, scope_parity, unroll_parity};
use booleanium::{QuantTy, SolverResult};
use std::collections::HashMap;
use std::rc::Rc;

fn chain(continuation: bool) -> IncrementalSolver {
    let mut solver = IncrementalSolver::new(Options::default());
    solver.set_continuation(continuation);
    solver.declare_universal(1);
    solver.declare_existential(2);
    solver.add_clause(&[-1, 2]);
    assert_eq!(solver.solve(), SolverResult::Satisfiable);
    solver
}

#[test]
fn continuation_extends_the_live_solver() {
    let mut solver = chain(true);
    assert_eq!((solver.extension_count(), solver.extension_total()), (0, 0));
    // nothing changed: nothing is extended
    assert_eq!(solver.solve(), SolverResult::Satisfiable);
    assert_eq!((solver.extension_count(), solver.extension_total()), (0, 0));
    solver.declare_existential(3);
    solver.add_clause(&[3, 1, -2]);
    assert_eq!(solver.solve(), SolverResult::Satisfiable);
    assert_eq!((solver.extension_count(), solver.extension_total()), (1, 1));
    assert!(solver.verify());
}

#[test]
fn without_continuation_nothing_is_extended() {
    let mut solver = chain(false);
    solver.declare_existential(3);
    solver.add_clause(&[3, 1, -2]);
    assert_eq!(solver.solve(), SolverResult::Satisfiable);
    assert_eq!((solver.extension_count(), solver.extension_total()), (0, 0));
    solver.set_continuation(true);
    solver.add_clause(&[1, -2]);
    assert_eq!(solver.solve(), SolverResult::Satisfiable);
    assert_eq!(solver.extension_total(), 1);
}

#[test]
fn popping_restores_the_verdict() {
    let mut solver = chain(true);
    let before = solver.last_result();
    solver.push();
    solver.add_clause(&[-2]);
    assert_eq!(solver.solve(), SolverResult::Unsatisfiable);
    assert!(solver.pop());
    assert_eq!(Some(solver.solve()), before);
}

#[test]
fn the_recorded_move_is_the_candidate() {
    let mut solver = chain(true);
    assert_eq!(solver.universal_witness_candidate(), None);
    solver.add_clause(&[-2]);
    assert_eq!(solver.solve(), SolverResult::Unsatisfiable);
    assert_eq!(solver.universal_witness_candidate(), Some(vec![1]));
}

#[test]
fn cores_leave_out_what_is_not_needed() {
    let mut solver = IncrementalSolver::new(Options::default());
    for u in 1..=3 {
        solver.declare_universal(u);
    }
    solver.declare_existential(4);
    // 4 needs 2
    solver.add_clause(&[-4, 2]);
    let question = IncrementalSolver::node(4);
    let core = solver.unanswerable_core(0, &[1, -2, 3], question);
    assert_eq!(core, Some(vec![-2]));
    assert_eq!(solver.unanswerable_core(0, &[1, 2, 3], question), None);
}

#[test]
fn the_largest_variable_can_be_declared() {
    let mut solver = IncrementalSolver::new(Options::default());
    solver.declare_existential(2_147_483_647);
    assert_eq!(solver.next_number(), 2_147_483_648);
}

#[test]
fn workloads_reach_their_verdicts() {
    for continuation in [true, false] {
        for (unsat, probed) in [(false, false), (true, false), (false, true)] {
            let mut solver = IncrementalSolver::new(Options::default());
            solver.set_continuation(continuation);
            let expected = if unsat { SolverResult::Unsatisfiable } else { SolverResult::Satisfiable };
            assert_eq!(unroll_parity(&mut solver, 4, unsat, probed), expected);
            assert_eq!(solver.qcnf().matrix.len(), 14 + usize::from(unsat));
        }
        let mut solver = IncrementalSolver::new(Options::default());
        solver.set_continuation(continuation);
        assert_eq!(scope_parity(&mut solver, 4), SolverResult::Satisfiable);
        assert_eq!(solver.qcnf().matrix.len(), 14);
        // the clauses are those of the random family, whatever the chunks
        let whole = random(5, 6, 20, 3);
        let mut solver = IncrementalSolver::new(Options::default());
        solver.set_continuation(continuation);
        assert_eq!(feed_chunks(&mut solver, 5, 6, 20, 3, 3), whole.brute_force());
        assert_eq!(solver.qcnf().matrix, whole.matrix);
    }
}

#[test]
fn gates_are_counted_as_written() {
    // 2 and 3 follow 1, 4 is their conjunction by cases
    let leaf = |numbers: &[i32]| {
        Rc::new(Strategy::Choose {
            constants: numbers.iter().map(|&n| Lit::from_dimacs(n)).collect(),
            rest: Rc::new(Strategy::Done),
        })
    };
    let strategy = Strategy::Split {
        cases: vec![
            (vec![Lit::from_dimacs(1), Lit::from_dimacs(2)], leaf(&[3])),
            (vec![Lit::from_dimacs(-1)], leaf(&[-3])),
        ],
    };
    let universals = vec![Var::from_dimacs(1), Var::from_dimacs(2)];
    let text = strategy.to_aiger(&universals, &HashMap::new());
    let header: Vec<usize> =
        text.lines().next().unwrap_or("").split(' ').skip(1).filter_map(|word| word.parse().ok()).collect();
    assert_eq!(strategy.gates(&universals), header[4]);
    assert!(header[4] > 0);
    // every output is a literal of the circuit
    let outputs: Vec<usize> = text.lines().skip(3).take(header[3]).filter_map(|line| line.parse().ok()).collect();
    assert_eq!(outputs.len(), header[3]);
    assert!(outputs.iter().all(|lit| lit / 2 <= header[0]));
    assert_eq!(Strategy::Done.gates(&universals), 0);
}

#[test]
fn covers_are_greedy() {
    // of three latches: all states with the first or the second set
    let region: Vec<bool> = (0..8).map(|state| state & 3 != 0).collect();
    let cubes = prime_cover(&region, 3);
    assert_eq!(cubes.len(), 2);
    // one more state that only a cube of its own reaches
    let region: Vec<bool> = (0..8).map(|state| state == 0 || state == 7).collect();
    assert_eq!(prime_cover(&region, 3).len(), 2);
    assert!(prime_cover(&vec![false; 8], 3).is_empty());
}

#[test]
fn a_repeated_operation_allocates_nothing() {
    let mut bdd = Bdd::new();
    let x = bdd.variable(0);
    let y = bdd.variable(1);
    let both = bdd.and(x, y);
    let not_x = bdd.not(x);
    let before = bdd.allocated();
    assert_eq!(bdd.and(x, y), both);
    assert_eq!(bdd.and(y, x), both);
    assert_eq!(bdd.not(x), not_x);
    assert_eq!(bdd.not(not_x), x);
    assert_eq!(bdd.allocated(), before);
    assert!(!bdd.exceeded());
}

#[test]
fn models_list_the_universal_variables() {
    let qcnf = QCNF::new(&[(QuantTy::Exists, &[1][..]), (QuantTy::Forall, &[2, 3][..])], &[&[1, 2][..], &[1, -3][..]]);
    let mut solver = IncDet::from_qcnf_with_options(&qcnf, Options::default());
    assert_eq!(solver.solve(), SolverResult::Satisfiable);
    let model = solver.skolem_model();
    assert_eq!(model.universals(), vec![2, 3]);
    for universal in [[2, 3], [2, -3], [-2, 3], [-2, -3]] {
        assert_eq!(model.evaluate(&universal), HashMap::from([(1, true)]));
    }
    assert!(solver.verify_skolem_functions());
}

#[test]
fn rounds_and_cubes_are_counted() {
    // the latch remembers an uncontrollable input, and is the error
    let losing = "aag 2 1 1 1 0\n2\n4 2\n4\ni0 u\n";
    let outcome = solve_safety(losing, Options::default()).expect("parses");
    assert!(!outcome.realizable);
    assert_eq!(outcome.losing.len(), 2);
    assert_eq!(outcome.rounds, 4);
    assert!(1 <= outcome.safe_rounds && outcome.safe_rounds <= 3);
    let control = two_solver_fixpoint(losing).expect("parses");
    assert!(!control.realizable);
    assert!(control.rounds as usize == control.cubes || control.rounds as usize == control.cubes + 1);
    assert_eq!(outcome.clone(), outcome);
}

#[test]
fn extensions_are_counted_only_where_the_solver_continues() {
    let text = "aag 2 1 1 1 0\n2\n4 2\n4\ni0 u\n";
    let rebuilt = solve_safety_with_continuation(text, Options::default(), false).expect("parses");
    assert_eq!(rebuilt.extensions, 0);
    let continued = solve_safety_with_continuation(text, Options::default(), true).expect("parses");
    assert!(continued.extensions <= continued.rounds);
    assert_eq!(rebuilt.realizable, continued.realizable);
}
