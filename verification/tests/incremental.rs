use booleanium::incdet::Options;
use booleanium::incremental::terms::Node;
use booleanium::incremental::IncrementalSolver;
use booleanium::SolverResult;

#[test]
fn push_pop_basics() {
    let mut solver = IncrementalSolver::new(Options::default());
    solver.declare_universal(1);
    solver.declare_existential(2);
    // e2 must equal u1
    solver.add_clause(&[-1, 2]);
    solver.add_clause(&[1, -2]);
    assert_eq!(solver.solve(), SolverResult::Satisfiable);
    assert!(solver.verify());

    solver.push();
    // additionally force e2 constant true: unsatisfiable
    solver.add_clause(&[2]);
    assert_eq!(solver.solve(), SolverResult::Unsatisfiable);
    assert!(solver.pop());

    assert_eq!(solver.solve(), SolverResult::Satisfiable);
    // assumptions behave like a temporary frame
    assert_eq!(solver.solve_with_assumptions(&[2]), SolverResult::Unsatisfiable);
    assert_eq!(solver.solve(), SolverResult::Satisfiable);
}

#[test]
fn universal_witness_of_unsat() {
    let mut solver = IncrementalSolver::new(Options::default());
    solver.declare_universal(1);
    solver.declare_existential(2);
    solver.add_clause(&[-1, 2]);
    // no witness on satisfiable results
    assert_eq!(solver.solve(), SolverResult::Satisfiable);
    assert_eq!(solver.universal_witness(), None);
    // now for u1 = true, neither value of e2 works
    solver.add_clause(&[-1, -2]);
    assert_eq!(solver.solve(), SolverResult::Unsatisfiable);
    let witness = solver.universal_witness().expect("witness available");
    assert_eq!(witness, vec![1]);
}

#[test]
fn monotone_continuation() {
    let mut solver = IncrementalSolver::new(Options::default());
    solver.declare_universal(1);
    solver.declare_existential(2);
    solver.add_clause(&[-1, 2]);
    assert_eq!(solver.solve(), SolverResult::Satisfiable);
    assert!(solver.verify());
    // monotone additions: new clause, new variable, then a clause
    // over both - each solve continues the live solver
    solver.add_clause(&[1, -2]);
    assert_eq!(solver.solve(), SolverResult::Satisfiable);
    assert!(solver.verify());
    let model = solver.skolem_model().expect("satisfiable");
    for u in [1, -1] {
        assert_eq!(model.evaluate(&[u])[&2], u > 0);
    }
    solver.declare_existential(3);
    solver.add_clause(&[-2, 3]);
    assert_eq!(solver.solve(), SolverResult::Satisfiable);
    assert!(solver.verify());
    assert_eq!(solver.extension_count(), 2, "the live solver was continued in place");
    // tighten to unsatisfiable, then the unsat shortcut
    solver.add_clause(&[-1, -2]);
    assert_eq!(solver.solve(), SolverResult::Unsatisfiable);
    assert_eq!(solver.universal_witness(), Some(vec![1]));
    solver.add_clause(&[3]);
    assert_eq!(solver.solve(), SolverResult::Unsatisfiable);
}

#[test]
fn queries_and_scoped_pops_keep_the_continuation() {
    let mut solver = IncrementalSolver::new(Options::default());
    solver.declare_universal(1);
    solver.declare_existential(2);
    solver.add_clause(&[-1, 2]);
    assert_eq!(solver.solve(), SolverResult::Satisfiable);
    // a temporary query runs beside the base and serves the model
    assert_eq!(solver.solve_with_assumptions(&[-2]), SolverResult::Unsatisfiable);
    assert_eq!(solver.universal_witness(), Some(vec![1]));
    assert_eq!(solver.solve_with_assumptions(&[2]), SolverResult::Satisfiable);
    assert!(solver.verify());
    // a pushed-and-popped scope without a solve inside is invisible
    solver.push();
    solver.add_clause(&[-2]);
    assert!(solver.pop());
    // both left the base intact: the next solve continues in place
    solver.add_clause(&[1, -2]);
    assert_eq!(solver.solve(), SolverResult::Satisfiable);
    assert_eq!(solver.extension_count(), 1, "the base was continued, not rebuilt");
    assert!(solver.verify());
    // popping a frame the base integrated forces a rebuild
    solver.push();
    solver.add_clause(&[1]);
    assert_eq!(solver.solve(), SolverResult::Unsatisfiable);
    assert!(solver.pop());
    assert_eq!(solver.last_result(), None, "models are stale after a pop");
    assert_eq!(solver.solve(), SolverResult::Satisfiable);
    assert_eq!(solver.extension_count(), 0, "the base was rebuilt");
}

#[test]
fn in_place_assumption_queries() {
    let mut solver = IncrementalSolver::new(Options::default());
    solver.declare_universal(1);
    solver.declare_existential(2);
    solver.declare_existential(3);
    solver.add_clause(&[-1, 2, 3]);
    assert_eq!(solver.solve(), SolverResult::Satisfiable);
    // a satisfiable query on the live solver: models and certificate
    // reflect the assumed state
    assert_eq!(solver.solve_with_assumptions(&[-2]), SolverResult::Satisfiable);
    assert!(solver.verify());
    let model = solver.skolem_model().expect("satisfiable");
    assert!(!model.evaluate(&[1])[&2], "assumption holds in the model");
    assert!(model.evaluate(&[1])[&3], "the clause is satisfied via e3");
    // an unsatisfiable query: no response for u1 = true
    assert_eq!(solver.solve_with_assumptions(&[-2, -3]), SolverResult::Unsatisfiable);
    assert_eq!(solver.universal_witness(), Some(vec![1]));
    // the base recovers for plain solves and further queries
    assert_eq!(solver.solve(), SolverResult::Satisfiable);
    assert!(solver.verify());
    assert_eq!(solver.solve_with_assumptions(&[2, 3]), SolverResult::Satisfiable);
    assert_eq!(solver.solve(), SolverResult::Satisfiable);
}

#[test]
fn universal_assumption_queries() {
    let mut solver = IncrementalSolver::new(Options::default());
    solver.declare_universal(1);
    solver.declare_existential(2);
    // e2 must equal u1
    solver.add_clause(&[-1, 2]);
    solver.add_clause(&[1, -2]);
    assert_eq!(solver.solve(), SolverResult::Satisfiable);
    // restricting the domain keeps satisfiability; the model and
    // certificate are scoped to the restriction
    assert_eq!(solver.solve_with_assumptions(&[1]), SolverResult::Satisfiable);
    assert!(solver.verify());
    let model = solver.skolem_model().expect("satisfiable");
    assert!(model.evaluate(&[1])[&2]);
    // mixed: inside u1 the requirement e2 = false is unsatisfiable...
    assert_eq!(solver.solve_with_assumptions(&[1, -2]), SolverResult::Unsatisfiable);
    assert_eq!(solver.universal_witness(), Some(vec![1]));
    // ...but outside the restriction it is satisfiable
    assert_eq!(solver.solve_with_assumptions(&[-1, -2]), SolverResult::Satisfiable);
    // an unsatisfiable stack can still be winnable on a sub-domain
    solver.add_clause(&[1]);
    assert_eq!(solver.solve(), SolverResult::Unsatisfiable);
    assert_eq!(solver.solve_with_assumptions(&[1]), SolverResult::Satisfiable);
    // contradictory restrictions: an empty domain, vacuously sat
    assert_eq!(solver.solve_with_assumptions(&[1, -1]), SolverResult::Satisfiable);
}

#[test]
fn pop_retention_of_solved_frames() {
    let mut solver = IncrementalSolver::new(Options::default());
    solver.declare_universal(1);
    solver.declare_existential(2);
    solver.declare_existential(3);
    solver.add_clause(&[-1, 2, 3]);
    assert_eq!(solver.solve(), SolverResult::Satisfiable);
    // a clause-only frame whose clause keeps two unassigned
    // existentials is retractable in place
    solver.push();
    solver.add_clause(&[1, -2, -3]);
    assert_eq!(solver.solve(), SolverResult::Satisfiable);
    assert_eq!(solver.extension_count(), 1);
    assert!(solver.pop());
    assert_eq!(solver.solve(), SolverResult::Satisfiable);
    assert!(solver.verify());
    assert!(solver.extension_count() >= 2, "the base survived the pop");
    // a popped frame with declarations discards the base
    solver.push();
    solver.declare_existential(4);
    solver.add_clause(&[-1, 4]);
    assert_eq!(solver.solve(), SolverResult::Satisfiable);
    assert!(solver.pop());
    assert_eq!(solver.solve(), SolverResult::Satisfiable);
    assert!(solver.verify());
    assert_eq!(solver.extension_count(), 0, "declarations forced a rebuild");
}

#[test]
fn terms_keep_their_encoding_to_themselves() {
    // forall u exists c: (u xor c) xor u: the controller has to answer `true`
    // whatever the environment plays, and the xor tree the solver
    // encodes to get there is none of the caller's business
    let mut solver = IncrementalSolver::new(Options::default());
    let (u, c) = (solver.fresh_var(), solver.fresh_var());
    solver.declare_universal(u);
    solver.declare_existential(c);
    let (nu, nc) = (IncrementalSolver::node(u), IncrementalSolver::node(c));
    let inner = solver.xor(nu, nc);
    let outer = solver.xor(inner, nu);
    solver.assert_node(outer);
    assert_eq!(solver.solve(), SolverResult::Satisfiable);

    // the caller declared two variables; everything else in the
    // instance is the solver's own
    assert!(!solver.is_auxiliary(u));
    assert!(!solver.is_auxiliary(c));
    let auxiliaries = (1..=solver.fresh_var()).filter(|&v| solver.is_auxiliary(v)).count();
    assert!(auxiliaries > 0, "the xor tree needs gates");

    // and a caller asking for the witness of the dual gets literals
    // over its own variables only
    let mut refuting = IncrementalSolver::new(Options::default());
    let u = refuting.fresh_var();
    let c = refuting.fresh_var();
    refuting.declare_universal(u);
    refuting.declare_existential(c);
    let (nu, nc) = (IncrementalSolver::node(u), IncrementalSolver::node(c));
    let both = refuting.and(nu, nc);
    refuting.assert_node(both);
    refuting.assert_node(nu.negated());
    assert_eq!(refuting.solve(), SolverResult::Unsatisfiable);
}

#[test]
fn naming_a_term_gives_it_a_variable() {
    let mut solver = IncrementalSolver::new(Options::default());
    let (a, b) = (solver.fresh_var(), solver.fresh_var());
    solver.declare_existential(a);
    solver.declare_existential(b);
    let (na, nb) = (IncrementalSolver::node(a), IncrementalSolver::node(b));
    let term = solver.and(na, nb);
    let name = solver.named(term);
    assert_ne!(name, term, "a name is its own variable");
    assert!(solver.is_auxiliary(IncrementalSolver::literal(name).unsigned_abs()));

    // and it means the same thing: asserting the name forces both
    // conjuncts, asserting its negation forbids their conjunction
    solver.assert_node(name);
    assert_eq!(solver.solve(), SolverResult::Satisfiable);
    solver.assert_node(na.negated());
    assert_eq!(solver.solve(), SolverResult::Unsatisfiable);
}

#[test]
fn wide_conjunctions_cost_one_variable() {
    let mut solver = IncrementalSolver::new(Options::default());
    let vars: Vec<u32> = (0..8).map(|_| solver.fresh_var()).collect();
    for &v in &vars {
        solver.declare_existential(v);
    }
    let nodes: Vec<Node> = vars.iter().map(|&v| IncrementalSolver::node(v)).collect();
    let before = solver.fresh_var();
    let wide = solver.and_all(&nodes);
    let after = solver.fresh_var();
    // one gate, not seven: folding a k-ary conjunction into binary
    // pairs would hand the solver k-1 existentials to determinize
    assert_eq!(after - before, 2, "one auxiliary variable plus the probe");
    assert!(solver.is_auxiliary(IncrementalSolver::literal(wide).unsigned_abs()));

    // the same conjunction in another order is the same gate
    let mut reversed: Vec<Node> = nodes.clone();
    reversed.reverse();
    assert_eq!(solver.and_all(&reversed), wide);
    // and the folds still apply
    let truth = solver.constant(true);
    assert_eq!(solver.and_all(&vec![nodes[0], truth, nodes[0]]), nodes[0]);
    let falsehood = solver.constant(false);
    assert_eq!(solver.and_all(&vec![nodes[0], nodes[0].negated(), nodes[1]]), falsehood);
}

#[test]
fn a_core_answers_about_the_question_it_was_given() {
    // Two universals, and a question that mentions only one of
    // them: `u & c`, with `c` a free existential. Under `!u` no
    // response satisfies it, and `s` had nothing to do with that.
    let mut solver = IncrementalSolver::new(Options::default());
    let (u, s2, c) = (solver.fresh_var(), solver.fresh_var(), solver.fresh_var());
    solver.declare_universal(u);
    solver.declare_universal(s2);
    solver.declare_existential(c);
    let (nu, nc) = (IncrementalSolver::node(u), IncrementalSolver::node(c));
    let question = solver.and(nu, nc);
    let (u, s2) = (i32::try_from(u).unwrap(), i32::try_from(s2).unwrap());

    let core = solver.unanswerable_core(0, &[-u, s2], question).expect("no response under !u");
    assert_eq!(core, vec![-u], "the core is what the refutation needed, not what was assumed");

    // under `u` the controller answers, and there is nothing to
    // generalise
    assert!(solver.unanswerable_core(0, &[u, s2], question).is_none());
}

#[test]
fn terms_share_and_fold() {
    let mut solver = IncrementalSolver::new(Options::default());
    let (a, b) = (solver.fresh_var(), solver.fresh_var());
    solver.declare_existential(a);
    solver.declare_existential(b);
    let (na, nb) = (IncrementalSolver::node(a), IncrementalSolver::node(b));
    let first = solver.and(na, nb);
    let second = solver.and(nb, na);
    assert_eq!(first, second, "the same term is encoded once");
    assert_eq!(solver.and(na, na), na, "x & x is x");
    let false_node = solver.constant(false);
    assert_eq!(solver.and(na, na.negated()), false_node, "x & !x is false");
    let true_node = solver.constant(true);
    assert_eq!(solver.and(na, true_node), na, "x & true is x");
    assert_eq!(solver.and(na, false_node), false_node, "x & false is false");
}

#[test]
fn define_and_gates() {
    let mut solver = IncrementalSolver::new(Options::default());
    solver.declare_universal(1);
    solver.declare_universal(2);
    let g = solver.fresh_var();
    assert!(g >= 3);
    solver.define_and(g, &[1, 2]);
    let e = solver.fresh_var();
    solver.declare_existential(e);
    let (g, e) = (i32::try_from(g).unwrap(), i32::try_from(e).unwrap());
    // e <-> g = u1 and u2
    solver.add_clause(&[-g, e]);
    solver.add_clause(&[g, -e]);
    assert_eq!(solver.solve(), SolverResult::Satisfiable);
    assert!(solver.verify());
    let model = solver.skolem_model().expect("satisfiable");
    for (u1, u2) in [(1, 2), (-1, 2), (1, -2), (-1, -2)] {
        let values = model.evaluate(&[u1, u2]);
        assert_eq!(values[&e], u1 > 0 && u2 > 0);
    }
}

#[test]
fn clauses_can_be_added_below_the_top() {
    let mut solver = IncrementalSolver::default();
    solver.declare_universal(1);
    solver.declare_existential(2);
    solver.push();
    solver.add_clause_at(0, &[-1, 2]);
    assert_eq!(solver.depth(), 1);
    assert!(solver.pop());
    // the clause outlives the frame
    assert_eq!(solver.qcnf().matrix.len(), 1);
    assert!(!solver.pop());
}

#[test]
fn temporary_clauses_do_not_stay() {
    let mut solver = IncrementalSolver::default();
    solver.declare_universal(1);
    solver.declare_existential(2);
    solver.add_clause(&[-1, 2]);
    assert_eq!(solver.solve_with_clauses(&vec![vec![-2], vec![1, 2]]), SolverResult::Unsatisfiable);
    assert!(solver.universal_witness_candidate().is_some());
    assert_eq!(solver.solve(), SolverResult::Satisfiable);
    assert_eq!(solver.universal_witness_candidate(), None);
}

#[test]
fn redeclared_variables_are_universal() {
    let mut solver = IncrementalSolver::default();
    solver.declare_existential(1);
    solver.declare_existential(2);
    solver.add_clause(&[1]);
    assert_eq!(solver.solve(), SolverResult::Satisfiable);
    solver.redeclare_universal(1);
    assert_eq!(solver.solve(), SolverResult::Unsatisfiable);
    assert_eq!(solver.universal_witness(), Some(vec![-1]));
}
