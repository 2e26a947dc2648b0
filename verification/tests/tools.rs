use booleanium::aiger::control::two_solver_fixpoint;
use booleanium::aiger::solve_safety;
use booleanium::cli::{block_count, check_path, input_kind, source_of, ArgError, Flags, InputKind, Source};
use booleanium::encodings::{Circuit, Gate};
use booleanium::incdet::Options;
use booleanium::literal::Lit;
use booleanium::probe::{Counters, Event};
use booleanium::qcdcl::Context;
use booleanium::qcir::parse_qcir;
use booleanium::qcnf::QCNF;
use booleanium::quantifier::{QuantTy, ScopeId};
use booleanium::SolverResult;

/// Either every y equals x, or every y equals not x.
fn choice(n: i32) -> Circuit {
    let mut gates = Vec::new();
    let mut next = 2 * n;
    let mut push = |gate: Gate| {
        gates.push(gate);
        next += 1;
        next
    };
    let mut equal = Vec::new();
    let mut inverted = Vec::new();
    for x in 1..=n {
        let y = n + x;
        let both = push(Gate::And(vec![y, x]));
        let neither = push(Gate::And(vec![-y, -x]));
        equal.push(push(Gate::Or(vec![both, neither])));
        inverted.push(push(Gate::Xor(y, x)));
    }
    let left = push(Gate::And(equal));
    let right = push(Gate::And(inverted));
    let output = push(Gate::Or(vec![left, right]));
    let size = usize::try_from(n).unwrap();
    Circuit { universals: size, existentials: size, gates, output }
}

#[test]
fn encodings_agree() {
    let circuit = choice(1);
    let two = circuit.to_two_sided();
    let one = circuit.to_plaisted_greenbaum();
    let parsed = parse_qcir(&circuit.to_qcir()).expect("parses");
    assert!(!parsed.negated);
    assert_eq!(two.brute_force(), SolverResult::Satisfiable);
    assert_eq!(one.brute_force(), SolverResult::Satisfiable);
    assert_eq!(parsed.qcnf.brute_force(), SolverResult::Satisfiable);
    assert!(one.matrix.len() < two.matrix.len());
}

#[test]
fn one_sided_clauses_follow_the_polarity() {
    // forall x exists y: x and y
    let circuit = Circuit { universals: 1, existentials: 1, gates: vec![Gate::And(vec![1, 2])], output: 3 };
    let lits = |c: &[i32]| c.iter().map(|&l| Lit::from_dimacs(l)).collect::<Vec<_>>();
    assert_eq!(circuit.to_plaisted_greenbaum().matrix, vec![lits(&[-3, 1]), lits(&[-3, 2]), lits(&[3])]);
    assert_eq!(
        circuit.to_two_sided().matrix,
        vec![lits(&[-3, 1]), lits(&[-3, 2]), lits(&[3, -1, -2]), lits(&[3])]
    );
    assert_eq!(circuit.to_qcir(), "#QCIR-G14\nforall(v1)\nexists(v2)\noutput(v3)\nv3 = and(v1, v2)\n");
}

#[test]
fn the_control_agrees_with_the_solver() {
    for text in [
        "aag 5 2 0 1 3\n2\n4\n10\n6 2 5\n8 3 4\n10 7 9\ni0 u\ni1 controllable_c\n",
        "aag 2 1 1 1 0\n2\n4 2\n4\ni0 u\n",
        "aag 4 2 1 1 1\n2\n4\n6 4 0\n8\n8 6 2\ni0 u\ni1 controllable_c\n",
        "aag 11 3 2 1 6\n2\n4\n6\n8 15 1\n10 8 0\n8\n12 6 4\n14 6 11\n16 14 14\n18 13 9\n20 4 2\n22 17 15\ni0 u0\ni1 controllable_c1\ni2 controllable_c2\n",
    ] {
        let control = two_solver_fixpoint(text).expect("parses");
        let outcome = solve_safety(text, Options::default()).expect("parses");
        assert_eq!(control.realizable, outcome.realizable, "{text}");
    }
    let control = two_solver_fixpoint("aag 4 2 1 1 1\n2\n4\n6 4 0\n8\n8 6 2\ni0 u\ni1 controllable_c\n").expect("parses");
    assert_eq!(control.cubes, 1);
    assert!(two_solver_fixpoint("aag 2 1 0 1 0\n2\n4\n").is_err());
}

#[test]
fn contexts_keep_reduced_clauses() {
    let mut context = Context::new();
    let vars = context.new_variables(4);
    context.set_num_clauses(3);
    let outer = context.new_quantified_scope(QuantTy::Exists);
    assert_eq!(outer, ScopeId(1));
    let universal = context.new_quantified_scope(QuantTy::Forall);
    let inner = context.new_quantified_scope(QuantTy::Exists);
    context.bind_variable(outer, vars[0]);
    context.bind_variable(universal, vars[1]);
    context.bind_variable(inner, vars[2]);
    // the universal literal is dropped, which leaves a unit clause
    context.add_clause(&[Lit::from_dimacs(1), Lit::from_dimacs(2)]);
    assert!(context.value(vars[0]).is_some());
    // here the inner existential keeps it
    context.add_clause(&[Lit::from_dimacs(2), Lit::from_dimacs(3)]);
    context.add_clause(&[Lit::from_dimacs(1), Lit::from_dimacs(-2), Lit::from_dimacs(-3)]);
    assert_eq!(context.num_clauses(), 3);
    assert!(context.value(vars[2]).is_none());
}

#[test]
fn inputs_are_told_apart() {
    assert_eq!(input_kind(&b" \n(set-logic QF)".to_vec()), InputKind::SmtLib);
    assert_eq!(input_kind(&b"; comment".to_vec()), InputKind::SmtLib);
    assert_eq!(input_kind(&b"#QCIR-G14\n".to_vec()), InputKind::Qcir);
    assert_eq!(input_kind(&b"aag 1 1 0 0 0\n".to_vec()), InputKind::Aiger);
    assert_eq!(input_kind(&b"p cnf 1 1\n".to_vec()), InputKind::Qdimacs);
    assert_eq!(input_kind(&b"".to_vec()), InputKind::Qdimacs);
}

#[test]
fn arguments_decide_the_source() {
    assert!(matches!(source_of(1), Ok(Source::StdIn)));
    assert!(matches!(source_of(2), Ok(Source::File)));
    assert!(matches!(source_of(3), Err(ArgError::ExpectedFile)));
    assert!(check_path("f".to_string(), true, true).is_ok());
    let missing = check_path("f".to_string(), false, false).unwrap_err();
    assert_eq!(missing.message(), "Path f does not exist");
    let directory = check_path("d".to_string(), true, false).unwrap_err();
    assert_eq!(directory.message(), "d is not a file");
    let unreadable = ArgError::CannotReadFile { path: "f".to_string(), err: "denied".to_string() };
    assert_eq!(unreadable.message(), "Cannot read file f: denied");
    let closed = ArgError::CannotReadStdIn { err: "closed".to_string() };
    assert_eq!(closed.message(), "Cannot read from stdin: closed");
    assert_eq!(
        ArgError::ExpectedFile.message(),
        "Expect single argument containing the path to a QDIMACS file"
    );
}

#[test]
fn flags_switch_options_off() {
    let flags = Flags {
        no_constant_propagation: true,
        no_incremental_conflict_check: false,
        no_clause_deletion: true,
        no_cegar: false,
        no_case_splits: true,
        case_split_threshold: 7,
        restarts: true,
    };
    let options = flags.options();
    assert!(!options.constant_propagation && options.incremental_conflict_check && !options.clause_deletion);
    assert!(options.cegar && !options.case_splits && options.restarts);
    assert_eq!(options.case_split_threshold, 7);
}

#[test]
fn empty_blocks_do_not_count() {
    let qcnf = QCNF::new(&[(QuantTy::Exists, &[1]), (QuantTy::Forall, &[]), (QuantTy::Exists, &[2])], &[&[1, 2]]);
    assert_eq!(block_count(&qcnf), 2);
}

#[test]
fn counters_add_and_reset() {
    let mut counters = Counters::new();
    counters.add(Event::Waves, 2);
    counters.add(Event::Waves, 3);
    counters.observe_max(Event::BddPeakTotal, 9);
    counters.observe_max(Event::BddPeakTotal, 4);
    assert_eq!(counters.get(Event::Waves), 5);
    assert_eq!(counters.get(Event::BddPeakTotal), 9);
    assert_eq!(counters.get(Event::Decisions), 0);
    counters.add(Event::HintNanos, u64::MAX);
    counters.add(Event::HintNanos, 2);
    assert_eq!(counters.get(Event::HintNanos), 1);
    counters.reset();
    assert_eq!(counters.get(Event::Waves), 0);
}
