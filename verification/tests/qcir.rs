use booleanium::incdet::{IncDet, Options};
use booleanium::qcir::parse_qcir;
use booleanium::SolverResult;

/// Solves an instance and returns its verdict, inverting the one of the
/// solver for negated instances.
fn solve(input: &str) -> SolverResult {
    let qcir = parse_qcir(input).expect("parses");
    let mut solver = IncDet::from_qcnf_with_options(&qcir.qcnf, Options::default());
    let result = solver.solve();
    assert_eq!(result, qcir.qcnf.brute_force(), "solver disagrees with oracle on:\n{input}");
    if result == SolverResult::Satisfiable {
        assert!(solver.verify_skolem_functions());
    }
    if qcir.negated {
        result.negated()
    } else {
        result
    }
}

fn message(input: &str) -> (usize, String) {
    let error = parse_qcir(input).unwrap_err();
    (error.line, error.message)
}

#[test]
fn named_forall_exists() {
    // forall x exists y: x <-> y
    let input = "#QCIR-G14\nforall(x)\nexists(y)\noutput(g)\ng = and(a, b)\na = or(-x, y)\nb = or(x, -y)\n";
    assert_eq!(solve(input), SolverResult::Satisfiable);
    // forall x exists y: x /\ y is falsified by x = 0
    let input = "#QCIR-G14\nforall(x)\nexists(y)\noutput(g)\ng = and(x, y)\n";
    assert_eq!(solve(input), SolverResult::Unsatisfiable);
}

#[test]
fn cleansed_gates() {
    // xor and ite over cleansed identifiers
    let input = "#QCIR-G14\nforall(1)\nexists(2)\noutput(3)\n3 = xor(1, 2)\n";
    assert_eq!(solve(input), SolverResult::Satisfiable);
    let input = "#QCIR-G14\nforall(1, 2)\nexists(3)\noutput(4)\n4 = ite(1, 3, -3)\n";
    assert_eq!(solve(input), SolverResult::Satisfiable);
}

#[test]
fn exists_forall_by_negation() {
    // exists y forall x: x \/ y is realizable with y = 1
    let input = "#QCIR-G14\nexists(y)\nforall(x)\noutput(g)\ng = or(x, y)\n";
    let qcir = parse_qcir(input).expect("parses");
    assert!(qcir.negated);
    assert_eq!(solve(input), SolverResult::Satisfiable);
    // exists y forall x: x <-> y; no constant y works
    let input = "#QCIR-G14\nexists(y)\nforall(x)\noutput(g)\ng = and(a, b)\na = or(-x, y)\nb = or(x, -y)\n";
    assert_eq!(solve(input), SolverResult::Unsatisfiable);
}

#[test]
fn shape_errors() {
    // three genuine blocks
    let input = "#QCIR-G14\nexists(a)\nforall(x)\nexists(b)\noutput(g)\ng = and(a, b, x)\n";
    assert!(parse_qcir(input).is_err());
    // non-prenex quantifier gate
    let input = "#QCIR-G14\nforall(x)\noutput(g)\ng = exists(y; x)\n";
    assert!(parse_qcir(input).is_err());
}

#[test]
fn names_follow_first_occurrence() {
    let qcir = parse_qcir("forall(x)\noutput(-g);\n\n# gates\ng = and(x, free1)\n").expect("parses");
    assert_eq!(qcir.name_of(1).as_deref(), Some("x"));
    assert_eq!(qcir.name_of(2).as_deref(), Some("g"));
    assert_eq!(qcir.name_of(3).as_deref(), Some("free1"));
    assert_eq!(qcir.name_of(4), None);
    assert_eq!(qcir.name_of(0), None);
    assert_eq!(qcir.name_of(-1), None);
}

#[test]
fn every_error_names_its_line() {
    assert_eq!(message("x\n"), (1, "expected a declaration or gate definition".to_string()));
    assert_eq!(message("g = and(x)\n"), (1, "gate definitions must follow the output declaration".to_string()));
    assert_eq!(message("output(g)\n-g = and(x)\n"), (2, "a gate name must not be negated".to_string()));
    assert_eq!(message("output(g)\ng = and(x)\ng = or(x)\n"), (3, "gate g is defined twice".to_string()));
    assert_eq!(message("output(g)\ng = and(x\n"), (2, "expected a closing parenthesis".to_string()));
    assert_eq!(message("output(g)\ng = nand(x)\n"), (2, "unsupported gate operation nand".to_string()));
    assert_eq!(message("output(g)\ng = xor(x)\n"), (2, "xor takes exactly two arguments".to_string()));
    assert_eq!(message("output(g)\ng = ite(x, y)\n"), (2, "ite takes exactly three arguments".to_string()));
    assert_eq!(message("output(g)\ng = and(x y)\n"), (2, "invalid identifier x y".to_string()));
    assert_eq!(message("output(g)\nforall(x)\n"), (2, "quantifier blocks must precede the output".to_string()));
    assert_eq!(message("forall(-x)\n"), (1, "declared variables must not be negated".to_string()));
    assert_eq!(message("output(g)\noutput(g)\n"), (2, "duplicate output declaration".to_string()));
    assert_eq!(message("output(a, b)\n"), (1, "output takes exactly one literal".to_string()));
    assert_eq!(message("input(a)\n"), (1, "unsupported declaration input".to_string()));
    assert_eq!(message("forall(a)\n"), (1, "missing output declaration".to_string()));
    assert_eq!(message("output(g)\ng = exists(y; x)\n"), (2, "only prenex instances are supported".to_string()));
    assert_eq!(message("forall(x)\nexists(y)\nforall(z)\noutput(g)\n").1, "only 2QBF prefixes are supported".to_string());
}
