use booleanium::aiger::control::two_solver_fixpoint;
use booleanium::aiger::cover::{minimal_cover, prime_cover};
use booleanium::aiger::families::{arbiter, binary_arbiter, pursuit};
use booleanium::aiger::parse::parse_aag;
use booleanium::aiger::{losing_states, solve_safety};
use booleanium::encodings::relations::{choice_of_relation, comparator_choice, parity_equalities};
use booleanium::encodings::words::{adder_inverse, mux_tree};
use booleanium::encodings::{Circuit, Gate};
use booleanium::incdet::{IncDet, Options};
use booleanium::parity::parity;
use booleanium::qcir::parse_qcir;
use booleanium::qcnf::QCNF;
use booleanium::random::{random, random_circuit, Rng};
use booleanium::{QuantTy, SolverResult};

#[test]
fn arbiters_are_realizable_with_enough_time() {
    for (n, b) in [(1, 1), (2, 2), (2, 1)] {
        for text in [arbiter(n, b).text(), binary_arbiter(n, b).text()] {
            let outcome = solve_safety(&text, Options::default()).expect("parses");
            assert_eq!(outcome.realizable, n <= b, "{text}");
        }
    }
}

#[test]
fn arbiter_text() {
    assert_eq!(
        arbiter(1, 1).text(),
        "aag 4 2 1 1 1\n2\n4\n6 8 0\n6\n8 2 5\ni0 r0\ni1 controllable_g0\n"
    );
    let binary = parse_aag(&binary_arbiter(2, 4).text()).expect("parses");
    assert_eq!((binary.inputs.len(), binary.latches.len(), binary.outputs.len()), (4, 6, 1));
}

#[test]
fn pursuits_are_decided_alike() {
    // the robot starts in the first cell, the obstacle in the middle
    for (m, ring, may_stay) in [(2, false, true), (3, true, false)] {
        let text = pursuit(m, ring, may_stay).text();
        let losing = losing_states(&text, 2 * m).expect("parses");
        let initial = 1 + (1 << (m + m / 2));
        let control = two_solver_fixpoint(&text).expect("parses");
        assert_eq!(control.realizable, !losing[initial], "{text}");
        let outcome = solve_safety(&text, Options::default()).expect("parses");
        assert_eq!(outcome.realizable, !losing[initial], "{text}");
    }
}

#[test]
fn covers_are_small() {
    // all states but one over two latches: two cubes of one literal
    let cover = prime_cover(&vec![false, true, true, true], 2);
    assert_eq!(cover.len(), 2);
    assert!(prime_cover(&vec![false; 4], 2).is_empty());
    assert_eq!(prime_cover(&vec![true; 4], 2), vec![vec![None, None]]);
    // a parity needs a cube per state
    assert_eq!(prime_cover(&vec![false, true, true, false], 2).len(), 2);
    let text = arbiter(2, 2).text();
    let losing = losing_states(&text, 4).expect("parses");
    assert!(losing.iter().any(|&l| l));
    assert!(minimal_cover(&text, 4).expect("small") > 0);
    assert_eq!(minimal_cover(&text, 21), None);
    assert_eq!(minimal_cover("nothing", 2), None);
}

fn solve(qcnf: &QCNF) -> SolverResult {
    IncDet::from_qcnf_with_options(qcnf, Options::default()).solve()
}

/// The verdict that the three encodings of a circuit agree on.
fn encodings_agree(circuit: &Circuit) -> SolverResult {
    let parsed = parse_qcir(&circuit.to_qcir()).expect("parses");
    assert!(!parsed.negated);
    let result = solve(&parsed.qcnf);
    assert_eq!(solve(&circuit.to_two_sided()), result);
    assert_eq!(solve(&circuit.to_plaisted_greenbaum()), result);
    result
}

#[test]
fn parity_chains() {
    for n in 1..=5 {
        assert_eq!(solve(&parity(n, false)), SolverResult::Satisfiable);
        assert_eq!(solve(&parity(n, true)), SolverResult::Unsatisfiable);
    }
    let chain = parity(2, true);
    let clauses: Vec<Vec<i32>> = chain.matrix.iter().map(|c| c.iter().map(|l| l.to_dimacs()).collect()).collect();
    assert_eq!(
        clauses,
        vec![
            vec![-1, 3],
            vec![1, -3],
            vec![3, 2, -4],
            vec![-3, -2, -4],
            vec![-3, 2, 4],
            vec![3, -2, 4],
            vec![4],
        ]
    );
    assert_eq!(chain.prefix.len(), 2);
    assert_eq!(chain.prefix[0].0, QuantTy::Forall);
}

#[test]
fn parity_circuits_are_satisfiable() {
    for n in 1..=3 {
        assert_eq!(encodings_agree(&parity_equalities(n)), SolverResult::Satisfiable);
    }
}

#[test]
fn relation_circuits_are_satisfiable() {
    for n in 1..=2 {
        assert_eq!(encodings_agree(&choice_of_relation(n)), SolverResult::Satisfiable);
        assert_eq!(encodings_agree(&comparator_choice(n)), SolverResult::Satisfiable);
    }
    let circuit = choice_of_relation(3);
    assert_eq!((circuit.universals, circuit.existentials, circuit.gates.len()), (3, 3, 21));
}

#[test]
fn word_circuits_are_satisfiable() {
    assert_eq!(encodings_agree(&adder_inverse(1)), SolverResult::Satisfiable);
    assert_eq!(encodings_agree(&adder_inverse(2)), SolverResult::Satisfiable);
    assert_eq!(encodings_agree(&mux_tree(1)), SolverResult::Satisfiable);
    let tree = mux_tree(3);
    assert_eq!((tree.universals, tree.existentials, tree.gates.len()), (11, 1, 22));
    assert_eq!(tree.output, -34);
}

#[test]
fn generator_sequence() {
    let mut rng = Rng::new(1);
    assert_eq!(rng.next(), 1_082_269_761);
    let mut other = Rng::new(1);
    assert_eq!(other.below(10), 1);
    assert!(Rng::new(1).flip());
}

#[test]
fn random_instances() {
    let qcnf = random(3, 5, 12, 7);
    assert_eq!(qcnf.matrix.len(), 12);
    for clause in &qcnf.matrix {
        assert!(clause.len() >= 3 && clause.len() <= 5);
        assert!(clause[0].to_dimacs().abs() > 3);
        assert!(clause.iter().all(|lit| lit.to_dimacs().abs() <= 8));
    }
    let again = random(3, 5, 12, 7);
    assert_eq!(qcnf.matrix, again.matrix);
    for seed in 1..=6 {
        let qcnf = random(2, 3, 8, seed);
        assert_eq!(solve(&qcnf), qcnf.brute_force());
    }
}

#[test]
fn random_circuits() {
    for seed in 1..=4 {
        let circuit = random_circuit(2, 3, 6, seed);
        assert_eq!(circuit.gates.len(), 6);
        for gate in &circuit.gates {
            match gate {
                Gate::And(args) | Gate::Or(args) => assert_eq!(args.len(), 2),
                Gate::Xor(a, b) => assert!(*a != 0 && *b != 0),
            }
        }
        encodings_agree(&circuit);
    }
}
