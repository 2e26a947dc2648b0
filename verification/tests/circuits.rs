use booleanium::aiger::parse::{parse_aag, Aiger};
use booleanium::aiger::{losing_states, parse_qaiger, solve_safety, solve_safety_with_continuation, SafetyOutcome, Unroller};
use booleanium::alternation::{solve_certified, EXPANSION_BUDGET};
use booleanium::incdet::{IncDet, Options};
use booleanium::incremental::IncrementalSolver;
use booleanium::strategy_check::verify_strategy;
use booleanium::SolverResult;
use std::collections::HashMap;

const COPYCAT: &str = "aag 5 2 0 1 3\n2\n4\n10\n6 2 5\n8 3 4\n10 7 9\ni0 u\ni1 controllable_c\n";
const LATCH_DELAY: &str = "aag 2 1 1 1 0\n2\n4 2\n4\ni0 u\n";

fn is_controllable(name: &Option<Vec<char>>) -> bool {
    match name {
        Some(chars) => {
            let text: String = chars.iter().collect();
            text.starts_with("controllable_") || text.starts_with("2 ")
        }
        None => false,
    }
}

fn litval(values: &[bool], l: u64) -> bool {
    match l {
        0 => false,
        1 => true,
        _ => values[usize::try_from(l / 2).unwrap()] == (l % 2 == 0),
    }
}

/// The next state, or nothing if an error is raised.
fn advance(aiger: &Aiger, state: &[bool], inputs: &[bool]) -> Option<Vec<bool>> {
    let var = |l: u64| usize::try_from(l / 2).unwrap();
    let mut values = vec![false; usize::try_from(aiger.max_var).unwrap() + 1];
    for (pos, &input) in aiger.inputs.iter().enumerate() {
        values[var(input)] = inputs[pos];
    }
    for (idx, latch) in aiger.latches.iter().enumerate() {
        values[var(latch.lit)] = state[idx];
    }
    for and in &aiger.ands {
        values[var(and.lhs)] = litval(&values, and.rhs0) && litval(&values, and.rhs1);
    }
    if aiger.outputs.iter().any(|&out| litval(&values, out)) {
        return None;
    }
    Some(aiger.latches.iter().map(|l| litval(&values, l.next)).collect())
}

fn positions(aiger: &Aiger, want: bool) -> Vec<usize> {
    (0..aiger.inputs.len()).filter(|&p| is_controllable(&aiger.input_names[p]) == want).collect()
}

fn inputs_of(aiger: &Aiger, env: u64, ctl: u64) -> Vec<bool> {
    let mut inputs = vec![false; aiger.inputs.len()];
    for (bit, &pos) in positions(aiger, false).iter().enumerate() {
        inputs[pos] = env >> bit & 1 == 1;
    }
    for (bit, &pos) in positions(aiger, true).iter().enumerate() {
        inputs[pos] = ctl >> bit & 1 == 1;
    }
    inputs
}

fn initial(aiger: &Aiger) -> Vec<bool> {
    aiger.latches.iter().map(|l| l.reset == 1).collect()
}

/// For every move of the environment there is an answer that stays safe now
/// and keeps the remaining steps winnable.
fn reactive_from(aiger: &Aiger, state: &[bool], k: u32) -> bool {
    if k == 0 {
        return true;
    }
    (0..1u64 << positions(aiger, false).len()).all(|env| {
        (0..1u64 << positions(aiger, true).len()).any(|ctl| {
            match advance(aiger, state, &inputs_of(aiger, env, ctl)) {
                Some(next) => reactive_from(aiger, &next, k - 1),
                None => false,
            }
        })
    })
}

/// For every input sequence there is a controllable one that keeps every
/// step safe.
fn clairvoyant_safe(aiger: &Aiger, k: u32) -> bool {
    let u = positions(aiger, false).len();
    let c = positions(aiger, true).len();
    (0..1u64 << (u * k as usize)).all(|us| {
        (0..1u64 << (c * k as usize)).any(|cs| {
            let mut state = initial(aiger);
            for t in 0..k as usize {
                let env = us >> (t * u) & ((1 << u) - 1);
                let ctl = cs >> (t * c) & ((1 << c) - 1);
                match advance(aiger, &state, &inputs_of(aiger, env, ctl)) {
                    Some(next) => state = next,
                    None => return false,
                }
            }
            true
        })
    })
}

fn state_of(n: usize, latches: usize) -> Vec<bool> {
    (0..latches).map(|i| n >> i & 1 == 1).collect()
}

fn index_of(state: &[bool]) -> usize {
    state.iter().enumerate().fold(0, |acc, (i, &b)| if b { acc | 1 << i } else { acc })
}

/// The winning states, by explicit backward iteration.
fn winning_states(aiger: &Aiger) -> Vec<bool> {
    let latches = aiger.latches.len();
    let mut region = vec![true; 1 << latches];
    loop {
        let next: Vec<bool> = (0..region.len())
            .map(|n| {
                region[n]
                    && (0..1u64 << positions(aiger, false).len()).all(|env| {
                        (0..1u64 << positions(aiger, true).len()).any(|ctl| {
                            match advance(aiger, &state_of(n, latches), &inputs_of(aiger, env, ctl)) {
                                Some(next) => region[index_of(&next)],
                                None => false,
                            }
                        })
                    })
            })
            .collect();
        if next == region {
            return region;
        }
        region = next;
    }
}

/// Runs the refinement loop and checks its answer, and its whole winning
/// region, against the explicit fixpoint.
fn check_safety(text: &str) -> SafetyOutcome {
    let aiger = parse_aag(text).expect("parses");
    let expected = winning_states(&aiger);
    let outcome = solve_safety(text, Options::default()).expect("spec parses");
    for (state, &winning) in expected.iter().enumerate() {
        let removed = outcome
            .losing
            .iter()
            .any(|cube| cube.iter().all(|&(idx, value)| (state >> idx & 1 == 1) == value));
        assert_eq!(!removed, winning, "state {state} of:\n{text}");
    }
    assert_eq!(outcome.realizable, expected[index_of(&initial(&aiger))], "verdict of:\n{text}");
    let listed = losing_states(text, aiger.latches.len()).expect("spec parses");
    let inverted: Vec<bool> = expected.iter().map(|&w| !w).collect();
    assert_eq!(listed, inverted);
    outcome
}

fn check_unrolling(text: &str, k: u32, continuation: bool) -> Vec<SolverResult> {
    let aiger = parse_aag(text).expect("parses");
    let mut unroller = Unroller::new(text).expect("parses");
    let mut solver = IncrementalSolver::new(Options::default());
    solver.set_continuation(continuation);
    let mut verdicts = Vec::new();
    for t in 1..=k {
        unroller.step(&mut solver);
        assert_eq!(unroller.depth(), t);
        assert_eq!(unroller.current_inputs().len(), aiger.inputs.len());
        let result = solver.solve();
        let expected = if clairvoyant_safe(&aiger, t) { SolverResult::Satisfiable } else { SolverResult::Unsatisfiable };
        assert_eq!(result, expected, "depth {t} of:\n{text}");
        if result == SolverResult::Satisfiable {
            assert!(solver.verify(), "certificate at depth {t} of:\n{text}");
        }
        verdicts.push(result);
    }
    verdicts
}

fn check_alternating(text: &str, k: u32) -> Vec<SolverResult> {
    let aiger = parse_aag(text).expect("parses");
    let unroller = Unroller::new(text).expect("parses");
    let mut verdicts = Vec::new();
    for t in 1..=k {
        let qcnf = unroller.alternating(t);
        let (result, strategy) = solve_certified(&qcnf, Options::default(), EXPANSION_BUDGET);
        let expected =
            if reactive_from(&aiger, &initial(&aiger), t) { SolverResult::Satisfiable } else { SolverResult::Unsatisfiable };
        assert_eq!(result, expected, "depth {t} of:\n{text}");
        if result == SolverResult::Satisfiable {
            let strategy = strategy.expect("a satisfiable answer carries a strategy");
            assert!(verify_strategy(&qcnf, &strategy), "strategy at depth {t} of:\n{text}");
        }
        verdicts.push(result);
    }
    verdicts
}

fn solve(input: &str) -> SolverResult {
    let qcnf = parse_qaiger(input).expect("parses");
    let mut solver = IncDet::from_qcnf_with_options(&qcnf, Options::default());
    let result = solver.solve();
    assert_eq!(result, qcnf.brute_force());
    if result == SolverResult::Satisfiable {
        assert!(solver.verify_skolem_functions());
    }
    result
}

#[test]
fn qaiger_and() {
    // forall x, exists y: x & y; the universal x can be false
    let input = "aag 3 2 0 1 1\n2\n4\n6\n6 2 4\ni0 1 x\ni1 2 y\n";
    assert_eq!(solve(input), SolverResult::Unsatisfiable);
}

#[test]
fn qaiger_equiv() {
    // forall x, exists y: x <-> y
    let input = "aag 5 2 0 1 3\n2\n4\n10\n6 2 5\n8 3 4\n10 7 9\ni0 1 x\ni1 2 y\n";
    assert_eq!(solve(input), SolverResult::Satisfiable);
}

#[test]
fn qaiger_constant_output() {
    // output is the constant true, no inputs matter
    let input = "aag 1 1 0 1 0\n2\n1\ni0 1 x\n";
    assert_eq!(solve(input), SolverResult::Satisfiable);
    let input = "aag 1 1 0 1 0\n2\n0\ni0 1 x\n";
    assert_eq!(solve(input), SolverResult::Unsatisfiable);
}

#[test]
fn safety_generalizes_only_what_it_may() {
    // the error is a latch, so latch 0 is losing outright, and from
    // "not latch 0 and latch 1" the controller cannot stop latch 0 rising
    let text = "aag 11 3 2 1 6\n2\n4\n6\n8 15 1\n10 8 0\n8\n12 6 4\n14 6 11\n16 14 14\n18 13 9\n20 4 2\n22 17 15\ni0 u0\ni1 controllable_c1\ni2 controllable_c2\n";
    let outcome = check_safety(text);
    assert!(!outcome.realizable, "the initial state has the error latch set");
    assert_eq!(outcome.losing.len(), 2);
}

#[test]
fn safety_copycat_is_realizable() {
    // error = u xor c: the controller copies and wins forever, so no state
    // is ever removed and the fixpoint is immediate
    let outcome = check_safety(COPYCAT);
    assert!(outcome.realizable);
    assert!(outcome.losing.is_empty());
    // one round establishes that every state is safe, one that the
    // controller can stay among them
    assert_eq!((outcome.safe_rounds, outcome.rounds), (1, 2));
}

#[test]
fn safety_latch_delay_is_unrealizable() {
    let outcome = check_safety(LATCH_DELAY);
    assert!(!outcome.realizable);
}

#[test]
fn safety_refines_to_a_nontrivial_region() {
    // error = latch AND u; latch next = c
    let text = "aag 4 2 1 1 1\n2\n4\n6 4 0\n8\n8 6 2\ni0 u\ni1 controllable_c\n";
    let outcome = check_safety(text);
    assert!(outcome.realizable);
    assert_eq!(outcome.losing.len(), 1);
}

#[test]
fn safety_does_not_depend_on_continuation() {
    let text = "aag 4 2 1 1 1\n2\n4\n6 4 0\n8\n8 6 2\ni0 u\ni1 controllable_c\n";
    let rebuilt = solve_safety_with_continuation(text, Options::default(), false).expect("spec parses");
    let continued = solve_safety_with_continuation(text, Options::default(), true).expect("spec parses");
    assert_eq!(rebuilt.realizable, continued.realizable);
    assert_eq!(rebuilt.extensions, 0);
}

#[test]
fn games_report_what_is_wrong() {
    let error = solve_safety("aag 2 1 0 1 0\n2\n4\n", Options::default()).unwrap_err();
    assert_eq!((error.line, error.message.as_str()), (1, "an undefined variable is read"));
    let error = losing_states(LATCH_DELAY, 3).unwrap_err();
    assert_eq!(error.message.as_str(), "the number of latches is another");
    assert!(parse_qaiger("aig 0 0 0 0 0\n").is_err());
    assert!(Unroller::new("aag 1 1 0 0 0\n").is_err());
}

#[test]
fn alternating_latch_delay() {
    assert_eq!(check_alternating(LATCH_DELAY, 2), [SolverResult::Satisfiable, SolverResult::Unsatisfiable]);
}

#[test]
fn alternating_copycat() {
    assert!(check_alternating(COPYCAT, 4).iter().all(|&v| v == SolverResult::Satisfiable));
}

#[test]
fn alternating_refuses_clairvoyance() {
    // the controller must announce the next input
    let text = "aag 8 2 2 1 4\n2\n4\n6 4 0\n8 1 0\n16\n10 6 3\n12 7 2\n14 11 13\n16 8 15\ni0 u\ni1 controllable_c\n";
    let aiger = parse_aag(text).expect("parses");
    for k in 1..=3 {
        assert!(clairvoyant_safe(&aiger, k), "clairvoyant depth {k}");
    }
    assert_eq!(
        check_alternating(text, 3),
        [SolverResult::Satisfiable, SolverResult::Unsatisfiable, SolverResult::Unsatisfiable]
    );
}

#[test]
fn unroller_latch_delay() {
    let verdicts = check_unrolling(LATCH_DELAY, 2, true);
    assert_eq!(verdicts, [SolverResult::Satisfiable, SolverResult::Unsatisfiable]);
}

#[test]
fn unroller_reset_one() {
    // error = latch with reset 1: lost at depth 1 already
    let text = "aag 2 1 1 1 0\n2\n4 0 1\n4\ni0 u\n";
    assert_eq!(check_unrolling(text, 1, true), [SolverResult::Unsatisfiable]);
}

#[test]
fn unroller_copycat() {
    let verdicts = check_unrolling(COPYCAT, 4, true);
    assert!(verdicts.iter().all(|&v| v == SolverResult::Satisfiable));
    // the copy strategy is forced and reads only the current step
    let mut unroller = Unroller::new(COPYCAT).expect("parses");
    let mut solver = IncrementalSolver::new(Options::default());
    for _ in 0..4 {
        unroller.step(&mut solver);
        assert_eq!(solver.solve(), SolverResult::Satisfiable);
    }
    let strategy = solver.skolem_model().expect("satisfiable").to_aiger(&HashMap::new());
    assert!(unroller.strategy_is_causal(&strategy).expect("strategy parses"));
}

#[test]
fn unroller_clairvoyance_is_detected() {
    let text = "aag 8 2 2 1 4\n2\n4\n6 4\n8 1\n16\n10 6 3\n12 7 2\n14 11 13\n16 8 15\ni0 u\ni1 controllable_c\n";
    let verdicts = check_unrolling(text, 3, true);
    assert!(verdicts.iter().all(|&v| v == SolverResult::Satisfiable));
    let mut unroller = Unroller::new(text).expect("parses");
    let mut solver = IncrementalSolver::new(Options::default());
    for _ in 0..3 {
        unroller.step(&mut solver);
        assert_eq!(solver.solve(), SolverResult::Satisfiable);
    }
    let strategy = solver.skolem_model().expect("satisfiable").to_aiger(&HashMap::new());
    assert!(!unroller.strategy_is_causal(&strategy).expect("strategy parses"));
}
