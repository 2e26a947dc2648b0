//! Whether a strategy circuit for an unrolling looks into the future.
use crate::aiger::circuit::Circuit;
use crate::aiger::parse::{held_name, Aiger, ParseError};
use crate::aiger::qaiger::{gate_holds, lemma_pair, lemma_triple, lemma_unit, own_lit, parse_circuit, reads_circuit, true_var};
use crate::aiger::safety::first_line_error;
use crate::aiger::unroll::Unroller;
use crate::literal::{lit_of, var_of, Lit, Var};
use crate::sat::{clauses_ok, lit_ok, lits_ok, SatOutcome, SatSolver, MAX_NUMBER};
use crate::scan::{number, parse_number};
use crate::semantics::{clause_true, cube_true, lit_true, matrix_true, Assignment};
use vstd::prelude::*;

verus! {

broadcast use crate::literal::group_literal;

/// The step and the controllability of a variable, from its last
/// declaration.
pub open spec fn declared_as(declared: Seq<(u32, u32, bool)>, var: u64) -> Option<(u32, bool)>
    decreases declared.len(),
{
    if declared.len() == 0 {
        None
    } else if declared.last().0 == var {
        Some((declared.last().1, declared.last().2))
    } else {
        declared_as(declared.drop_last(), var)
    }
}

/// The declaration that a name refers to by its number.
pub open spec fn named_declaration(declared: Seq<(u32, u32, bool)>, name: Option<Vec<char>>) -> Option<(u32, bool)> {
    match held_name(name) {
        Some(chars) => match number(chars) {
            Some(var) => declared_as(declared, var),
            None => None,
        },
        None => None,
    }
}

/// The assignment satisfies the gates of the circuit.
pub open spec fn runs(aiger: Aiger, a: Assignment) -> bool {
    &&& a(true_var(aiger))
    &&& forall|i: int| 0 <= i < aiger.ands@.len() ==> gate_holds(aiger, a, #[trigger] aiger.ands@[i])
}

/// The assignments agree on the inputs of the steps up to the given one.
pub open spec fn agree_to_step(declared: Seq<(u32, u32, bool)>, aiger: Aiger, step: u32, a: Assignment, b: Assignment) -> bool {
    forall|i: int|
        0 <= i < aiger.inputs@.len() ==> (named_declaration(declared, #[trigger] aiger.input_names@[i]) matches Some(d) && d.0 <= step ==> a(
            var_of(aiger.inputs@[i] as int / 2),
        ) == b(var_of(aiger.inputs@[i] as int / 2)))
}

/// An output depends only on the inputs of steps up to the given one.
pub open spec fn depends_to_step(declared: Seq<(u32, u32, bool)>, aiger: Aiger, step: u32, out: u64) -> bool {
    forall|a: Assignment, b: Assignment|
        #![trigger runs(aiger, a), runs(aiger, b)]
        runs(aiger, a) && runs(aiger, b) && agree_to_step(declared, aiger, step, a, b) ==> lit_true(a, own_lit(aiger, out)) == lit_true(
            b,
            own_lit(aiger, out),
        )
}

/// An output for a controllable input depends only on inputs of its own
/// step or earlier.
pub open spec fn output_causal(declared: Seq<(u32, u32, bool)>, aiger: Aiger, position: int) -> bool {
    match named_declaration(declared, aiger.output_names@[position]) {
        Some(d) => d.1 ==> depends_to_step(declared, aiger, d.0, aiger.outputs@[position]),
        None => true,
    }
}

/// Every output for a controllable input depends only on inputs of its own
/// step or earlier.
pub open spec fn causal(declared: Seq<(u32, u32, bool)>, aiger: Aiger) -> bool {
    forall|p: int| 0 <= p < aiger.outputs@.len() ==> #[trigger] output_causal(declared, aiger, p)
}

/// Two copies of the circuit are within the numbering of the back end.
pub open spec fn copies_fit(aiger: Aiger) -> bool {
    2 * (aiger.max_var + 1) <= MAX_NUMBER
}

/// A literal in one of two copies of the circuit, which share the constant.
spec fn key(aiger: Aiger, lit: u64, second: bool) -> Lit {
    let offset = aiger.max_var + 1;
    if lit < 2 {
        lit_of(var_of(2 * offset), lit == 1)
    } else {
        lit_of(var_of(lit as int / 2 + if second { offset } else { 0 }), lit % 2 == 0)
    }
}

/// The values of one of the copies.
spec fn copy_of(aiger: Aiger, s: Assignment, second: bool) -> Assignment {
    let offset = aiger.max_var + 1;
    |x: Var|
        if x.dimacs() == offset {
            s(var_of(2 * offset))
        } else {
            s(var_of(x.dimacs() + if second { offset } else { 0 }))
        }
}

/// The values of both copies.
spec fn both(aiger: Aiger, a: Assignment, b: Assignment) -> Assignment {
    let offset = aiger.max_var + 1;
    |x: Var|
        if x.dimacs() < offset {
            a(x)
        } else if x.dimacs() == 2 * offset {
            true
        } else {
            b(var_of(x.dimacs() - offset))
        }
}

proof fn lemma_small(n: int, polarity: bool)
    requires
        1 <= n <= MAX_NUMBER,
    ensures
        var_of(n).dimacs() == n,
        lit_of(var_of(n), polarity).v() == var_of(n),
        lit_of(var_of(n), polarity).pos() == polarity,
{
    crate::literal::lemma_var_index(n - 1);
    crate::literal::lemma_lit_of(var_of(n), polarity);
}

/// A literal in a copy has its value there.
proof fn lemma_key(aiger: Aiger, s: Assignment, lit: u64, second: bool)
    requires
        copies_fit(aiger),
        lit as int / 2 <= aiger.max_var,
    ensures
        lit_true(s, key(aiger, lit, second)) == lit_true(copy_of(aiger, s, second), own_lit(aiger, lit)),
        lit_ok(key(aiger, lit, second)),
{
    let offset = aiger.max_var + 1;
    lemma_small(2 * offset, lit == 1);
    lemma_small(offset as int, lit == 1);
    if lit >= 2 {
        lemma_small(lit as int / 2, lit % 2 == 0);
        lemma_small(lit as int / 2 + if second { offset } else { 0 }, lit % 2 == 0);
    }
}

/// The copies of two assignments are those assignments, as far as the
/// circuit reads them.
proof fn lemma_both(aiger: Aiger, a: Assignment, b: Assignment, lit: u64)
    requires
        copies_fit(aiger),
        a(true_var(aiger)),
        b(true_var(aiger)),
        lit as int / 2 <= aiger.max_var,
    ensures
        lit_true(copy_of(aiger, both(aiger, a, b), false), own_lit(aiger, lit)) == lit_true(a, own_lit(aiger, lit)),
        lit_true(copy_of(aiger, both(aiger, a, b), true), own_lit(aiger, lit)) == lit_true(b, own_lit(aiger, lit)),
{
    let offset = aiger.max_var + 1;
    lemma_small(2 * offset, true);
    lemma_small(offset as int, lit == 1);
    if lit >= 2 {
        lemma_small(lit as int / 2, lit % 2 == 0);
        lemma_small(lit as int / 2 + offset, lit % 2 == 0);
    }
}

/// A literal in one of the copies.
fn keyed(aiger: &Aiger, lit: u64, second: bool) -> (result: Lit)
    requires
        copies_fit(*aiger),
        lit as int / 2 <= aiger.max_var,
    ensures
        result == key(*aiger, lit, second),
        lit_ok(result),
{
    let offset = aiger.max_var as i32 + 1;
    let n: i32 = if lit < 2 {
        2 * offset
    } else if second {
        (lit / 2) as i32 + offset
    } else {
        (lit / 2) as i32
    };
    let positive = lit == 1 || (lit >= 2 && lit % 2 == 0);
    let x = Var::from_dimacs(n);
    let result = Lit::from_var(x, positive);
    proof {
        crate::literal::lemma_var_of(x);
        lemma_small(n as int, positive);
        crate::literal::lemma_lit_ext(result, key(*aiger, lit, second));
    }
    result
}

/// Adds a clause within the numbering.
fn post(solver: &mut SatSolver, clause: Vec<Lit>)
    requires
        old(solver).wf(),
        clauses_ok(old(solver).clauses()),
        lits_ok(clause@),
    ensures
        final(solver).wf(),
        clauses_ok(final(solver).clauses()),
        forall|a: Assignment| #[trigger]
            matrix_true(a, final(solver).clauses()) <==> matrix_true(a, old(solver).clauses()) && clause_true(a, clause@),
{
    let ghost m = solver.clauses();
    solver.add_clause(&clause);
    proof {
        let after = solver.clauses();
        assert forall|i: int| 0 <= i < after.len() implies lits_ok(#[trigger] after[i]) by {
            if i < m.len() {
                assert(after[i] == m[i]);
            }
        }
        assert forall|a: Assignment| #[trigger] matrix_true(a, after) <==> matrix_true(a, m) && clause_true(a, clause@) by {
            crate::simplify::lemma_push_true(a, m, clause@);
        }
    }
}

/// Adds the clauses that make two literals equal.
fn post_equal(solver: &mut SatSolver, l: Lit, m: Lit)
    requires
        old(solver).wf(),
        clauses_ok(old(solver).clauses()),
        lit_ok(l),
        lit_ok(m),
    ensures
        final(solver).wf(),
        clauses_ok(final(solver).clauses()),
        forall|a: Assignment| #[trigger]
            matrix_true(a, final(solver).clauses()) <==> matrix_true(a, old(solver).clauses()) && lit_true(a, l) == lit_true(a, m),
{
    let first: Vec<Lit> = vec![l.negated(), m];
    let second: Vec<Lit> = vec![l, m.negated()];
    assert(first@ =~= seq![l.neg(), m]);
    assert(second@ =~= seq![l, m.neg()]);
    let ghost start = solver.clauses();
    post(solver, first);
    let ghost middle = solver.clauses();
    post(solver, second);
    proof {
        assert forall|a: Assignment| #[trigger] matrix_true(a, solver.clauses()) <==> matrix_true(a, start) && lit_true(a, l) == lit_true(a, m) by {
            assert(matrix_true(a, solver.clauses()) <==> matrix_true(a, middle) && clause_true(a, second@));
            lemma_pair(a, l.neg(), m);
            lemma_pair(a, l, m.neg());
        }
    }
}

/// Adds the clauses of a gate.
fn post_gate(solver: &mut SatSolver, lhs: Lit, rhs0: Lit, rhs1: Lit)
    requires
        old(solver).wf(),
        clauses_ok(old(solver).clauses()),
        lit_ok(lhs),
        lit_ok(rhs0),
        lit_ok(rhs1),
    ensures
        final(solver).wf(),
        clauses_ok(final(solver).clauses()),
        forall|a: Assignment| #[trigger]
            matrix_true(a, final(solver).clauses()) <==> matrix_true(a, old(solver).clauses()) && lit_true(a, lhs) == (lit_true(a, rhs0) && lit_true(
                a,
                rhs1,
            )),
{
    let first: Vec<Lit> = vec![lhs.negated(), rhs0];
    let second: Vec<Lit> = vec![lhs.negated(), rhs1];
    let third: Vec<Lit> = vec![lhs, rhs0.negated(), rhs1.negated()];
    assert(first@ =~= seq![lhs.neg(), rhs0]);
    assert(second@ =~= seq![lhs.neg(), rhs1]);
    assert(third@ =~= seq![lhs, rhs0.neg(), rhs1.neg()]);
    let ghost start = solver.clauses();
    post(solver, first);
    let ghost one = solver.clauses();
    post(solver, second);
    let ghost two = solver.clauses();
    post(solver, third);
    proof {
        assert forall|a: Assignment| #[trigger] matrix_true(a, solver.clauses()) <==> matrix_true(a, start) && lit_true(a, lhs) == (lit_true(
            a,
            rhs0,
        ) && lit_true(a, rhs1)) by {
            assert(matrix_true(a, two) <==> matrix_true(a, one) && clause_true(a, second@));
            assert(matrix_true(a, one) <==> matrix_true(a, start) && clause_true(a, first@));
            lemma_pair(a, lhs.neg(), rhs0);
            lemma_pair(a, lhs.neg(), rhs1);
            lemma_triple(a, lhs, rhs0.neg(), rhs1.neg());
        }
    }
}

/// The first gates of a copy hold.
spec fn copy_runs(aiger: Aiger, s: Assignment, second: bool, count: int) -> bool {
    forall|i: int| 0 <= i < count ==> gate_holds(aiger, copy_of(aiger, s, second), #[trigger] aiger.ands@[i])
}

/// The copies agree on the first inputs of steps up to the given one.
spec fn copies_agree(declared: Seq<(u32, u32, bool)>, aiger: Aiger, step: u32, s: Assignment, count: int) -> bool {
    forall|i: int|
        0 <= i < count ==> (named_declaration(declared, #[trigger] aiger.input_names@[i]) matches Some(d) && d.0 <= step ==> lit_true(
            copy_of(aiger, s, false),
            own_lit(aiger, aiger.inputs@[i]),
        ) == lit_true(copy_of(aiger, s, true), own_lit(aiger, aiger.inputs@[i])))
}

/// Adds the gates of a copy.
fn post_copy(solver: &mut SatSolver, aiger: &Aiger, second: bool)
    requires
        old(solver).wf(),
        clauses_ok(old(solver).clauses()),
        copies_fit(*aiger),
        crate::aiger::circuit::literals_in_range(*aiger),
    ensures
        final(solver).wf(),
        clauses_ok(final(solver).clauses()),
        forall|a: Assignment| #[trigger]
            matrix_true(a, final(solver).clauses()) <==> matrix_true(a, old(solver).clauses()) && copy_runs(
                *aiger,
                a,
                second,
                aiger.ands@.len() as int,
            ),
{
    let ghost start = solver.clauses();
    let mut k: usize = 0;
    while k < aiger.ands.len()
        invariant
            k <= aiger.ands.len(),
            start == old(solver).clauses(),
            solver.wf(),
            clauses_ok(solver.clauses()),
            copies_fit(*aiger),
            crate::aiger::circuit::literals_in_range(*aiger),
            forall|a: Assignment| #[trigger]
                matrix_true(a, solver.clauses()) <==> matrix_true(a, start) && copy_runs(*aiger, a, second, k as int),
        decreases aiger.ands.len() - k,
    {
        let and = aiger.ands[k];
        assert(aiger.ands@[k as int].lhs as int / 2 <= aiger.max_var);
        let lhs = keyed(aiger, and.lhs, second);
        let rhs0 = keyed(aiger, and.rhs0, second);
        let rhs1 = keyed(aiger, and.rhs1, second);
        let ghost m = solver.clauses();
        post_gate(solver, lhs, rhs0, rhs1);
        proof {
            assert forall|a: Assignment| #[trigger] matrix_true(a, solver.clauses()) <==> matrix_true(a, start) && copy_runs(
                *aiger,
                a,
                second,
                k + 1,
            ) by {
                assert(matrix_true(a, m) <==> matrix_true(a, start) && copy_runs(*aiger, a, second, k as int));
                lemma_key(*aiger, a, and.lhs, second);
                lemma_key(*aiger, a, and.rhs0, second);
                lemma_key(*aiger, a, and.rhs1, second);
                assert(gate_holds(*aiger, copy_of(*aiger, a, second), aiger.ands@[k as int]) == (lit_true(a, lhs) == (lit_true(a, rhs0) && lit_true(
                    a,
                    rhs1,
                ))));
            }
        }
        k += 1;
    }
}

impl Unroller {
    /// The step and the controllability that a name refers to.
    fn declaration(&self, name: &Option<Vec<char>>) -> (result: Option<(u32, bool)>)
        ensures
            result == named_declaration(self.declared(), *name),
    {
        match name {
            None => None,
            Some(chars) => match parse_number(chars) {
                None => None,
                Some(var) => {
                    let declared = self.declared_list();
                    let mut k: usize = declared.len();
                    proof {
                        assert(declared@.take(k as int) =~= declared@);
                    }
                    while k > 0
                        invariant
                            k <= declared@.len(),
                            named_declaration(self.declared(), *name) == declared_as(declared@, var),
                            declared_as(declared@, var) == declared_as(declared@.take(k as int), var),
                        decreases k,
                    {
                        let entry = declared[k - 1];
                        proof {
                            let upto = declared@.take(k as int);
                            assert(upto.last() == entry);
                            assert(upto.drop_last() =~= declared@.take(k - 1));
                        }
                        if entry.0 as u64 == var {
                            return Some((entry.1, entry.2));
                        }
                        k -= 1;
                    }
                    None
                },
            },
        }
    }

    /// Whether an output depends only on inputs up to a step.
    fn is_decided_by(&self, aiger: &Aiger, step: u32, out: u64) -> (yes: bool)
        requires
            copies_fit(*aiger),
            crate::aiger::circuit::literals_in_range(*aiger),
            crate::aiger::qaiger::entries_are_variables(*aiger),
            aiger.input_names@.len() == aiger.inputs@.len(),
            out as int / 2 <= aiger.max_var,
        ensures
            yes == depends_to_step(self.declared(), *aiger, step, out),
    {
        let ghost declared = self.declared();
        let mut solver = SatSolver::new();
        let truth = keyed(aiger, 1, false);
        let unit: Vec<Lit> = vec![truth];
        assert(unit@ =~= seq![truth]);
        post(&mut solver, unit);
        proof {
            assert forall|a: Assignment| #[trigger] matrix_true(a, solver.clauses()) <==> lit_true(a, truth) by {
                lemma_unit(a, truth);
            }
        }
        let ghost m0 = solver.clauses();
        post_copy(&mut solver, aiger, false);
        let ghost m1 = solver.clauses();
        post_copy(&mut solver, aiger, true);
        let ghost m2 = solver.clauses();
        let mut k: usize = 0;
        while k < aiger.inputs.len()
            invariant
                k <= aiger.inputs.len(),
                aiger.input_names@.len() == aiger.inputs@.len(),
                solver.wf(),
                clauses_ok(solver.clauses()),
                copies_fit(*aiger),
                crate::aiger::circuit::literals_in_range(*aiger),
                declared == self.declared(),
                forall|a: Assignment| #[trigger]
                    matrix_true(a, solver.clauses()) <==> matrix_true(a, m2) && copies_agree(declared, *aiger, step, a, k as int),
            decreases aiger.inputs.len() - k,
        {
            let ghost m = solver.clauses();
            let input = aiger.inputs[k];
            assert(aiger.inputs@[k as int] as int / 2 <= aiger.max_var);
            let found = self.declaration(&aiger.input_names[k]);
            let shared = match found {
                Some(entry) => entry.0 <= step,
                None => false,
            };
            if shared {
                let a = keyed(aiger, input, false);
                let b = keyed(aiger, input, true);
                post_equal(&mut solver, a, b);
            }
            proof {
                assert forall|a: Assignment| #[trigger] matrix_true(a, solver.clauses()) <==> matrix_true(a, m2) && copies_agree(
                    declared,
                    *aiger,
                    step,
                    a,
                    k + 1,
                ) by {
                    assert(matrix_true(a, m) <==> matrix_true(a, m2) && copies_agree(declared, *aiger, step, a, k as int));
                    lemma_key(*aiger, a, input, false);
                    lemma_key(*aiger, a, input, true);
                    assert(named_declaration(declared, aiger.input_names@[k as int]) == found);
                }
            }
            k += 1;
        }
        let ghost m3 = solver.clauses();
        let a = keyed(aiger, out, false);
        let b = keyed(aiger, out, true);
        post_equal(&mut solver, a, b.negated());
        let ghost m4 = solver.clauses();
        let outcome = solver.solve();
        let ghost all = aiger.ands@.len() as int;
        let ghost inputs = aiger.inputs@.len() as int;
        proof {
            assert forall|s: Assignment| #[trigger] matrix_true(s, m4) <==> {
                &&& lit_true(s, truth)
                &&& copy_runs(*aiger, s, false, all)
                &&& copy_runs(*aiger, s, true, all)
                &&& copies_agree(declared, *aiger, step, s, inputs)
                &&& lit_true(s, a) != lit_true(s, b)
            } by {
                assert(matrix_true(s, m3) <==> matrix_true(s, m2) && copies_agree(declared, *aiger, step, s, inputs));
                assert(matrix_true(s, m2) <==> matrix_true(s, m1) && copy_runs(*aiger, s, true, all));
                assert(matrix_true(s, m1) <==> matrix_true(s, m0) && copy_runs(*aiger, s, false, all));
            }
        }
        match outcome {
            SatOutcome::Sat(model) => {
                proof {
                    let s = crate::incdet::determinacy::model_assignment(model@);
                    crate::incdet::determinacy::lemma_model_assignment(model@);
                    assert(matrix_true(s, m4));
                    let x = copy_of(*aiger, s, false);
                    let y = copy_of(*aiger, s, true);
                    lemma_copy_truth(*aiger, s);
                    assert(runs(*aiger, x) && runs(*aiger, y));
                    lemma_key(*aiger, s, out, false);
                    lemma_key(*aiger, s, out, true);
                    lemma_inputs(declared, *aiger, step, x, y);
                    assert(agree_to_step(declared, *aiger, step, x, y));
                    assert(lit_true(x, own_lit(*aiger, out)) != lit_true(y, own_lit(*aiger, out)));
                }
                false
            },
            SatOutcome::Unsat => {
                proof {
                    assert forall|x: Assignment, y: Assignment|
                        #![trigger runs(*aiger, x), runs(*aiger, y)]
                        runs(*aiger, x) && runs(*aiger, y) && agree_to_step(declared, *aiger, step, x, y) implies lit_true(x, own_lit(*aiger, out))
                        == lit_true(y, own_lit(*aiger, out)) by {
                        let s = both(*aiger, x, y);
                        assert(cube_true(s, Seq::empty()));
                        assert(!matrix_true(s, m4));
                        lemma_both(*aiger, x, y, out);
                        lemma_key(*aiger, s, out, false);
                        lemma_key(*aiger, s, out, true);
                        lemma_both(*aiger, x, y, 1);
                        lemma_key(*aiger, s, 1, false);
                        lemma_small(aiger.max_var + 1, true);
                        assert(lit_true(s, truth));
                        lemma_inputs(declared, *aiger, step, x, y);
                        assert forall|i: int| 0 <= i < aiger.ands@.len() implies gate_holds(
                            *aiger,
                            copy_of(*aiger, s, false),
                            #[trigger] aiger.ands@[i],
                        ) && gate_holds(*aiger, copy_of(*aiger, s, true), aiger.ands@[i]) by {
                            let and = aiger.ands@[i];
                            assert(gate_holds(*aiger, x, and) && gate_holds(*aiger, y, and));
                            lemma_both(*aiger, x, y, and.lhs);
                            lemma_both(*aiger, x, y, and.rhs0);
                            lemma_both(*aiger, x, y, and.rhs1);
                        }
                        assert forall|i: int|
                            0 <= i < inputs && (named_declaration(declared, #[trigger] aiger.input_names@[i]) matches Some(d) && d.0
                                <= step) implies lit_true(copy_of(*aiger, s, false), own_lit(*aiger, aiger.inputs@[i])) == lit_true(
                            copy_of(*aiger, s, true),
                            own_lit(*aiger, aiger.inputs@[i]),
                        ) by {
                            assert(aiger.inputs@[i] as int / 2 <= aiger.max_var);
                            lemma_both(*aiger, x, y, aiger.inputs@[i]);
                        }
                    }
                }
                true
            },
            SatOutcome::OutOfRange => {
                assert(lits_ok(Seq::<Lit>::empty()));
                true
            },
        }
    }

    /// Checks whether a strategy circuit for this unrolling (an ASCII AIGER
    /// with numeric labels) is *causal*: every controllable input's value
    /// depends only on uncontrollable inputs of its own step or earlier. A
    /// bounded answer is only a *necessary* condition for realizability
    /// because its Skolem functions may read future universal inputs; a
    /// causal strategy closes the gap. The check is *semantic*: per
    /// controllable output, a query asks whether two copies of the circuit
    /// that agree on all inputs of steps up to the output's step can
    /// disagree on the output.
    pub fn strategy_is_causal(&self, strategy: &str) -> (result: Result<bool, ParseError>)
        ensures
            match result {
                Ok(yes) => exists|circuit: Circuit| #[trigger]
                    reads_circuit(strategy@, Ok(circuit)) && copies_fit(circuit.aiger) && yes == causal(self.declared(), circuit.aiger),
                Err(error) => reads_circuit(strategy@, Err(error)) || exists|circuit: Circuit| #[trigger]
                    reads_circuit(strategy@, Ok(circuit)) && !copies_fit(circuit.aiger) && error.line == 1 && error.message@
                        == "the strategy is too large"@,
            },
    {
        let circuit = match parse_circuit(strategy) {
            Ok(circuit) => circuit,
            Err(error) => return Err(error),
        };
        assert(reads_circuit(strategy@, Ok(circuit)));
        if circuit.aiger.max_var + 1 > MAX_NUMBER as u64 / 2 {
            return Err(first_line_error("the strategy is too large"));
        }
        let ghost declared = self.declared();
        let mut k: usize = 0;
        while k < circuit.aiger.outputs.len()
            invariant
                k <= circuit.aiger.outputs.len(),
                reads_circuit(strategy@, Ok(circuit)),
                circuit.wf(),
                copies_fit(circuit.aiger),
                circuit.aiger.output_names@.len() == circuit.aiger.outputs@.len(),
                declared == self.declared(),
                forall|p: int| 0 <= p < k ==> #[trigger] output_causal(declared, circuit.aiger, p),
            decreases circuit.aiger.outputs.len() - k,
        {
            match self.declaration(&circuit.aiger.output_names[k]) {
                Some(entry) => {
                    if entry.1 {
                        assert(circuit.aiger.outputs@[k as int] as int / 2 <= circuit.aiger.max_var);
                        if !self.is_decided_by(&circuit.aiger, entry.0, circuit.aiger.outputs[k]) {
                            assert(!output_causal(declared, circuit.aiger, k as int));
                            return Ok(false);
                        }
                    }
                },
                None => {},
            }
            assert(output_causal(declared, circuit.aiger, k as int));
            k += 1;
        }
        Ok(true)
    }
}

/// The constant is true in both copies.
proof fn lemma_copy_truth(aiger: Aiger, s: Assignment)
    requires
        copies_fit(aiger),
        lit_true(s, key(aiger, 1, false)),
    ensures
        copy_of(aiger, s, false)(true_var(aiger)),
        copy_of(aiger, s, true)(true_var(aiger)),
{
    lemma_small(2 * (aiger.max_var + 1), true);
    lemma_small(aiger.max_var + 1, true);
}

/// Agreeing on input variables is agreeing on input literals.
proof fn lemma_inputs(declared: Seq<(u32, u32, bool)>, aiger: Aiger, step: u32, a: Assignment, b: Assignment)
    requires
        copies_fit(aiger),
        crate::aiger::circuit::literals_in_range(aiger),
        crate::aiger::qaiger::entries_are_variables(aiger),
    ensures
        agree_to_step(declared, aiger, step, a, b) <==> forall|i: int|
            0 <= i < aiger.inputs@.len() ==> (named_declaration(declared, #[trigger] aiger.input_names@[i]) matches Some(d) && d.0
                <= step ==> lit_true(a, own_lit(aiger, aiger.inputs@[i])) == lit_true(b, own_lit(aiger, aiger.inputs@[i]))),
{
    assert forall|i: int| 0 <= i < aiger.inputs@.len() implies (lit_true(a, own_lit(aiger, #[trigger] aiger.inputs@[i])) == lit_true(
        b,
        own_lit(aiger, aiger.inputs@[i]),
    )) == (a(var_of(aiger.inputs@[i] as int / 2)) == b(var_of(aiger.inputs@[i] as int / 2))) by {
        let lit = aiger.inputs@[i];
        assert(lit as int / 2 <= aiger.max_var);
        lemma_small(lit as int / 2, lit % 2 == 0);
    }
}

} // verus!
