//! The reactive unrolling: one quantifier alternation per time step.
use crate::aiger::circuit::{Circuit, Class, Values};
use crate::aiger::qaiger::{lemma_pair, lemma_triple, lemma_unit};
use crate::incremental::lemma_concat_true;
use crate::literal::{lit_of, var_of, Lit, Var};
use crate::quantifier::QuantTy;
use crate::semantics::{
    agree_off, clause_true, formula_true, lemma_exists_block, lemma_forall_block, lit_true, matrix_true, qbf, with_block, Assignment, Matrix,
    Prefix,
};
use vstd::prelude::*;

verus! {

broadcast use crate::literal::group_literal;

/// The numbers below which unrolled variables stay.
pub const UNROLL_LIMIT: u32 = 2_147_483_647;

/// The number of variables of a step.
pub open spec fn width(c: Circuit) -> nat {
    c.aiger.inputs@.len() + c.aiger.ands@.len() + c.aiger.latches@.len()
}

/// The first variable of a step, after the constant and the initial state.
pub open spec fn base(c: Circuit, t: nat) -> nat
    decreases t,
{
    if t == 0 {
        2 + c.aiger.latches@.len()
    } else {
        base(c, (t - 1) as nat) + width(c)
    }
}

/// The number of an input at a step.
pub open spec fn input_num(c: Circuit, t: nat, i: int) -> int {
    base(c, t) + i
}

/// The number of a gate at a step.
pub open spec fn gate_num(c: Circuit, t: nat, i: int) -> int {
    base(c, t) + c.aiger.inputs@.len() + i
}

/// The number of a latch at a step.
pub open spec fn state_num(c: Circuit, t: nat, i: int) -> int {
    if t == 0 {
        2 + i
    } else {
        base(c, (t - 1) as nat) + c.aiger.inputs@.len() + c.aiger.ands@.len() + i
    }
}

/// The number of the constant true.
pub open spec fn truth_num() -> int {
    1
}

/// The values at a step.
pub open spec fn values_at(c: Circuit, t: nat, a: Assignment) -> Values {
    Values {
        state: state_at(c, t, a),
        inputs: Seq::new(c.aiger.inputs@.len(), |i: int| a(var_of(input_num(c, t, i)))),
        gates: Seq::new(c.aiger.ands@.len(), |i: int| a(var_of(gate_num(c, t, i)))),
    }
}

/// The state at a step.
pub open spec fn state_at(c: Circuit, t: nat, a: Assignment) -> Seq<bool> {
    Seq::new(c.aiger.latches@.len(), |i: int| a(var_of(state_num(c, t, i))))
}

/// The variable number that a literal is on at a step.
pub open spec fn slot_at(c: Circuit, t: nat, lit: u64) -> int {
    if lit < 2 {
        truth_num()
    } else {
        match c.classes@[lit as int / 2] {
            Some(Class::Input(i)) => input_num(c, t, i as int),
            Some(Class::Latch(i)) => state_num(c, t, i as int),
            Some(Class::Gate(i)) => gate_num(c, t, i as int),
            None => 0,
        }
    }
}

/// A literal at a step.
pub open spec fn lit_at(c: Circuit, t: nat, lit: u64) -> Lit {
    lit_of(var_of(slot_at(c, t, lit)), lit == 1 || (lit >= 2 && lit % 2 == 0))
}

/// The clauses of a gate at a step.
pub open spec fn gate_clauses(c: Circuit, t: nat, g: int) -> Matrix {
    let gate = lit_of(var_of(gate_num(c, t, g)), true);
    let rhs0 = lit_at(c, t, c.aiger.ands@[g].rhs0);
    let rhs1 = lit_at(c, t, c.aiger.ands@[g].rhs1);
    seq![seq![gate.neg(), rhs0], seq![gate.neg(), rhs1], seq![gate, rhs0.neg(), rhs1.neg()]]
}

/// The clauses of the first gates at a step.
pub open spec fn gates_clauses(c: Circuit, t: nat, count: int) -> Matrix
    decreases count,
{
    if count <= 0 {
        Seq::empty()
    } else {
        gates_clauses(c, t, count - 1) + gate_clauses(c, t, count - 1)
    }
}

/// No error signal fires at a step.
pub open spec fn error_clauses(c: Circuit, t: nat, count: nat) -> Matrix {
    Seq::new(count, |i: int| seq![lit_at(c, t, c.aiger.outputs@[i]).neg()])
}

/// The clauses that define the next values of the first latches.
pub open spec fn next_clauses(c: Circuit, t: nat, count: int) -> Matrix
    decreases count,
{
    if count <= 0 {
        Seq::empty()
    } else {
        let next = lit_of(var_of(state_num(c, t + 1, count - 1)), true);
        let value = lit_at(c, t, c.aiger.latches@[count - 1].next);
        next_clauses(c, t, count - 1) + seq![seq![next.neg(), value], seq![next, value.neg()]]
    }
}

/// The clauses of a step.
pub open spec fn step_clauses(c: Circuit, t: nat) -> Matrix {
    gates_clauses(c, t, c.aiger.ands@.len() as int) + error_clauses(c, t, c.aiger.outputs@.len()) + next_clauses(
        c,
        t,
        c.aiger.latches@.len() as int,
    )
}

/// The constant is true and the first latches have their reset values.
pub open spec fn start_clauses(c: Circuit, count: nat) -> Matrix {
    seq![seq![lit_of(var_of(truth_num()), true)]] + Seq::new(
        count,
        |i: int| seq![lit_of(var_of(state_num(c, 0, i)), c.aiger.latches@[i].reset == 1)],
    )
}

/// The clauses of the unrolling to a depth.
pub open spec fn alternating_matrix(c: Circuit, depth: nat) -> Matrix
    decreases depth,
{
    if depth == 0 {
        start_clauses(c, c.aiger.latches@.len())
    } else {
        alternating_matrix(c, (depth - 1) as nat) + step_clauses(c, (depth - 1) as nat)
    }
}

/// The inputs of a step up to a position that are controllable, or those
/// that are not.
pub open spec fn step_inputs(c: Circuit, t: nat, count: int, controllable: bool) -> Seq<Var>
    decreases count,
{
    if count <= 0 {
        Seq::empty()
    } else {
        let before = step_inputs(c, t, count - 1, controllable);
        if c.controllable@[count - 1] == controllable {
            before.push(var_of(input_num(c, t, count - 1)))
        } else {
            before
        }
    }
}

/// The variables of consecutive numbers.
pub open spec fn numbered(from: int, count: nat) -> Seq<Var> {
    Seq::new(count, |i: int| var_of(from + i))
}

/// The existential variables of a step: the controllable inputs, the gates
/// and the next state; in the first step also the constant and the initial
/// state.
pub open spec fn step_existentials(c: Circuit, t: nat) -> Seq<Var> {
    (if t == 0 {
        numbered(1, 1 + c.aiger.latches@.len())
    } else {
        Seq::empty()
    }) + step_inputs(c, t, c.aiger.inputs@.len() as int, true) + numbered(gate_num(c, t, 0), c.aiger.ands@.len()) + numbered(
        state_num(c, t + 1, 0),
        c.aiger.latches@.len(),
    )
}

/// The blocks of the unrolling to a depth, two per step.
pub open spec fn alternating_blocks(c: Circuit, depth: nat) -> Prefix
    decreases depth,
{
    if depth == 0 {
        Seq::empty()
    } else {
        let t = (depth - 1) as nat;
        alternating_blocks(c, t) + seq![
            (QuantTy::Forall, step_inputs(c, t, c.aiger.inputs@.len() as int, false)),
            (QuantTy::Exists, step_existentials(c, t)),
        ]
    }
}

/// The unrolling fits the numbering.
pub open spec fn fits_depth(c: Circuit, depth: nat) -> bool {
    base(c, depth) < UNROLL_LIMIT
}

pub(crate) proof fn lemma_base(c: Circuit, t: nat, depth: nat)
    requires
        t <= depth,
    ensures
        base(c, t) <= base(c, depth),
        base(c, t) >= 2 + c.aiger.latches@.len(),
        t < depth ==> base(c, t) + width(c) <= base(c, depth),
    decreases depth,
{
    if t < depth {
        lemma_base(c, t, (depth - 1) as nat);
        if t + 1 <= depth - 1 {
            lemma_base(c, t + 1, (depth - 1) as nat);
        }
    } else if t > 0 {
        lemma_base(c, (t - 1) as nat, (t - 1) as nat);
    }
}

/// The index in range of a number.
pub(crate) proof fn lemma_num(n: int)
    requires
        1 <= n < UNROLL_LIMIT,
    ensures
        var_of(n).dimacs() == n,
        lit_of(var_of(n), true).v() == var_of(n),
        lit_of(var_of(n), true).pos(),
        lit_of(var_of(n), false).v() == var_of(n),
        !lit_of(var_of(n), false).pos(),
{
    crate::literal::lemma_var_index(n - 1);
    crate::literal::lemma_lit_of(var_of(n), true);
    crate::literal::lemma_lit_of(var_of(n), false);
}

pub(crate) proof fn lemma_slot(c: Circuit, t: nat, lit: u64)
    requires
        c.wf(),
        fits_depth(c, t + 1),
        lit as int / 2 <= c.aiger.max_var,
        c.defines(lit),
    ensures
        1 <= slot_at(c, t, lit) < base(c, t) + c.aiger.inputs@.len() + c.aiger.ands@.len(),
        base(c, t) + width(c) < UNROLL_LIMIT,
{
    lemma_base(c, t, t + 1);
    if t > 0 {
        lemma_base(c, (t - 1) as nat, t);
    }
}

/// A literal has the value of the circuit at its step.
proof fn lemma_value_at(c: Circuit, t: nat, a: Assignment, lit: u64)
    requires
        c.wf(),
        fits_depth(c, t + 1),
        lit as int / 2 <= c.aiger.max_var,
        c.defines(lit),
        a(var_of(truth_num())),
    ensures
        lit_true(a, lit_at(c, t, lit)) == c.value(values_at(c, t, a), lit),
{
    lemma_slot(c, t, lit);
    lemma_num(slot_at(c, t, lit));
}

/// What the clauses of a step say.
pub open spec fn step_holds(c: Circuit, t: nat, a: Assignment) -> bool {
    let v = values_at(c, t, a);
    &&& c.consistent(v)
    &&& c.safe(v)
    &&& state_at(c, t + 1, a) == c.next(v)
}

proof fn lemma_gates_clauses(c: Circuit, t: nat, a: Assignment, count: int)
    requires
        c.wf(),
        c.complete(),
        fits_depth(c, t + 1),
        a(var_of(truth_num())),
        0 <= count <= c.aiger.ands@.len(),
    ensures
        matrix_true(a, gates_clauses(c, t, count)) <==> forall|g: int|
            0 <= g < count ==> #[trigger] values_at(c, t, a).gates[g] == (c.value(values_at(c, t, a), c.aiger.ands@[g].rhs0) && c.value(
                values_at(c, t, a),
                c.aiger.ands@[g].rhs1,
            )),
    decreases count,
{
    if count > 0 {
        let g = count - 1;
        lemma_gates_clauses(c, t, a, g);
        let and = c.aiger.ands@[g];
        assert(and.rhs0 as int / 2 <= c.aiger.max_var && and.rhs1 as int / 2 <= c.aiger.max_var);
        assert(c.defines(and.rhs0) && c.defines(and.rhs1));
        lemma_slot(c, t, 0);
        lemma_value_at(c, t, a, and.rhs0);
        lemma_value_at(c, t, a, and.rhs1);
        lemma_base(c, t, t);
        lemma_num(gate_num(c, t, g));
        let gate = lit_of(var_of(gate_num(c, t, g)), true);
        let rhs0 = lit_at(c, t, and.rhs0);
        let rhs1 = lit_at(c, t, and.rhs1);
        let m = gate_clauses(c, t, g);
        lemma_pair(a, gate.neg(), rhs0);
        lemma_pair(a, gate.neg(), rhs1);
        lemma_triple(a, gate, rhs0.neg(), rhs1.neg());
        assert(m[0] == seq![gate.neg(), rhs0] && m[1] == seq![gate.neg(), rhs1] && m[2] == seq![gate, rhs0.neg(), rhs1.neg()]);
        lemma_concat_true(a, gates_clauses(c, t, g), m);
        assert(values_at(c, t, a).gates[g] == lit_true(a, gate));
        if matrix_true(a, m) {
            assert(clause_true(a, m[0]) && clause_true(a, m[1]) && clause_true(a, m[2]));
        }
        if clause_true(a, m[0]) && clause_true(a, m[1]) && clause_true(a, m[2]) {
            assert forall|i: int| 0 <= i < m.len() implies clause_true(a, #[trigger] m[i]) by {
                assert(i == 0 || i == 1 || i == 2);
            }
        }
    }
}

proof fn lemma_next_clauses(c: Circuit, t: nat, a: Assignment, count: int)
    requires
        c.wf(),
        c.complete(),
        fits_depth(c, t + 1),
        a(var_of(truth_num())),
        0 <= count <= c.aiger.latches@.len(),
    ensures
        matrix_true(a, next_clauses(c, t, count)) <==> forall|i: int|
            0 <= i < count ==> #[trigger] state_at(c, t + 1, a)[i] == c.value(values_at(c, t, a), c.aiger.latches@[i].next),
    decreases count,
{
    if count > 0 {
        let i = count - 1;
        lemma_next_clauses(c, t, a, i);
        let lit = c.aiger.latches@[i].next;
        assert(lit as int / 2 <= c.aiger.max_var);
        assert(c.defines(lit));
        lemma_slot(c, t, 0);
        lemma_value_at(c, t, a, lit);
        lemma_base(c, t, t);
        lemma_num(state_num(c, t + 1, i));
        let next = lit_of(var_of(state_num(c, t + 1, i)), true);
        let value = lit_at(c, t, lit);
        let m = seq![seq![next.neg(), value], seq![next, value.neg()]];
        lemma_pair(a, next.neg(), value);
        lemma_pair(a, next, value.neg());
        assert(m[0] == seq![next.neg(), value] && m[1] == seq![next, value.neg()]);
        lemma_concat_true(a, next_clauses(c, t, i), m);
        assert(state_at(c, t + 1, a)[i] == lit_true(a, next));
        if matrix_true(a, m) {
            assert(clause_true(a, m[0]) && clause_true(a, m[1]));
        }
        if clause_true(a, m[0]) && clause_true(a, m[1]) {
            assert forall|j: int| 0 <= j < m.len() implies clause_true(a, #[trigger] m[j]) by {
                assert(j == 0 || j == 1);
            }
        }
    }
}

proof fn lemma_step_clauses(c: Circuit, t: nat, a: Assignment)
    requires
        c.wf(),
        c.complete(),
        fits_depth(c, t + 1),
        a(var_of(truth_num())),
    ensures
        matrix_true(a, step_clauses(c, t)) == step_holds(c, t, a),
{
    let v = values_at(c, t, a);
    let gates = gates_clauses(c, t, c.aiger.ands@.len() as int);
    let errors = error_clauses(c, t, c.aiger.outputs@.len());
    let nexts = next_clauses(c, t, c.aiger.latches@.len() as int);
    lemma_gates_clauses(c, t, a, c.aiger.ands@.len() as int);
    lemma_next_clauses(c, t, a, c.aiger.latches@.len() as int);
    lemma_concat_true(a, gates + errors, nexts);
    lemma_concat_true(a, gates, errors);
    assert forall|i: int| 0 <= i < c.aiger.outputs@.len() implies clause_true(a, #[trigger] errors[i]) == !c.value(v, c.aiger.outputs@[i]) by {
        let out = c.aiger.outputs@[i];
        assert(out as int / 2 <= c.aiger.max_var);
        assert(c.defines(out));
        lemma_value_at(c, t, a, out);
        lemma_unit(a, lit_at(c, t, out).neg());
    }
    if matrix_true(a, errors) {
        assert forall|i: int| 0 <= i < c.aiger.outputs@.len() implies !c.value(v, #[trigger] c.aiger.outputs@[i]) by {
            assert(clause_true(a, errors[i]));
        }
    }
    if c.safe(v) {
        assert forall|i: int| 0 <= i < errors.len() implies clause_true(a, #[trigger] errors[i]) by {
            assert(!c.value(v, c.aiger.outputs@[i]));
        }
    }
    if forall|i: int|
        0 <= i < c.aiger.latches@.len() ==> #[trigger] state_at(c, t + 1, a)[i] == c.value(v, c.aiger.latches@[i].next) {
        assert(state_at(c, t + 1, a) =~= c.next(v));
    }
}

proof fn lemma_start_clauses(c: Circuit, a: Assignment)
    requires
        c.wf(),
        fits_depth(c, 0),
    ensures
        matrix_true(a, start_clauses(c, c.aiger.latches@.len())) <==> a(var_of(truth_num())) && state_at(c, 0, a) == c.initial(),
{
    let n = c.aiger.latches@.len();
    let t = lit_of(var_of(truth_num()), true);
    let first = seq![seq![t]];
    let rest = Seq::new(n, |i: int| seq![lit_of(var_of(state_num(c, 0, i)), c.aiger.latches@[i].reset == 1)]);
    lemma_num(1);
    lemma_unit(a, t);
    lemma_concat_true(a, first, rest);
    assert(first[0] == seq![t]);
    assert(matrix_true(a, first) == lit_true(a, t));
    assert forall|i: int| 0 <= i < n implies clause_true(a, #[trigger] rest[i]) == (state_at(c, 0, a)[i] == c.initial()[i]) by {
        lemma_num(state_num(c, 0, i));
        lemma_unit(a, lit_of(var_of(state_num(c, 0, i)), c.aiger.latches@[i].reset == 1));
    }
    if matrix_true(a, rest) {
        assert forall|i: int| 0 <= i < n implies state_at(c, 0, a)[i] == c.initial()[i] by {
            assert(clause_true(a, rest[i]));
        }
        assert(state_at(c, 0, a) =~= c.initial());
    }
    if state_at(c, 0, a) == c.initial() {
        assert forall|i: int| 0 <= i < rest.len() implies clause_true(a, #[trigger] rest[i]) by {
            assert(state_at(c, 0, a)[i] == c.initial()[i]);
        }
    }
}

/// The first steps hold.
pub open spec fn holds_upto(c: Circuit, t: nat, a: Assignment) -> bool
    decreases t,
{
    if t == 0 {
        a(var_of(truth_num())) && state_at(c, 0, a) == c.initial()
    } else {
        holds_upto(c, (t - 1) as nat, a) && step_holds(c, (t - 1) as nat, a)
    }
}

pub(crate) proof fn lemma_truth_upto(c: Circuit, t: nat, a: Assignment)
    requires
        holds_upto(c, t, a),
    ensures
        a(var_of(truth_num())),
    decreases t,
{
    if t > 0 {
        lemma_truth_upto(c, (t - 1) as nat, a);
    }
}

/// The clauses of an unrolling hold iff its steps do.
pub proof fn law_unrolled_clauses_are_the_steps(c: Circuit, depth: nat, a: Assignment)
    requires
        c.wf(),
        c.complete(),
        fits_depth(c, depth),
    ensures
        matrix_true(a, alternating_matrix(c, depth)) == holds_upto(c, depth, a),
    decreases depth,
{
    if depth == 0 {
        lemma_start_clauses(c, a);
    } else {
        let t = (depth - 1) as nat;
        lemma_base(c, t, depth);
        law_unrolled_clauses_are_the_steps(c, t, a);
        lemma_concat_true(a, alternating_matrix(c, t), step_clauses(c, t));
        if holds_upto(c, t, a) {
            lemma_truth_upto(c, t, a);
            lemma_step_clauses(c, t, a);
        }
    }
}

/// The assignments agree on numbers below a bound.
pub(crate) open spec fn agree_low(a: Assignment, b: Assignment, n: int) -> bool {
    forall|k: int| 1 <= k < n ==> a(#[trigger] var_of(k)) == b(var_of(k))
}

/// What happened up to a step depends on the variables up to it.
pub(crate) proof fn lemma_low(c: Circuit, t: nat, a: Assignment, b: Assignment)
    requires
        agree_low(a, b, base(c, t) as int),
    ensures
        holds_upto(c, t, a) == holds_upto(c, t, b),
        state_at(c, t, a) == state_at(c, t, b),
    decreases t,
{
    lemma_base(c, t, t);
    if t == 0 {
        assert(state_at(c, 0, a) =~= state_at(c, 0, b));
    } else {
        let s = (t - 1) as nat;
        lemma_base(c, s, t);
        assert(agree_low(a, b, base(c, s) as int));
        lemma_low(c, s, a, b);
        let v = values_at(c, s, a);
        let w = values_at(c, s, b);
        assert(v.inputs =~= w.inputs);
        assert(v.gates =~= w.gates);
        assert(state_at(c, t, a) =~= state_at(c, t, b));
        assert(v == w);
    }
}

/// The blocks from a step on.
pub open spec fn blocks_from(c: Circuit, t: nat, depth: nat) -> Prefix
    decreases depth - t,
{
    if t >= depth {
        Seq::empty()
    } else {
        with_block(
            QuantTy::Forall,
            step_inputs(c, t, c.aiger.inputs@.len() as int, false),
            with_block(QuantTy::Exists, step_existentials(c, t), blocks_from(c, t + 1, depth)),
        )
    }
}

pub(crate) proof fn lemma_blocks_from(c: Circuit, t: nat, depth: nat)
    requires
        t <= depth,
    ensures
        alternating_blocks(c, depth) == alternating_blocks(c, t) + blocks_from(c, t, depth),
    decreases depth - t,
{
    if t < depth {
        lemma_blocks_from(c, t + 1, depth);
        let rest = blocks_from(c, t + 1, depth);
        assert(alternating_blocks(c, t) + blocks_from(c, t, depth) =~= alternating_blocks(c, t + 1) + rest);
    } else {
        assert(alternating_blocks(c, t) + blocks_from(c, t, depth) =~= alternating_blocks(c, t));
    }
}

/// Which variables the inputs of a step are.
proof fn lemma_step_inputs(c: Circuit, t: nat, count: int, controllable: bool, n: int)
    requires
        0 <= count <= c.aiger.inputs@.len(),
        1 <= n < UNROLL_LIMIT,
        base(c, t) + count < UNROLL_LIMIT,
        base(c, t) >= 1,
    ensures
        step_inputs(c, t, count, controllable).contains(var_of(n)) <==> base(c, t) <= n < base(c, t) + count && c.controllable@[n - base(c, t)]
            == controllable,
    decreases count,
{
    if count > 0 {
        lemma_step_inputs(c, t, count - 1, controllable, n);
        let before = step_inputs(c, t, count - 1, controllable);
        let x = var_of(input_num(c, t, count - 1));
        lemma_num(n);
        lemma_num(input_num(c, t, count - 1));
        crate::datastructure::lemma_push_contains(before, x, var_of(n));
    }
}

proof fn lemma_numbered(from: int, count: nat, n: int)
    requires
        1 <= from,
        from + count < UNROLL_LIMIT,
        1 <= n < UNROLL_LIMIT,
    ensures
        numbered(from, count).contains(var_of(n)) <==> from <= n < from + count,
{
    lemma_num(n);
    let s = numbered(from, count);
    if from <= n < from + count {
        assert(s[n - from] == var_of(n));
    }
    if s.contains(var_of(n)) {
        let i = choose|i: int| 0 <= i < s.len() && s[i] == var_of(n);
        lemma_num(from + i);
    }
}

/// Which variables the existential block of a step binds.
pub(crate) proof fn lemma_step_existentials(c: Circuit, t: nat, n: int)
    requires
        c.wf(),
        fits_depth(c, t + 1),
        1 <= n < UNROLL_LIMIT,
    ensures
        step_existentials(c, t).contains(var_of(n)) <==> (t == 0 && n < base(c, 0)) || (base(c, t) <= n < base(c, t) + c.aiger.inputs@.len()
            && c.controllable@[n - base(c, t)]) || gate_num(c, t, 0) <= n < base(c, t + 1),
{
    lemma_base(c, t, t + 1);
    let x = var_of(n);
    let start = if t == 0 {
        numbered(1, 1 + c.aiger.latches@.len())
    } else {
        Seq::empty()
    };
    let inputs = step_inputs(c, t, c.aiger.inputs@.len() as int, true);
    let gates = numbered(gate_num(c, t, 0), c.aiger.ands@.len());
    let nexts = numbered(state_num(c, t + 1, 0), c.aiger.latches@.len());
    lemma_step_inputs(c, t, c.aiger.inputs@.len() as int, true, n);
    lemma_numbered(gate_num(c, t, 0), c.aiger.ands@.len(), n);
    lemma_numbered(state_num(c, t + 1, 0), c.aiger.latches@.len(), n);
    if t == 0 {
        lemma_numbered(1, 1 + c.aiger.latches@.len(), n);
    } else {
        assert(!start.contains(x));
    }
    crate::semantics::lemma_concat_contains(start + inputs + gates, nexts, x);
    crate::semantics::lemma_concat_contains(start + inputs, gates, x);
    crate::semantics::lemma_concat_contains(start, inputs, x);
}

/// The assignment with the values of a step.
pub(crate) open spec fn play(c: Circuit, t: nat, b: Assignment, v: Values) -> Assignment {
    |x: Var|
        {
            let n = x.dimacs();
            if t == 0 && n == 1 {
                true
            } else if t == 0 && 2 <= n < base(c, 0) {
                c.initial()[n - 2]
            } else if base(c, t) <= n < base(c, t) + c.aiger.inputs@.len() {
                v.inputs[n - base(c, t)]
            } else if gate_num(c, t, 0) <= n < gate_num(c, t, 0) + c.aiger.ands@.len() {
                v.gates[n - gate_num(c, t, 0)]
            } else if state_num(c, t + 1, 0) <= n < base(c, t + 1) {
                c.next(v)[n - state_num(c, t + 1, 0)]
            } else {
                b(x)
            }
        }
}

/// An answer to a move, as an assignment of the existential block.
pub(crate) proof fn lemma_play(c: Circuit, t: nat, b: Assignment, v: Values, env: Seq<bool>, state: Seq<bool>)
    requires
        c.wf(),
        fits_depth(c, t + 1),
        c.answers(v, state, env),
        c.safe(v),
        state == (if t == 0 { c.initial() } else { state_at(c, t, b) }),
        t > 0 ==> holds_upto(c, t, b),
        forall|i: int| 0 <= i < c.aiger.inputs@.len() && !c.controllable@[i] ==> env[i] == b(#[trigger] var_of(input_num(c, t, i))),
    ensures
        agree_off(b, play(c, t, b, v), step_existentials(c, t)),
        holds_upto(c, t + 1, play(c, t, b, v)),
        state_at(c, t + 1, play(c, t, b, v)) == c.next(v),
{
    let a = play(c, t, b, v);
    lemma_base(c, t, t + 1);
    lemma_base(c, 0, t);
    assert forall|n: int| 1 <= n < base(c, t + 1) implies (#[trigger] var_of(n)).dimacs() == n by {
        lemma_num(n);
    }
    assert forall|x: Var| !step_existentials(c, t).contains(x) implies #[trigger] b(x) == a(x) by {
        crate::literal::lemma_var_of(x);
        let n = x.dimacs();
        if n < UNROLL_LIMIT {
            lemma_step_existentials(c, t, n);
            if base(c, t) <= n < base(c, t) + c.aiger.inputs@.len() {
                let i = n - base(c, t);
                assert(v.inputs[i] == env[i]);
                assert(x == var_of(input_num(c, t, i)));
            }
        }
    }
    if t > 0 {
        assert(agree_low(b, a, base(c, t) as int));
        lemma_low(c, t, b, a);
    } else {
        assert(state_at(c, 0, a) =~= c.initial());
    }
    let w = values_at(c, t, a);
    assert(w.inputs =~= v.inputs);
    assert(w.gates =~= v.gates);
    assert(w.state =~= v.state);
    assert(w == v);
    assert(state_at(c, t + 1, a) =~= c.next(v));
    assert(step_holds(c, t, a));
    assert(holds_upto(c, t, a));
    assert((t + 1 - 1) as nat == t);
}

/// From a step on, the formula says that the steps before hold and the
/// controller can avoid errors for the remaining steps.
proof fn lemma_game_from(c: Circuit, t: nat, depth: nat, a: Assignment)
    requires
        c.wf(),
        c.complete(),
        fits_depth(c, depth),
        t <= depth,
    ensures
        t > 0 ==> qbf(blocks_from(c, t, depth), alternating_matrix(c, depth), a) == (holds_upto(c, t, a) && c.wins_for(
            state_at(c, t, a),
            (depth - t) as nat,
        )),
        t == 0 && depth > 0 ==> qbf(blocks_from(c, 0, depth), alternating_matrix(c, depth), a) == c.wins_for(c.initial(), depth),
    decreases depth - t,
{
    let m = alternating_matrix(c, depth);
    if t == depth {
        law_unrolled_clauses_are_the_steps(c, depth, a);
    } else {
        let rest = blocks_from(c, t + 1, depth);
        let us = step_inputs(c, t, c.aiger.inputs@.len() as int, false);
        let es = step_existentials(c, t);
        let inner = with_block(QuantTy::Exists, es, rest);
        let steps = (depth - t) as nat;
        lemma_base(c, t, depth);
        lemma_base(c, t + 1, depth);
        lemma_base(c, 0, t);
        lemma_forall_block(us, inner, m, a);
        let state = if t == 0 { c.initial() } else { state_at(c, t, a) };
        let p = blocks_from(c, t, depth);
        if qbf(p, m, a) {
            assert forall|env: Seq<bool>| #[trigger] c.is_move(env) implies c.survives(state, env, steps) by {
                lemma_formula_answers(c, t, depth, a, env);
            }
            let env = Seq::new(c.aiger.inputs@.len(), |i: int| false);
            assert(c.is_move(env));
            lemma_formula_answers(c, t, depth, a, env);
        }
        if (t > 0 ==> holds_upto(c, t, a)) && c.wins_for(state, steps) {
            assert forall|b: Assignment| #[trigger] agree_off(a, b, us) implies qbf(inner, m, b) by {
                lemma_answers_formula(c, t, depth, a, b);
            }
        }
    }
}

/// A true formula answers a move of a step.
proof fn lemma_formula_answers(c: Circuit, t: nat, depth: nat, a: Assignment, env: Seq<bool>)
    requires
        c.wf(),
        c.complete(),
        fits_depth(c, depth),
        t < depth,
        c.is_move(env),
        qbf(blocks_from(c, t, depth), alternating_matrix(c, depth), a),
    ensures
        c.survives(if t == 0 { c.initial() } else { state_at(c, t, a) }, env, (depth - t) as nat),
        t > 0 ==> holds_upto(c, t, a),
    decreases depth - t, 0int,
{
    let m = alternating_matrix(c, depth);
    let rest = blocks_from(c, t + 1, depth);
    let us = step_inputs(c, t, c.aiger.inputs@.len() as int, false);
    let es = step_existentials(c, t);
    let inner = with_block(QuantTy::Exists, es, rest);
    lemma_base(c, t, depth);
    lemma_base(c, t + 1, depth);
    lemma_base(c, t, t + 1);
    lemma_base(c, 0, t);
    lemma_forall_block(us, inner, m, a);
    let low = base(c, t) as int;
    let b = |x: Var|
        if low <= x.dimacs() < low + c.aiger.inputs@.len() && !c.controllable@[x.dimacs() - low] {
            env[x.dimacs() - low]
        } else {
            a(x)
        };
    assert forall|x: Var| !us.contains(x) implies #[trigger] a(x) == b(x) by {
        crate::literal::lemma_var_of(x);
        if low <= x.dimacs() < low + c.aiger.inputs@.len() {
            lemma_step_inputs(c, t, c.aiger.inputs@.len() as int, false, x.dimacs());
        }
    }
    assert(agree_off(a, b, us));
    assert(qbf(inner, m, b));
    lemma_exists_block(es, rest, m, b);
    let d = choose|d: Assignment| #[trigger] agree_off(b, d, es) && qbf(rest, m, d);
    lemma_game_from(c, t + 1, depth, d);
    assert(holds_upto(c, t + 1, d));
    let v = values_at(c, t, d);
    assert forall|n: int| 1 <= n < base(c, t + 1) implies (#[trigger] var_of(n)).dimacs() == n by {
        lemma_num(n);
    }
    assert forall|i: int| 0 <= i < c.aiger.inputs@.len() && !c.controllable@[i] implies #[trigger] v.inputs[i] == env[i] by {
        let n = input_num(c, t, i);
        lemma_step_existentials(c, t, n);
        assert(d(var_of(n)) == b(var_of(n)));
    }
    if t > 0 {
        assert forall|n: int| 1 <= n < low implies a(#[trigger] var_of(n)) == d(var_of(n)) by {
            lemma_step_existentials(c, t, n);
            assert(d(var_of(n)) == b(var_of(n)));
        }
        lemma_low(c, t, a, d);
    }
    let state = if t == 0 { c.initial() } else { state_at(c, t, a) };
    assert((t + 1 - 1) as nat == t);
    assert(holds_upto(c, t, d) && step_holds(c, t, d));
    assert(v.state == state);
    assert(c.answers(v, state, env));
    assert(c.wins_for(c.next(v), (depth - t - 1) as nat));
}

/// A game that can be won answers a move of a step in the formula.
proof fn lemma_answers_formula(c: Circuit, t: nat, depth: nat, a: Assignment, b: Assignment)
    requires
        c.wf(),
        c.complete(),
        fits_depth(c, depth),
        t < depth,
        agree_off(a, b, step_inputs(c, t, c.aiger.inputs@.len() as int, false)),
        t > 0 ==> holds_upto(c, t, a),
        c.wins_for(if t == 0 { c.initial() } else { state_at(c, t, a) }, (depth - t) as nat),
    ensures
        qbf(with_block(QuantTy::Exists, step_existentials(c, t), blocks_from(c, t + 1, depth)), alternating_matrix(c, depth), b),
    decreases depth - t, 0int,
{
    let m = alternating_matrix(c, depth);
    let rest = blocks_from(c, t + 1, depth);
    let us = step_inputs(c, t, c.aiger.inputs@.len() as int, false);
    let es = step_existentials(c, t);
    lemma_base(c, t, depth);
    lemma_base(c, t + 1, depth);
    lemma_base(c, t, t + 1);
    lemma_base(c, 0, t);
    let state = if t == 0 { c.initial() } else { state_at(c, t, a) };
    let steps = (depth - t) as nat;
    let env = Seq::new(c.aiger.inputs@.len(), |i: int| b(var_of(input_num(c, t, i))));
    assert(c.is_move(env));
    assert(c.survives(state, env, steps));
    let v = choose|v: Values| #[trigger] c.answers(v, state, env) && c.safe(v) && c.wins_for(c.next(v), (steps - 1) as nat);
    if t > 0 {
        assert forall|n: int| 1 <= n < base(c, t) implies a(#[trigger] var_of(n)) == b(var_of(n)) by {
            lemma_step_inputs(c, t, c.aiger.inputs@.len() as int, false, n);
        }
        lemma_low(c, t, a, b);
    }
    lemma_play(c, t, b, v, env, state);
    let d = play(c, t, b, v);
    lemma_game_from(c, t + 1, depth, d);
    assert(qbf(rest, m, d));
    lemma_exists_block(es, rest, m, b);
}

/// The unrolling to a depth is true iff the controller can avoid errors
/// for that many steps, seeing only the moves made so far.
pub proof fn law_alternating_is_the_bounded_game(c: Circuit, depth: nat)
    requires
        c.wf(),
        c.complete(),
        fits_depth(c, depth),
    ensures
        formula_true(alternating_blocks(c, depth), alternating_matrix(c, depth)) == c.wins_for(c.initial(), depth),
{
    let p = alternating_blocks(c, depth);
    let m = alternating_matrix(c, depth);
    lemma_blocks_from(c, 0, depth);
    assert(p =~= blocks_from(c, 0, depth));
    if depth == 0 {
        let a = |x: Var| if x.dimacs() == 1 { true } else { 2 <= x.dimacs() < base(c, 0) && c.initial()[x.dimacs() - 2] };
        assert forall|n: int| 1 <= n < base(c, 0) implies (#[trigger] var_of(n)).dimacs() == n by {
            lemma_num(n);
        }
        assert(state_at(c, 0, a) =~= c.initial());
        law_unrolled_clauses_are_the_steps(c, 0, a);
        assert(qbf(p, m, a));
    } else {
        let a = |x: Var| false;
        lemma_game_from(c, 0, depth, a);
        assert forall|b: Assignment| #[trigger] qbf(p, m, b) implies c.wins_for(c.initial(), depth) by {
            lemma_game_from(c, 0, depth, b);
        }
    }
}

/// An unrolling that is true stays true at a smaller depth.
pub proof fn law_true_unrollings_stay_true(c: Circuit, fewer: nat, depth: nat)
    requires
        c.wf(),
        c.complete(),
        fits_depth(c, depth),
        fewer <= depth,
        formula_true(alternating_blocks(c, depth), alternating_matrix(c, depth)),
    ensures
        formula_true(alternating_blocks(c, fewer), alternating_matrix(c, fewer)),
{
    lemma_base(c, fewer, depth);
    law_alternating_is_the_bounded_game(c, depth);
    law_alternating_is_the_bounded_game(c, fewer);
    crate::aiger::circuit::law_longer_games_win_shorter_ones(&c, c.initial(), fewer, depth);
}

} // verus!
