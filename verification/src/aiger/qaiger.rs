//! The combinational reading of a circuit: a 2QBF instance.
use crate::aiger::circuit::{fits, input_controllable, literals_in_range, Circuit, CIRCUIT_LIMIT};
use crate::aiger::parse::{parse_aag, reads_as, Aiger, And, ParseError};
use crate::incdet::cegar::{answered, disjoint, within};
use crate::incdet::load::lemma_two_blocks;
use crate::incremental::stack::{first_occurrences, firsts, lemma_firsts};
use crate::literal::{lit_of, var_of, Lit, Var};
use crate::qcnf::{matrix_of, QCNF};
use crate::quantifier::QuantTy;
use crate::semantics::{clause_true, formula_true, lit_true, matrix_true, qbf, with_block, Assignment, Matrix, Prefix};
use vstd::prelude::*;
use vstd::string::*;

verus! {

broadcast use crate::literal::group_literal;

/// The variable of the constant true: the one after the largest.
pub open spec fn true_var(aiger: Aiger) -> Var {
    var_of(aiger.max_var + 1)
}

/// The literal of an AIGER literal.
pub open spec fn own_lit(aiger: Aiger, lit: u64) -> Lit {
    if lit < 2 {
        lit_of(true_var(aiger), lit == 1)
    } else {
        lit_of(var_of(lit as int / 2), lit % 2 == 0)
    }
}

/// The inputs up to a position that are controllable, or those that are
/// not.
pub open spec fn input_vars(aiger: Aiger, count: int, controllable: bool) -> Seq<Var>
    decreases count,
{
    if count <= 0 {
        Seq::empty()
    } else {
        let before = input_vars(aiger, count - 1, controllable);
        if input_controllable(aiger, count - 1) == controllable {
            before.push(var_of(aiger.inputs@[count - 1] as int / 2))
        } else {
            before
        }
    }
}

/// The existential variables: the constant, the controllable inputs and
/// the gates.
pub open spec fn existential_vars(aiger: Aiger) -> Seq<Var> {
    seq![true_var(aiger)] + input_vars(aiger, aiger.inputs@.len() as int, true) + Seq::new(
        aiger.ands@.len(),
        |i: int| var_of(aiger.ands@[i].lhs as int / 2),
    )
}

/// The universal variables: the other inputs and the latches.
pub open spec fn universal_vars(aiger: Aiger) -> Seq<Var> {
    input_vars(aiger, aiger.inputs@.len() as int, false) + Seq::new(
        aiger.latches@.len(),
        |i: int| var_of(aiger.latches@[i].lit as int / 2),
    )
}

/// The blocks of the instance.
pub open spec fn qaiger_blocks(aiger: Aiger) -> Prefix {
    let es = firsts(existential_vars(aiger), Seq::empty());
    seq![(QuantTy::Forall, firsts(universal_vars(aiger), es)), (QuantTy::Exists, es)]
}

/// The clauses of a gate: its two-sided definition.
pub open spec fn gate_clauses(aiger: Aiger, and: And) -> Matrix {
    let lhs = own_lit(aiger, and.lhs);
    let rhs0 = own_lit(aiger, and.rhs0);
    let rhs1 = own_lit(aiger, and.rhs1);
    seq![seq![lhs.neg(), rhs0], seq![lhs.neg(), rhs1], seq![lhs, rhs0.neg(), rhs1.neg()]]
}

/// The clauses of the first gates.
pub open spec fn gates_matrix(aiger: Aiger, count: int) -> Matrix
    decreases count,
{
    if count <= 0 {
        Seq::empty()
    } else {
        gates_matrix(aiger, count - 1) + gate_clauses(aiger, aiger.ands@[count - 1])
    }
}

/// The clauses of the instance: the constant is true, the outputs hold,
/// and the gates are what they are defined to be.
pub open spec fn qaiger_matrix(aiger: Aiger) -> Matrix {
    seq![seq![lit_of(true_var(aiger), true)]] + Seq::new(aiger.outputs@.len(), |i: int| seq![own_lit(aiger, aiger.outputs@[i])])
        + gates_matrix(aiger, aiger.ands@.len() as int)
}

/// The values of the circuit are those of its gates, and its outputs hold.
pub open spec fn circuit_holds(aiger: Aiger, a: Assignment) -> bool {
    &&& a(true_var(aiger))
    &&& forall|i: int| 0 <= i < aiger.outputs@.len() ==> lit_true(a, own_lit(aiger, #[trigger] aiger.outputs@[i]))
    &&& forall|i: int| 0 <= i < aiger.ands@.len() ==> gate_holds(aiger, a, #[trigger] aiger.ands@[i])
}

/// A gate has the value of its conjunction.
pub open spec fn gate_holds(aiger: Aiger, a: Assignment, and: And) -> bool {
    lit_true(a, own_lit(aiger, and.lhs)) == (lit_true(a, own_lit(aiger, and.rhs0)) && lit_true(a, own_lit(aiger, and.rhs1)))
}

proof fn lemma_gate_clauses(aiger: Aiger, a: Assignment, and: And)
    ensures
        matrix_true(a, gate_clauses(aiger, and)) == gate_holds(aiger, a, and),
{
    let m = gate_clauses(aiger, and);
    let lhs = own_lit(aiger, and.lhs);
    let rhs0 = own_lit(aiger, and.rhs0);
    let rhs1 = own_lit(aiger, and.rhs1);
    lemma_pair(a, lhs.neg(), rhs0);
    lemma_pair(a, lhs.neg(), rhs1);
    lemma_triple(a, lhs, rhs0.neg(), rhs1.neg());
    assert(m[0] == seq![lhs.neg(), rhs0]);
    assert(m[1] == seq![lhs.neg(), rhs1]);
    assert(m[2] == seq![lhs, rhs0.neg(), rhs1.neg()]);
    if matrix_true(a, m) {
        assert(clause_true(a, m[0]) && clause_true(a, m[1]) && clause_true(a, m[2]));
    }
    if gate_holds(aiger, a, and) {
        assert forall|i: int| 0 <= i < m.len() implies clause_true(a, #[trigger] m[i]) by {}
    }
}

/// A clause of two literals.
pub proof fn lemma_pair(a: Assignment, l: Lit, m: Lit)
    ensures
        clause_true(a, seq![l, m]) == (lit_true(a, l) || lit_true(a, m)),
{
    let c = seq![l, m];
    assert(c[0] == l && c[1] == m);
    if clause_true(a, c) {
        let i = choose|i: int| 0 <= i < c.len() && lit_true(a, #[trigger] c[i]);
        assert(i == 0 || i == 1);
    }
}

/// A clause of three literals.
pub proof fn lemma_triple(a: Assignment, l: Lit, m: Lit, n: Lit)
    ensures
        clause_true(a, seq![l, m, n]) == (lit_true(a, l) || lit_true(a, m) || lit_true(a, n)),
{
    let c = seq![l, m, n];
    assert(c[0] == l && c[1] == m && c[2] == n);
    if clause_true(a, c) {
        let i = choose|i: int| 0 <= i < c.len() && lit_true(a, #[trigger] c[i]);
        assert(i == 0 || i == 1 || i == 2);
    }
}

/// A clause of one literal.
pub proof fn lemma_unit(a: Assignment, l: Lit)
    ensures
        clause_true(a, seq![l]) == lit_true(a, l),
{
    let c = seq![l];
    assert(c[0] == l);
    if clause_true(a, c) {
        let i = choose|i: int| 0 <= i < c.len() && lit_true(a, #[trigger] c[i]);
        assert(i == 0);
    }
}

proof fn lemma_gates_matrix(aiger: Aiger, a: Assignment, count: int)
    requires
        0 <= count <= aiger.ands@.len(),
    ensures
        matrix_true(a, gates_matrix(aiger, count)) <==> forall|i: int| 0 <= i < count ==> gate_holds(aiger, a, #[trigger] aiger.ands@[i]),
    decreases count,
{
    if count > 0 {
        lemma_gates_matrix(aiger, a, count - 1);
        lemma_gate_clauses(aiger, a, aiger.ands@[count - 1]);
        crate::incremental::lemma_concat_true(a, gates_matrix(aiger, count - 1), gate_clauses(aiger, aiger.ands@[count - 1]));
    }
}

/// The clauses hold under an assignment iff it gives the gates the values
/// of the circuit and makes every output true.
pub proof fn law_clauses_are_the_circuit(aiger: Aiger, a: Assignment)
    requires
        literals_in_range(aiger),
        aiger.max_var < CIRCUIT_LIMIT,
    ensures
        matrix_true(a, qaiger_matrix(aiger)) == circuit_holds(aiger, a),
{
    let t = lit_of(true_var(aiger), true);
    crate::literal::lemma_var_index(aiger.max_var as int);
    crate::literal::lemma_lit_of(true_var(aiger), true);
    let first = seq![seq![t]];
    let outs = Seq::new(aiger.outputs@.len(), |i: int| seq![own_lit(aiger, aiger.outputs@[i])]);
    let gates = gates_matrix(aiger, aiger.ands@.len() as int);
    lemma_gates_matrix(aiger, a, aiger.ands@.len() as int);
    crate::incremental::lemma_concat_true(a, first + outs, gates);
    crate::incremental::lemma_concat_true(a, first, outs);
    lemma_unit(a, t);
    assert(first[0] == seq![t]);
    assert(matrix_true(a, first) == lit_true(a, t));
    if matrix_true(a, outs) {
        assert forall|i: int| 0 <= i < aiger.outputs@.len() implies lit_true(a, own_lit(aiger, #[trigger] aiger.outputs@[i])) by {
            assert(clause_true(a, outs[i]));
            lemma_unit(a, own_lit(aiger, aiger.outputs@[i]));
        }
    }
    if forall|i: int| 0 <= i < aiger.outputs@.len() ==> lit_true(a, own_lit(aiger, #[trigger] aiger.outputs@[i])) {
        assert forall|i: int| 0 <= i < outs.len() implies clause_true(a, #[trigger] outs[i]) by {
            lemma_unit(a, own_lit(aiger, aiger.outputs@[i]));
            assert(lit_true(a, own_lit(aiger, aiger.outputs@[i])));
        }
    }
}

/// The instance of a file whose literals are all defined is true iff for
/// every assignment of the universal variables the others can be set such
/// that the circuit's outputs hold.
pub proof fn law_instance_is_the_circuit_question(aiger: Aiger)
    requires
        literals_in_range(aiger),
        aiger.max_var < CIRCUIT_LIMIT,
        within(qaiger_matrix(aiger), qaiger_blocks(aiger)[0].1, qaiger_blocks(aiger)[1].1),
    ensures
        formula_true(qaiger_blocks(aiger), qaiger_matrix(aiger)) <==> forall|u: Assignment| #[trigger] circuit_answered(aiger, u),
{
    let p = qaiger_blocks(aiger);
    let m = qaiger_matrix(aiger);
    let us = p[0].1;
    let es = p[1].1;
    lemma_firsts(existential_vars(aiger), Seq::empty());
    lemma_firsts(universal_vars(aiger), es);
    assert(disjoint(us, es));
    let a: Assignment = |x: Var| false;
    let q = with_block(QuantTy::Forall, us, with_block(QuantTy::Exists, es, Seq::empty()));
    assert(p =~= q);
    assert forall|b: Assignment| #[trigger] qbf(p, m, b) == answered(us, m) by {
        lemma_two_blocks(us, es, m, b);
    }
    assert(formula_true(p, m) == answered(us, m)) by {
        assert(qbf(p, m, a) == answered(us, m));
    }
    assert forall|u: Assignment| crate::incdet::cegar::has_response(us, m, u) == #[trigger] circuit_answered(aiger, u) by {
        if crate::incdet::cegar::has_response(us, m, u) {
            let b = choose|b: Assignment| crate::incdet::cegar::agree_on(u, b, us) && #[trigger] matrix_true(b, m);
            law_clauses_are_the_circuit(aiger, b);
            assert(circuit_holds(aiger, b));
        }
        if circuit_answered(aiger, u) {
            let b = choose|b: Assignment| crate::incdet::cegar::agree_on(u, b, us) && #[trigger] circuit_holds(aiger, b);
            law_clauses_are_the_circuit(aiger, b);
            assert(matrix_true(b, m));
        }
    }
    if answered(us, m) {
        assert forall|u: Assignment| #[trigger] circuit_answered(aiger, u) by {
            assert(crate::incdet::cegar::has_response(us, m, u));
        }
    }
    if forall|u: Assignment| #[trigger] circuit_answered(aiger, u) {
        assert forall|u: Assignment| #[trigger] crate::incdet::cegar::has_response(us, m, u) by {
            assert(circuit_answered(aiger, u));
        }
    }
}

/// The variable is that of an input, controllable or not as given.
pub open spec fn is_input(aiger: Aiger, controllable: bool, x: Var) -> bool {
    exists|i: int|
        0 <= i < aiger.inputs@.len() && input_controllable(aiger, i) == controllable && x == var_of(
            #[trigger] aiger.inputs@[i] as int / 2,
        )
}

/// The variable is that of a latch.
pub open spec fn is_latch(aiger: Aiger, x: Var) -> bool {
    exists|i: int| 0 <= i < aiger.latches@.len() && x == var_of((#[trigger] aiger.latches@[i]).lit as int / 2)
}

/// The variable is that of a gate.
pub open spec fn is_gate(aiger: Aiger, x: Var) -> bool {
    exists|i: int| 0 <= i < aiger.ands@.len() && x == var_of((#[trigger] aiger.ands@[i]).lhs as int / 2)
}

proof fn lemma_input_vars(aiger: Aiger, count: int, controllable: bool, x: Var)
    requires
        0 <= count <= aiger.inputs@.len(),
    ensures
        input_vars(aiger, count, controllable).contains(x) <==> exists|i: int|
            0 <= i < count && input_controllable(aiger, i) == controllable && x == var_of(#[trigger] aiger.inputs@[i] as int / 2),
    decreases count,
{
    if count > 0 {
        lemma_input_vars(aiger, count - 1, controllable, x);
        let last = var_of(aiger.inputs@[count - 1] as int / 2);
        crate::datastructure::lemma_push_contains(input_vars(aiger, count - 1, controllable), last, x);
        if input_controllable(aiger, count - 1) == controllable && x == last {
            let i = count - 1;
            assert(x == var_of(aiger.inputs@[i] as int / 2));
        }
    }
}

/// The environment of a file plays the inputs that are not controllable and
/// the latches; everything else that the file defines is answered.
pub proof fn law_the_environment_plays_the_inputs(aiger: Aiger, x: Var)
    ensures
        qaiger_blocks(aiger)[0].0 == QuantTy::Forall,
        qaiger_blocks(aiger)[1].0 == QuantTy::Exists,
        qaiger_blocks(aiger)[1].1.contains(x) <==> x == true_var(aiger) || is_input(aiger, true, x) || is_gate(aiger, x),
        qaiger_blocks(aiger)[0].1.contains(x) <==> (is_input(aiger, false, x) || is_latch(aiger, x)) && !qaiger_blocks(aiger)[1].1.contains(x),
{
    let n = aiger.inputs@.len() as int;
    let first = seq![true_var(aiger)];
    let gates = Seq::new(aiger.ands@.len(), |i: int| var_of(aiger.ands@[i].lhs as int / 2));
    let latches = Seq::new(aiger.latches@.len(), |i: int| var_of(aiger.latches@[i].lit as int / 2));
    let (yes, no) = (input_vars(aiger, n, true), input_vars(aiger, n, false));
    lemma_input_vars(aiger, n, true, x);
    lemma_input_vars(aiger, n, false, x);
    lemma_firsts(existential_vars(aiger), Seq::empty());
    lemma_firsts(universal_vars(aiger), firsts(existential_vars(aiger), Seq::empty()));
    crate::semantics::lemma_concat_contains(first + yes, gates, x);
    crate::semantics::lemma_concat_contains(first, yes, x);
    crate::semantics::lemma_concat_contains(no, latches, x);
    assert(first.contains(x) <==> x == true_var(aiger)) by {
        assert(first[0] == true_var(aiger));
    }
    assert(gates.contains(x) <==> is_gate(aiger, x)) by {
        if is_gate(aiger, x) {
            let i = choose|i: int| 0 <= i < aiger.ands@.len() && x == var_of((#[trigger] aiger.ands@[i]).lhs as int / 2);
            assert(gates[i] == x);
        }
        if gates.contains(x) {
            let i = choose|i: int| 0 <= i < gates.len() && gates[i] == x;
            assert(x == var_of(aiger.ands@[i].lhs as int / 2));
        }
    }
    assert(latches.contains(x) <==> is_latch(aiger, x)) by {
        if is_latch(aiger, x) {
            let i = choose|i: int| 0 <= i < aiger.latches@.len() && x == var_of((#[trigger] aiger.latches@[i]).lit as int / 2);
            assert(latches[i] == x);
        }
        if latches.contains(x) {
            let i = choose|i: int| 0 <= i < latches.len() && latches[i] == x;
            assert(x == var_of(aiger.latches@[i].lit as int / 2));
        }
    }
}

/// The universal variables being as assigned, the others can be set such
/// that the outputs hold.
pub open spec fn circuit_answered(aiger: Aiger, u: Assignment) -> bool {
    exists|a: Assignment| crate::incdet::cegar::agree_on(u, a, qaiger_blocks(aiger)[0].1) && #[trigger] circuit_holds(aiger, a)
}

/// Where every variable that is read is defined, the truth is that of the
/// question about the circuit.
pub open spec fn asks_the_circuit(aiger: Aiger, truth: bool) -> bool {
    literals_in_range(aiger) && aiger.max_var < CIRCUIT_LIMIT && within(
        qaiger_matrix(aiger),
        qaiger_blocks(aiger)[0].1,
        qaiger_blocks(aiger)[1].1,
    ) ==> (truth <==> forall|u: Assignment| #[trigger] circuit_answered(aiger, u))
}

fn lit_for(aiger: &Aiger, lit: u64) -> (result: Lit)
    requires
        aiger.max_var < CIRCUIT_LIMIT,
        lit as int / 2 <= aiger.max_var,
    ensures
        result == own_lit(*aiger, lit),
{
    let (number, positive) = if lit < 2 {
        (aiger.max_var + 1, lit == 1)
    } else {
        (lit / 2, lit % 2 == 0)
    };
    let var = Var::from_dimacs(number as i32);
    proof {
        crate::literal::lemma_var_of(var);
        crate::literal::lemma_var_index(number - 1);
        crate::literal::lemma_lit_of(var, positive);
    }
    let result = if positive {
        var.positive()
    } else {
        var.negative()
    };
    proof {
        crate::literal::lemma_lit_ext(result, own_lit(*aiger, lit));
    }
    result
}

fn var_for(number: u64) -> (var: Var)
    requires
        0 < number <= CIRCUIT_LIMIT,
    ensures
        var == var_of(number as int),
{
    let var = Var::from_dimacs(number as i32);
    proof {
        crate::literal::lemma_var_of(var);
    }
    var
}

fn clause2(a: Lit, b: Lit) -> (clause: Vec<Lit>)
    ensures
        clause@ == seq![a, b],
{
    let mut clause: Vec<Lit> = Vec::new();
    clause.push(a);
    clause.push(b);
    assert(clause@ =~= seq![a, b]);
    clause
}

fn clause3(a: Lit, b: Lit, c: Lit) -> (clause: Vec<Lit>)
    ensures
        clause@ == seq![a, b, c],
{
    let mut clause: Vec<Lit> = Vec::new();
    clause.push(a);
    clause.push(b);
    clause.push(c);
    assert(clause@ =~= seq![a, b, c]);
    clause
}

/// Every input, latch and gate is on a variable.
pub open spec fn entries_are_variables(aiger: Aiger) -> bool {
    &&& forall|i: int| 0 <= i < aiger.inputs@.len() ==> (#[trigger] aiger.inputs@[i]) >= 2
    &&& forall|i: int| 0 <= i < aiger.latches@.len() ==> (#[trigger] aiger.latches@[i]).lit >= 2
    &&& forall|i: int| 0 <= i < aiger.ands@.len() ==> (#[trigger] aiger.ands@[i]).lhs >= 2
}

/// What was read as a file has its entries on variables.
pub proof fn lemma_read_entries(text: Seq<char>, aiger: Aiger)
    requires
        reads_as(text, Ok(aiger)),
    ensures
        entries_are_variables(aiger),
        aiger.input_names@.len() == aiger.inputs@.len(),
        aiger.output_names@.len() == aiger.outputs@.len(),
        forall|i: int| 0 <= i < aiger.latches@.len() ==> (#[trigger] aiger.latches@[i]).reset <= 1,
{
    let ls = crate::scan::lines(text);
    let h = crate::aiger::parse::header_of(ls)->Ok_0;
    assert forall|i: int| 0 <= i < aiger.inputs@.len() implies (#[trigger] aiger.inputs@[i]) >= 2 by {
        assert(!crate::aiger::parse::bad_entry(ls, h, i));
    }
    assert forall|i: int| 0 <= i < aiger.latches@.len() implies (#[trigger] aiger.latches@[i]).lit >= 2 && aiger.latches@[i].reset <= 1 by {
        assert(!crate::aiger::parse::bad_entry(ls, h, h.inputs + i));
    }
    assert forall|i: int| 0 <= i < aiger.ands@.len() implies (#[trigger] aiger.ands@[i]).lhs >= 2 by {
        assert(!crate::aiger::parse::bad_entry(ls, h, h.inputs + h.latches + h.outputs + i));
    }
}

/// The 2QBF instance of a circuit.
fn to_qcnf(circuit: &Circuit) -> (qcnf: QCNF)
    requires
        circuit.wf(),
        entries_are_variables(circuit.aiger),
    ensures
        qcnf.wf(),
        qcnf.blocks() == qaiger_blocks(circuit.aiger),
        qcnf.clauses() == qaiger_matrix(circuit.aiger),
{
    let aiger = &circuit.aiger;
    let truth = var_for(aiger.max_var + 1);
    let mut universals: Vec<Var> = Vec::new();
    let mut existentials: Vec<Var> = Vec::new();
    existentials.push(truth);
    let mut k: usize = 0;
    assert(existentials@ =~= seq![true_var(*aiger)] + input_vars(*aiger, 0, true));
    while k < aiger.inputs.len()
        invariant
            circuit.wf(),
            entries_are_variables(*aiger),
            *aiger == circuit.aiger,
            k <= aiger.inputs@.len(),
            universals@ == input_vars(*aiger, k as int, false),
            existentials@ == seq![true_var(*aiger)] + input_vars(*aiger, k as int, true),
        decreases aiger.inputs.len() - k,
    {
        assert(aiger.inputs@[k as int] as int / 2 <= aiger.max_var && aiger.inputs@[k as int] >= 2);
        assert(circuit.controllable@[k as int] == input_controllable(*aiger, k as int));
        let var = var_for(aiger.inputs[k] / 2);
        if circuit.controllable[k] {
            existentials.push(var);
        } else {
            universals.push(var);
        }
        assert(existentials@ =~= seq![true_var(*aiger)] + input_vars(*aiger, k + 1, true));
        k += 1;
    }
    let ghost first_universals = universals@;
    let ghost first_existentials = existentials@;
    let mut k: usize = 0;
    while k < aiger.latches.len()
        invariant
            circuit.wf(),
            entries_are_variables(*aiger),
            *aiger == circuit.aiger,
            k <= aiger.latches@.len(),
            universals@ =~= first_universals + Seq::new(k as nat, |i: int| var_of(aiger.latches@[i].lit as int / 2)),
        decreases aiger.latches.len() - k,
    {
        assert(aiger.latches@[k as int].lit as int / 2 <= aiger.max_var && aiger.latches@[k as int].lit >= 2);
        universals.push(var_for(aiger.latches[k].lit / 2));
        k += 1;
    }
    let mut k: usize = 0;
    while k < aiger.ands.len()
        invariant
            circuit.wf(),
            entries_are_variables(*aiger),
            *aiger == circuit.aiger,
            k <= aiger.ands@.len(),
            existentials@ =~= first_existentials + Seq::new(k as nat, |i: int| var_of(aiger.ands@[i].lhs as int / 2)),
        decreases aiger.ands.len() - k,
    {
        assert(aiger.ands@[k as int].lhs as int / 2 <= aiger.max_var && aiger.ands@[k as int].lhs >= 2);
        existentials.push(var_for(aiger.ands[k].lhs / 2));
        k += 1;
    }
    assert(universals@ =~= universal_vars(*aiger));
    assert(existentials@ =~= existential_vars(*aiger));
    let none: Vec<Var> = Vec::new();
    let inner = first_occurrences(&existentials, &none);
    let outer = first_occurrences(&universals, &inner);
    proof {
        assert(none@ =~= Seq::<Var>::empty());
        lemma_firsts(existentials@, Seq::empty());
        lemma_firsts(universals@, inner@);
    }
    let ghost us = outer@;
    let ghost es = inner@;
    // the constant is true, and every output must hold
    let mut matrix: Vec<Vec<Lit>> = Vec::new();
    let ghost t = lit_of(true_var(*aiger), true);
    matrix.push(crate::incdet::state::unit_clause(lit_for(aiger, 1)));
    let mut k: usize = 0;
    assert(matrix_of(matrix@) =~= seq![seq![t]] + Seq::new(0, |i: int| seq![own_lit(*aiger, aiger.outputs@[i])]));
    while k < aiger.outputs.len()
        invariant
            circuit.wf(),
            *aiger == circuit.aiger,
            k <= aiger.outputs@.len(),
            matrix_of(matrix@) == seq![seq![t]] + Seq::new(k as nat, |i: int| seq![own_lit(*aiger, aiger.outputs@[i])]),
        decreases aiger.outputs.len() - k,
    {
        assert(aiger.outputs@[k as int] as int / 2 <= aiger.max_var);
        let ghost before = matrix_of(matrix@);
        matrix.push(crate::incdet::state::unit_clause(lit_for(aiger, aiger.outputs[k])));
        assert(matrix_of(matrix@) =~= before.push(seq![own_lit(*aiger, aiger.outputs@[k as int])]));
        assert(matrix_of(matrix@) =~= seq![seq![t]] + Seq::new((k + 1) as nat, |i: int| seq![own_lit(*aiger, aiger.outputs@[i])]));
        k += 1;
    }
    let ghost head = matrix_of(matrix@);
    // two-sided definition of every gate
    let mut k: usize = 0;
    assert(head + gates_matrix(*aiger, 0) =~= head);
    while k < aiger.ands.len()
        invariant
            circuit.wf(),
            *aiger == circuit.aiger,
            k <= aiger.ands@.len(),
            matrix_of(matrix@) == head + gates_matrix(*aiger, k as int),
        decreases aiger.ands.len() - k,
    {
        let and = aiger.ands[k];
        assert(aiger.ands@[k as int].lhs as int / 2 <= aiger.max_var);
        let lhs = lit_for(aiger, and.lhs);
        let rhs0 = lit_for(aiger, and.rhs0);
        let rhs1 = lit_for(aiger, and.rhs1);
        let ghost before = matrix_of(matrix@);
        matrix.push(clause2(lhs.negated(), rhs0));
        matrix.push(clause2(lhs.negated(), rhs1));
        matrix.push(clause3(lhs, rhs0.negated(), rhs1.negated()));
        assert(matrix_of(matrix@) =~= before + gate_clauses(*aiger, and));
        assert(matrix_of(matrix@) =~= head + gates_matrix(*aiger, k + 1));
        k += 1;
    }
    let mut prefix: Vec<(QuantTy, Vec<Var>)> = Vec::new();
    prefix.push((QuantTy::Forall, outer));
    prefix.push((QuantTy::Exists, inner));
    let qcnf = QCNF { prefix, matrix };
    proof {
        let p = qcnf.blocks();
        assert(p =~= seq![(QuantTy::Forall, us), (QuantTy::Exists, es)]);
        assert forall|i: int| 0 <= i < p.len() implies (#[trigger] p[i]).1.no_duplicates() by {}
        assert forall|i: int, j: int, x: Var| 0 <= i < j < p.len() && #[trigger] p[i].1.contains(x) implies !#[trigger] p[j].1.contains(x) by {
            assert(us.contains(x));
        }
        assert(qcnf.clauses() =~= qaiger_matrix(*aiger));
    }
    qcnf
}

/// The error of a file beyond the limits of a circuit.
pub(crate) fn out_of_range() -> (error: ParseError)
    ensures
        error.line == 1,
        error.message@ == "a variable is out of range"@,
{
    let mut message = String::new();
    message.append("a variable is out of range");
    assert(message@ =~= "a variable is out of range"@);
    ParseError { message, line: 1 }
}

/// What reading a circuit gives: the file, if it is within the limits.
pub open spec fn reads_circuit(text: Seq<char>, result: Result<Circuit, ParseError>) -> bool {
    match result {
        Ok(circuit) => reads_as(text, Ok(circuit.aiger)) && circuit.wf() && entries_are_variables(circuit.aiger),
        Err(error) => reads_as(text, Err(error)) || exists|aiger: Aiger| #[trigger]
            reads_as(text, Ok(aiger)) && !fits(aiger) && error.line == 1 && error.message@
                == "a variable is out of range"@,
    }
}

/// Reads a circuit.
pub(crate) fn parse_circuit(input: &str) -> (result: Result<Circuit, ParseError>)
    ensures
        reads_circuit(input@, result),
{
    match parse_aag(input) {
        Err(error) => Err(error),
        Ok(aiger) => {
            let ghost read = aiger;
            proof {
                lemma_read_entries(input@, aiger);
            }
            match Circuit::new(aiger) {
                Some(circuit) => Ok(circuit),
                None => {
                    assert(reads_as(input@, Ok(read)));
                    Err(out_of_range())
                },
            }
        },
    }
}

/// Parses an ASCII AIGER file and converts it into a 2QBF instance. Where
/// the file defines every variable it reads, the instance is true iff for
/// all universal inputs the others can be set such that the outputs hold.
pub fn parse_qaiger(input: &str) -> (result: Result<QCNF, ParseError>)
    ensures
        match result {
            Ok(qcnf) => exists|circuit: Circuit| #[trigger]
                reads_circuit(input@, Ok(circuit)) && qcnf.wf() && qcnf.blocks() == qaiger_blocks(circuit.aiger) && qcnf.clauses()
                    == qaiger_matrix(circuit.aiger) && asks_the_circuit(circuit.aiger, qcnf.truth()),
            Err(error) => reads_circuit(input@, Err(error)),
        },
{
    match parse_circuit(input) {
        Err(error) => Err(error),
        Ok(circuit) => {
            let qcnf = to_qcnf(&circuit);
            proof {
                assert(reads_circuit(input@, Ok(circuit)));
                let aiger = circuit.aiger;
                if literals_in_range(aiger) && aiger.max_var < CIRCUIT_LIMIT && within(
                    qaiger_matrix(aiger),
                    qaiger_blocks(aiger)[0].1,
                    qaiger_blocks(aiger)[1].1,
                ) {
                    law_instance_is_the_circuit_question(aiger);
                }
            }
            Ok(qcnf)
        },
    }
}

} // verus!
