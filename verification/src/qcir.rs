//! QCIR input: prenex QCIR-G14 circuits.
//!
//! Like the QAIGER path, this is a definition-level input: gates arrive as
//! definitions and become existential variables with their two-sided
//! clauses, so incremental determinization recovers all of them in the
//! initial propagation. Beyond AIGER's conjunctions, QCIR offers `and`,
//! `or`, `xor`, and `ite` with arbitrary arity where applicable.
//!
//! Supported shape: *prenex* circuits (quantifier blocks up front, no
//! quantifiers inside gates) whose prefix collapses to at most two blocks
//! before the gates. An exists-forall prefix is solved by *negation*: gate
//! definitions are self-dual, so flipping the quantifiers and negating the
//! output yields the dual whose verdict is inverted ([`Qcir::negated`]).
//! Identifiers may be "cleansed" integers or arbitrary names; both are
//! numbered, and [`Qcir::name_of`] maps solver variables back to their
//! surface names.
pub mod formula;
pub mod instance;
pub mod listing;
pub mod names;
pub mod read;

use crate::aiger::qaiger::lemma_unit;
use crate::literal::{Lit, Var};
use crate::qcir::formula::{
    add_free, all_clauses, append_block, circuit_clauses, declared_blocks, find_output, flip, flipped, free_of, gate_variables, gates_of,
    is_universal, lemma_mapped_declared, literal, mapped, merged, output_lit, output_of, with_free, with_gates, NAME_LIMIT,
};
use crate::qcir::names::lemma_distinct;
use crate::qcir::read::{all_mentioned, names_of, statements_of, Reader, Statement};
use crate::qcnf::{matrix_of, prefix_of, QCNF};
use crate::quantifier::QuantTy;
use crate::scan::{char_lists, chars_of, lines, lines_of, push_chars};
use crate::semantics::{
    agree_off, bound, formula_true, lemma_coincide, lemma_exists_block, lemma_forall_block, lit_true, matrix_true, mentions, qbf, with_block,
    Assignment, Matrix, Prefix,
};
use vstd::prelude::*;
use vstd::string::*;

verus! {

broadcast use crate::literal::group_literal;

/// What is wrong with an input, and in which line.
#[derive(Debug)]
pub struct ParseError {
    pub message: String,
    pub line: usize,
}

/// A parsed prenex QCIR instance, converted to clauses.
#[derive(Debug)]
pub struct Qcir {
    pub qcnf: QCNF,
    /// whether the instance was negated to reach the supported shape: the
    /// solver's verdict must be inverted, and satisfiability artifacts
    /// (models, strategies) describe the negation
    pub negated: bool,
    /// surface names, by variable number (1-based)
    pub names: Vec<Vec<char>>,
}

/// The blocks of an instance before its gates, with the free variables
/// outermost.
pub open spec fn instance_blocks(statements: Seq<Statement>) -> Seq<(QuantTy, Seq<Seq<char>>)> {
    with_free(merged(statements), free_of(statements, names_of(statements), names_of(statements).len() as int))
}

/// The instance has to be negated.
pub open spec fn is_negated(statements: Seq<Statement>) -> bool {
    let blocks = instance_blocks(statements);
    blocks.len() == 2 && blocks[1].0 == QuantTy::Forall
}

/// The blocks of the formula: those of the instance, flipped if it is
/// negated, with the gates innermost.
pub open spec fn formula_blocks(statements: Seq<Statement>) -> Prefix {
    let blocks = instance_blocks(statements);
    mapped(
        names_of(statements),
        with_gates(if is_negated(statements) { flipped(blocks) } else { blocks }, gates_of(statements)),
    )
}

/// The clauses of the formula: those of the gates, and the output.
pub open spec fn formula_clauses(statements: Seq<Statement>) -> Matrix {
    let out = output_lit(names_of(statements), output_of(statements)->0);
    circuit_clauses(names_of(statements), statements).push(seq![if is_negated(statements) { out.neg() } else { out }])
}

/// What reading an instance gives.
pub open spec fn reads_qcir(text: Seq<char>, result: Result<Qcir, ParseError>) -> bool {
    let ls = lines(text);
    match statements_of(ls, ls.len() as int) {
        Err((line, message)) => result is Err && (result->Err_0).line == line && (result->Err_0).message@ == message,
        Ok(statements) => if output_of(statements) is None {
            result is Err && (result->Err_0).line == ls.len() && (result->Err_0).message@ == "missing output declaration"@
        } else if names_of(statements).len() > NAME_LIMIT {
            result is Err && (result->Err_0).line == ls.len() && (result->Err_0).message@ == "too many identifiers"@
        } else if instance_blocks(statements).len() > 2 {
            result is Err && (result->Err_0).line == ls.len() && (result->Err_0).message@ == "only 2QBF prefixes are supported"@
        } else {
            &&& result is Ok
            &&& (result->Ok_0).names() == names_of(statements)
            &&& (result->Ok_0).negated == is_negated(statements)
            &&& (result->Ok_0).qcnf.blocks() == formula_blocks(statements)
            &&& (result->Ok_0).qcnf.clauses() == formula_clauses(statements)
        },
    }
}

impl Qcir {
    /// The surface names in order.
    pub open spec fn names(&self) -> Seq<Seq<char>> {
        char_lists(self.names@)
    }

    /// The surface name of a solver variable (DIMACS numbering), if the
    /// variable came from the input (gates and inputs both have names).
    pub fn name_of(&self, var: i32) -> (name: Option<String>)
        ensures
            match name {
                Some(name) => 1 <= var <= self.names().len() && name@ == self.names()[var - 1],
                None => !(1 <= var <= self.names().len()),
            },
    {
        if var < 1 || (var - 1) as usize >= self.names.len() {
            return None;
        }
        let mut name = String::new();
        push_chars(&mut name, &self.names[(var - 1) as usize]);
        assert(name@ =~= self.names()[var - 1]);
        Some(name)
    }
}

fn err(line: usize, message: &str) -> (error: ParseError)
    ensures
        error.line == line,
        error.message@ == message@,
{
    let mut held = String::new();
    held.append(message);
    assert(held@ =~= message@);
    ParseError { message: held, line }
}

/// An error in the first lines is the error of all.
proof fn lemma_first_error(ls: Seq<Seq<char>>, k: int, n: int)
    requires
        k <= n,
        statements_of(ls, k) is Err,
    ensures
        statements_of(ls, n) == statements_of(ls, k),
    decreases n - k,
{
    if k < n {
        lemma_first_error(ls, k, n - 1);
    }
}

/// Parses a prenex QCIR-G14 instance and converts it into clauses.
///
/// Malformed input, quantifiers inside gates, and prefixes that do not
/// collapse to a supported shape are errors.
pub fn parse_qcir(input: &str) -> (result: Result<Qcir, ParseError>)
    ensures
        reads_qcir(input@, result),
{
    let chars = chars_of(input);
    let rows = lines_of(&chars);
    let ghost ls = lines(input@);
    let mut reader = Reader::new();
    let mut k: usize = 0;
    assert(char_lists(rows@).len() == rows@.len());
    while k < rows.len()
        invariant
            k <= rows.len(),
            ls == lines(input@),
            char_lists(rows@) == ls,
            rows@.len() == ls.len(),
            reader.wf(),
            statements_of(ls, k as int) is Ok,
            reader.statements() == statements_of(ls, k as int)->Ok_0,
        decreases rows.len() - k,
    {
        assert(char_lists(rows@)[k as int] == rows@[k as int]@);
        match reader.read_line(&rows[k]) {
            Ok(()) => {},
            Err(message) => {
                proof {
                    lemma_first_error(ls, k as int + 1, ls.len() as int);
                }
                return Err(ParseError { message, line: k + 1 });
            },
        }
        k += 1;
    }
    let ghost statements = reader.statements();
    let count = rows.len();
    proof {
        reader.lemma_parts();
        lemma_distinct(all_mentioned(statements));
    }
    let (names, parsed) = reader.into_parts();
    let ghost table = char_lists(names@);
    let output = match find_output(&parsed, Ghost(table)) {
        Some(output) => output,
        None => return Err(err(count, "missing output declaration")),
    };
    assert(table.len() == names@.len());
    if names.len() > NAME_LIMIT {
        return Err(err(count, "too many identifiers"));
    }
    let mut prefix = declared_blocks(&parsed, Ghost(table));
    add_free(&mut prefix, &parsed, names.len(), Ghost(table));
    let ghost blocks = instance_blocks(statements);
    proof {
        assert(prefix_of(prefix@) == mapped(table, blocks));
        assert(prefix_of(prefix@).len() == prefix@.len());
        assert(mapped(table, blocks).len() == blocks.len());
    }
    if prefix.len() > 2 {
        return Err(err(count, "only 2QBF prefixes are supported"));
    }
    let negated = prefix.len() == 2 && is_universal(prefix[1].0);
    proof {
        if prefix@.len() == 2 {
            assert(prefix_of(prefix@)[1].0 == prefix@[1].0);
            assert(mapped(table, blocks)[1].0 == blocks[1].0);
        }
    }
    let ghost ordered = if negated { flipped(blocks) } else { blocks };
    if negated {
        let ghost before = prefix@;
        flip(&mut prefix);
        proof {
            let wanted = mapped(table, flipped(blocks));
            assert forall|i: int| 0 <= i < wanted.len() implies prefix_of(prefix@)[i] == #[trigger] wanted[i] by {
                assert(prefix_of(before)[i] == mapped(table, blocks)[i]);
            }
            assert(prefix_of(prefix@) =~= wanted);
        }
    }
    let gates = gate_variables(&parsed, Ghost(table));
    append_block(&mut prefix, QuantTy::Exists, gates);
    proof {
        lemma_mapped_declared(table, ordered, QuantTy::Exists, gates_of(statements));
    }
    let mut matrix = all_clauses(&parsed, Ghost(table));
    let lit = literal(output.0, output.1, Ghost(table));
    let unit: Vec<Lit> = vec![if negated { lit.negated() } else { lit }];
    let ghost held = matrix_of(matrix@);
    matrix.push(unit);
    proof {
        assert(unit@ =~= seq![if negated { lit.neg() } else { lit }]);
        assert(matrix_of(matrix@) =~= held.push(unit@));
    }
    Ok(Qcir { qcnf: QCNF { prefix, matrix }, negated, names })
}

/// Some values of the gates satisfy the clauses of the gates.
pub open spec fn has_values(gates: Seq<Var>, m: Matrix, a: Assignment) -> bool {
    exists|b: Assignment| #[trigger] agree_off(a, b, gates) && matrix_true(b, m)
}

/// The inputs determine the gates: whatever the inputs are, the gates have
/// values, and only one.
pub open spec fn functional(gates: Seq<Var>, m: Matrix) -> bool {
    &&& forall|a: Assignment| #[trigger] has_values(gates, m, a)
    &&& forall|a: Assignment, b: Assignment|
        #[trigger] matrix_true(a, m) && #[trigger] matrix_true(b, m) && agree_off(a, b, gates) ==> forall|x: Var|
            gates.contains(x) ==> #[trigger] a(x) == b(x)
}

/// An exists-forall instance over a functional circuit is true iff its dual
/// is false: the verdict of a negated instance is inverted.
pub proof fn law_negated_instances_invert(outer: Seq<Var>, inner: Seq<Var>, gates: Seq<Var>, m: Matrix, out: Lit)
    requires
        functional(gates, m),
        forall|x: Var| #[trigger] mentions(m, x) || x == out.v() ==> outer.contains(x) || inner.contains(x) || gates.contains(x),
    ensures
        formula_true(
            seq![(QuantTy::Exists, outer), (QuantTy::Forall, inner), (QuantTy::Exists, gates)],
            m.push(seq![out]),
        ) == !formula_true(seq![(QuantTy::Forall, outer), (QuantTy::Exists, inner + gates)], m.push(seq![out.neg()])),
{
    let yes = m.push(seq![out]);
    let no = m.push(seq![out.neg()]);
    let none: Prefix = Seq::empty();
    let gate_block = with_block(QuantTy::Exists, gates, none);
    let inner_block = with_block(QuantTy::Forall, inner, gate_block);
    let p = seq![(QuantTy::Exists, outer), (QuantTy::Forall, inner), (QuantTy::Exists, gates)];
    assert(p =~= with_block(QuantTy::Exists, outer, inner_block));
    let dual_block = with_block(QuantTy::Exists, inner + gates, none);
    let q = seq![(QuantTy::Forall, outer), (QuantTy::Exists, inner + gates)];
    assert(q =~= with_block(QuantTy::Forall, outer, dual_block));
    assert forall|a: Assignment| #[trigger] qbf(inner_block, yes, a) == !qbf(dual_block, no, a) by {
        lemma_dual_inner(inner, gates, m, out, a);
    }
    assert forall|a: Assignment| #[trigger] qbf(p, yes, a) == !qbf(q, no, a) by {
        lemma_exists_block(outer, inner_block, yes, a);
        lemma_forall_block(outer, dual_block, no, a);
        if qbf(p, yes, a) {
            let b = choose|b: Assignment| #[trigger] agree_off(a, b, outer) && qbf(inner_block, yes, b);
            assert(!qbf(dual_block, no, b));
        }
        if !qbf(q, no, a) {
            let b = choose|b: Assignment| #[trigger] agree_off(a, b, outer) && !qbf(dual_block, no, b);
            assert(qbf(inner_block, yes, b));
        }
    }
    assert forall|x: Var| outer.contains(x) || inner.contains(x) || gates.contains(x) implies #[trigger] bound(p, x) && bound(q, x) by {
        crate::semantics::lemma_concat_contains(inner, gates, x);
        assert(p[0].1.contains(x) || p[1].1.contains(x) || p[2].1.contains(x));
        assert(q[0].1.contains(x) || q[1].1.contains(x));
    }
    let e = |x: Var| true;
    assert forall|a: Assignment| #[trigger] qbf(p, yes, a) == qbf(p, yes, e) by {
        lemma_unit_mentions(m, out);
        assert forall|x: Var| #[trigger] mentions(yes, x) implies bound(p, x) by {}
        lemma_coincide(p, yes, a, e);
    }
    assert forall|a: Assignment| #[trigger] qbf(q, no, a) == qbf(q, no, e) by {
        lemma_unit_mentions(m, out.neg());
        assert forall|x: Var| #[trigger] mentions(no, x) implies bound(q, x) by {
            assert(bound(p, x));
        }
        lemma_coincide(q, no, a, e);
    }
    assert(qbf(p, yes, e) == !qbf(q, no, e));
}

proof fn lemma_unit_mentions(m: Matrix, l: Lit)
    ensures
        forall|x: Var| #[trigger] mentions(m.push(seq![l]), x) <==> mentions(m, x) || x == l.v(),
{
    let c = seq![l];
    assert forall|x: Var| #[trigger] mentions(m.push(c), x) <==> mentions(m, x) || x == l.v() by {
        crate::qcnf::lemma_matrix_push(m, c, x);
        if x == l.v() {
            assert(c[0].v() == x);
        }
    }
}

/// The inner half of the duality.
proof fn lemma_dual_inner(inner: Seq<Var>, gates: Seq<Var>, m: Matrix, out: Lit, a: Assignment)
    requires
        functional(gates, m),
    ensures
        qbf(with_block(QuantTy::Forall, inner, with_block(QuantTy::Exists, gates, Seq::empty())), m.push(seq![out]), a) == !qbf(
            with_block(QuantTy::Exists, inner + gates, Seq::empty()),
            m.push(seq![out.neg()]),
            a,
        ),
{
    let yes = m.push(seq![out]);
    let no = m.push(seq![out.neg()]);
    let none: Prefix = Seq::empty();
    let gate_block = with_block(QuantTy::Exists, gates, none);
    lemma_forall_block(inner, gate_block, yes, a);
    lemma_exists_block(inner + gates, none, no, a);
    assert forall|b: Assignment| #[trigger] matrix_true(b, yes) == (matrix_true(b, m) && lit_true(b, out)) by {
        crate::simplify::lemma_push_true(b, m, seq![out]);
        lemma_unit(b, out);
    }
    assert forall|b: Assignment| #[trigger] matrix_true(b, no) == (matrix_true(b, m) && !lit_true(b, out)) by {
        crate::simplify::lemma_push_true(b, m, seq![out.neg()]);
        lemma_unit(b, out.neg());
    }
    let left = with_block(QuantTy::Forall, inner, gate_block);
    let right = with_block(QuantTy::Exists, inner + gates, none);
    if qbf(left, yes, a) && qbf(right, no, a) {
        let d = choose|d: Assignment| #[trigger] agree_off(a, d, inner + gates) && qbf(none, no, d);
        assert(matrix_true(d, no));
        let b = |x: Var| if inner.contains(x) { d(x) } else { a(x) };
        assert(agree_off(a, b, inner));
        assert(qbf(gate_block, yes, b));
        lemma_exists_block(gates, none, yes, b);
        let c = choose|c: Assignment| #[trigger] agree_off(b, c, gates) && qbf(none, yes, c);
        assert(matrix_true(c, yes));
        assert forall|x: Var| !gates.contains(x) implies #[trigger] c(x) == d(x) by {
            assert(b(x) == c(x));
            crate::semantics::lemma_concat_contains(inner, gates, x);
            if !inner.contains(x) {
                assert(a(x) == d(x));
            }
        }
        assert(agree_off(c, d, gates));
        assert(matrix_true(c, m) && matrix_true(d, m));
        assert(c(out.v()) == d(out.v()));
        assert(lit_true(c, out) == lit_true(d, out));
    }
    if !qbf(left, yes, a) {
        let b = choose|b: Assignment| #[trigger] agree_off(a, b, inner) && !qbf(gate_block, yes, b);
        lemma_exists_block(gates, none, yes, b);
        assert(has_values(gates, m, b));
        let c = choose|c: Assignment| #[trigger] agree_off(b, c, gates) && matrix_true(c, m);
        assert(qbf(none, yes, c) == matrix_true(c, yes));
        assert(!lit_true(c, out));
        assert forall|x: Var| !(inner + gates).contains(x) implies #[trigger] a(x) == c(x) by {
            crate::semantics::lemma_concat_contains(inner, gates, x);
            assert(a(x) == b(x));
            assert(b(x) == c(x));
        }
        assert(agree_off(a, c, inner + gates));
        assert(matrix_true(c, no));
        assert(qbf(none, no, c));
    }
}

} // verus!
