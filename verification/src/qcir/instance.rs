//! What an instance says.
//!
//! The blocks of an instance are played in order, by names, and then the
//! gates are evaluated: the instance is true if the players of the
//! existential blocks can make the output hold. Names that nothing
//! introduces are chosen first. The formula that an instance is read as has
//! this truth, or the opposite one if the instance was negated.
use crate::literal::{lemma_lit_of, lemma_var_index, lit_of, var_of, Lit, Var, MAX_INDEX};
use crate::normal::{lemma_push_block_qbf, push_block};
use crate::qcir::formula::{
    circuit_clauses, flipped, free_of, gate_clauses, gate_value, gates_of, introduced, introduces, law_gate_clauses_are_the_gate,
    lemma_mapped_declared, mapped, merged, negations, output_lit, output_of, statement_clauses, term_lits, variable, variables, with_declared,
    with_free, with_gates, NAME_LIMIT,
};
use crate::qcir::names::{distinct_names, lemma_distinct, lemma_place, no_repeats, place};
use crate::qcir::read::{
    all_mentioned, content_line, declaration_line, defines, defines_it, definition_of, gate_line, gate_of, has_output, line_of, mentioned, names_of,
    proper_arity, statements_of, term_names, GateOp, Statement, Term,
};
use crate::qcir::{formula_blocks, formula_clauses, functional, has_values, instance_blocks, is_negated, law_negated_instances_invert, reads_qcir};
use crate::qcir::{ParseError, Qcir};
use crate::quantifier::QuantTy;
use crate::scan::lines;
use crate::semantics::{
    agree_off, clause_mentions, clause_true, cube_true, formula_true, lemma_exists_block, lemma_forall_block, lit_true, matrix_true, mentions, qbf,
    with_block, Assignment, Matrix, Prefix,
};
use vstd::prelude::*;

verus! {

broadcast use crate::literal::group_literal;

/// Values of names.
pub type Valuation = spec_fn(Seq<char>) -> bool;

/// The term holds.
pub open spec fn holds(v: Valuation, term: Term) -> bool {
    v(term.name) == term.positive
}

/// What an operation computes.
pub open spec fn computed(op: GateOp, args: Seq<Term>, v: Valuation) -> bool {
    match op {
        GateOp::And => forall|i: int| 0 <= i < args.len() ==> holds(v, #[trigger] args[i]),
        GateOp::Or => exists|i: int| 0 <= i < args.len() && holds(v, #[trigger] args[i]),
        GateOp::Xor => holds(v, args[0]) != holds(v, args[1]),
        GateOp::Ite => if holds(v, args[0]) {
            holds(v, args[1])
        } else {
            holds(v, args[2])
        },
    }
}

/// The statement, if it defines a gate, gives it its value.
pub open spec fn gate_holds(statement: Statement, v: Valuation) -> bool {
    match statement {
        Statement::Gate(name, op, args) => v(name) == computed(op, args, v),
        _ => true,
    }
}

/// Every gate has the value that it computes.
pub open spec fn gates_hold(statements: Seq<Statement>, v: Valuation) -> bool {
    forall|i: int| 0 <= i < statements.len() ==> gate_holds(#[trigger] statements[i], v)
}

/// The statement, if it declares the output, has it hold.
pub open spec fn output_holds(statement: Statement, v: Valuation) -> bool {
    match statement {
        Statement::Output(term) => holds(v, term),
        _ => true,
    }
}

/// The declared output holds.
pub open spec fn outputs_hold(statements: Seq<Statement>, v: Valuation) -> bool {
    forall|i: int| 0 <= i < statements.len() ==> output_holds(#[trigger] statements[i], v)
}

/// Evaluating the gates turns the first valuation into the second.
pub open spec fn evaluates(statements: Seq<Statement>, v: Valuation, w: Valuation) -> bool {
    gates_hold(statements, w) && forall|name: Seq<char>| !defines(statements, name) ==> #[trigger] w(name) == v(name)
}

/// The values differ on the listed names at most.
pub open spec fn same_off(v: Valuation, w: Valuation, names: Seq<Seq<char>>) -> bool {
    forall|name: Seq<char>| !names.contains(name) ==> v(name) == #[trigger] w(name)
}

/// The output can be made to hold by playing the blocks from a statement on
/// and evaluating the gates.
pub open spec fn won(statements: Seq<Statement>, from: int, v: Valuation) -> bool
    decreases statements.len() - from,
{
    if from >= statements.len() || from < 0 {
        exists|w: Valuation| #[trigger] evaluates(statements, v, w) && outputs_hold(statements, w)
    } else {
        match statements[from] {
            Statement::Block(QuantTy::Exists, names) => exists|w: Valuation| #[trigger] same_off(v, w, names) && won(statements, from + 1, w),
            Statement::Block(QuantTy::Forall, names) => forall|w: Valuation| #[trigger] same_off(v, w, names) ==> won(statements, from + 1, w),
            _ => won(statements, from + 1, v),
        }
    }
}

/// What it takes to win a block.
pub(crate) proof fn lemma_won_block(statements: Seq<Statement>, from: int, q: QuantTy, names: Seq<Seq<char>>, v: Valuation)
    requires
        0 <= from < statements.len(),
        statements[from] == Statement::Block(q, names),
    ensures
        q == QuantTy::Exists && won(statements, from, v) ==> exists|w: Valuation| #[trigger]
            same_off(v, w, names) && won(statements, from + 1, w),
        q == QuantTy::Forall && won(statements, from, v) ==> forall|w: Valuation| #[trigger]
            same_off(v, w, names) ==> won(statements, from + 1, w),
        q == QuantTy::Exists && (exists|w: Valuation| #[trigger] same_off(v, w, names) && won(statements, from + 1, w)) ==> won(
            statements,
            from,
            v,
        ),
        q == QuantTy::Forall && (forall|w: Valuation| #[trigger] same_off(v, w, names) ==> won(statements, from + 1, w)) ==> won(
            statements,
            from,
            v,
        ),
{
    match statements[from] {
        Statement::Block(QuantTy::Exists, own) => {
            assert(own == names);
        },
        Statement::Block(QuantTy::Forall, own) => {
            assert(own == names);
        },
        _ => {},
    }
}

/// The instance is true.
pub open spec fn instance_true(statements: Seq<Statement>) -> bool {
    exists|v: Valuation| #[trigger] won(statements, 0, v)
}

/// Gates refer to gates of lower rank.
pub open spec fn ranked(statements: Seq<Statement>, rank: spec_fn(Seq<char>) -> nat) -> bool {
    forall|i: int| 0 <= i < statements.len() ==> lower_args(statements, #[trigger] statements[i], rank)
}

pub open spec fn lower_args(statements: Seq<Statement>, statement: Statement, rank: spec_fn(Seq<char>) -> nat) -> bool {
    match statement {
        Statement::Gate(name, op, args) => forall|k: int|
            0 <= k < args.len() && defines(statements, (#[trigger] args[k]).name) ==> rank(args[k].name) < rank(name),
        _ => true,
    }
}

/// No gate depends on itself.
pub open spec fn acyclic(statements: Seq<Statement>) -> bool {
    exists|rank: spec_fn(Seq<char>) -> nat| #[trigger] ranked(statements, rank)
}

/// Gates have arguments as their operation takes them, and are defined
/// once; there is one output.
spec fn sound(statements: Seq<Statement>) -> bool {
    &&& forall|i: int| 0 <= i < statements.len() ==> proper(#[trigger] statements[i])
    &&& forall|i: int, j: int|
        0 <= i < statements.len() && 0 <= j < statements.len() && same_gate(#[trigger] statements[i], #[trigger] statements[j]) ==> i == j
    &&& forall|i: int, j: int|
        0 <= i < statements.len() && 0 <= j < statements.len() && (#[trigger] statements[i]) is Output && (#[trigger] statements[j]) is Output
            ==> i == j
}

spec fn proper(statement: Statement) -> bool {
    match statement {
        Statement::Gate(name, op, args) => proper_arity(op, args.len()),
        _ => true,
    }
}

spec fn same_gate(left: Statement, right: Statement) -> bool {
    match (left, right) {
        (Statement::Gate(name, _, _), Statement::Gate(other, _, _)) => name == other,
        _ => false,
    }
}

proof fn lemma_sound_line(statements: Seq<Statement>, raw: Seq<char>)
    requires
        sound(statements),
        line_of(statements, raw) matches Ok(Some(_)),
    ensures
        sound(statements.push(line_of(statements, raw)->Ok_0->0)),
{
    let last = line_of(statements, raw)->Ok_0->0;
    let all = statements.push(last);
    assert(proper(last));
    assert forall|i: int| 0 <= i < all.len() implies proper(#[trigger] all[i]) by {
        if i < statements.len() {
            assert(proper(statements[i]));
        }
    }
    assert forall|i: int| 0 <= i < statements.len() implies !same_gate(#[trigger] statements[i], last) && !same_gate(last, statements[i]) && !(
    statements[i] is Output && last is Output) by {
        match last {
            Statement::Gate(name, op, args) => {
                assert(!defines(statements, name));
                assert(!defines_it(statements[i], name));
            },
            Statement::Output(term) => {
                assert(!has_output(statements));
            },
            _ => {},
        }
    }
    assert forall|i: int, j: int| 0 <= i < all.len() && 0 <= j < all.len() && same_gate(#[trigger] all[i], #[trigger] all[j]) implies i == j by {
        if i < statements.len() && j < statements.len() {
            assert(same_gate(statements[i], statements[j]));
        } else if i < statements.len() {
            assert(all[i] == statements[i]);
        } else if j < statements.len() {
            assert(all[j] == statements[j]);
        }
    }
    assert forall|i: int, j: int|
        0 <= i < all.len() && 0 <= j < all.len() && (#[trigger] all[i]) is Output && (#[trigger] all[j]) is Output implies i == j by {
        if i < statements.len() && j < statements.len() {
            assert(statements[i] is Output && statements[j] is Output);
        } else if i < statements.len() {
            assert(all[i] == statements[i]);
        } else if j < statements.len() {
            assert(all[j] == statements[j]);
        }
    }
}

proof fn lemma_sound(ls: Seq<Seq<char>>, count: int)
    requires
        statements_of(ls, count) is Ok,
    ensures
        sound(statements_of(ls, count)->Ok_0),
    decreases count,
{
    if count > 0 {
        lemma_sound(ls, count - 1);
        let before = statements_of(ls, count - 1)->Ok_0;
        match line_of(before, ls[count - 1]) {
            Ok(Some(statement)) => {
                lemma_sound_line(before, ls[count - 1]);
            },
            _ => {},
        }
    }
}

/// The valuation and the assignment agree on the listed names.
spec fn like(table: Seq<Seq<char>>, v: Valuation, a: Assignment) -> bool {
    forall|name: Seq<char>| #[trigger] table.contains(name) ==> v(name) == a(variable(table, name))
}

/// All names of the statement are listed.
spec fn listed(table: Seq<Seq<char>>, statement: Statement) -> bool {
    forall|i: int| 0 <= i < mentioned(statement).len() ==> table.contains(#[trigger] mentioned(statement)[i])
}

/// The names are numbered.
spec fn numbered(table: Seq<Seq<char>>) -> bool {
    no_repeats(table) && table.len() <= NAME_LIMIT
}

proof fn lemma_variable(table: Seq<Seq<char>>, name: Seq<char>)
    requires
        numbered(table),
        table.contains(name),
    ensures
        variable(table, name).id() == place(table, name),
        0 <= place(table, name) < table.len(),
        table[place(table, name)] == name,
        forall|positive: bool| (#[trigger] lit_of(variable(table, name), positive)).v() == variable(table, name) && lit_of(
            variable(table, name),
            positive,
        ).pos() == positive,
{
    let k = place(table, name);
    lemma_var_index(k);
    assert forall|positive: bool| (#[trigger] lit_of(variable(table, name), positive)).v() == variable(table, name) && lit_of(
        variable(table, name),
        positive,
    ).pos() == positive by {
        lemma_lit_of(variable(table, name), positive);
    }
}

/// Listed names are different variables.
proof fn lemma_variables(table: Seq<Seq<char>>, names: Seq<Seq<char>>, name: Seq<char>)
    requires
        numbered(table),
        table.contains(name),
        forall|i: int| 0 <= i < names.len() ==> table.contains(#[trigger] names[i]),
    ensures
        variables(table, names).contains(variable(table, name)) == names.contains(name),
{
    let vs = variables(table, names);
    lemma_variable(table, name);
    if names.contains(name) {
        let i = choose|i: int| 0 <= i < names.len() && names[i] == name;
        assert(vs[i] == variable(table, name));
    }
    if vs.contains(variable(table, name)) {
        let i = choose|i: int| 0 <= i < vs.len() && vs[i] == variable(table, name);
        assert(table.contains(names[i]));
        lemma_variable(table, names[i]);
        assert(names[i] == name);
    }
}

proof fn lemma_term(table: Seq<Seq<char>>, v: Valuation, a: Assignment, term: Term)
    requires
        numbered(table),
        table.contains(term.name),
        like(table, v, a),
    ensures
        lit_true(a, output_lit(table, term)) == holds(v, term),
{
    lemma_variable(table, term.name);
    assert(output_lit(table, term) == lit_of(variable(table, term.name), term.positive));
}

proof fn lemma_computed(table: Seq<Seq<char>>, v: Valuation, a: Assignment, op: GateOp, args: Seq<Term>)
    requires
        numbered(table),
        forall|i: int| 0 <= i < args.len() ==> table.contains((#[trigger] args[i]).name),
        proper_arity(op, args.len()),
        like(table, v, a),
    ensures
        gate_value(op, term_lits(table, args), a) == computed(op, args, v),
{
    let lits = term_lits(table, args);
    assert forall|i: int| 0 <= i < args.len() implies #[trigger] lit_true(a, lits[i]) == holds(v, args[i]) by {
        lemma_term(table, v, a, args[i]);
    }
    match op {
        GateOp::And => {
            if cube_true(a, lits) {
                assert forall|i: int| 0 <= i < args.len() implies holds(v, #[trigger] args[i]) by {
                    assert(lit_true(a, lits[i]));
                }
            }
            if computed(op, args, v) {
                assert forall|i: int| 0 <= i < lits.len() implies lit_true(a, #[trigger] lits[i]) by {
                    assert(holds(v, args[i]));
                }
            }
        },
        GateOp::Or => {
            if clause_true(a, lits) {
                let i = choose|i: int| 0 <= i < lits.len() && lit_true(a, #[trigger] lits[i]);
                assert(holds(v, args[i]));
            }
            if computed(op, args, v) {
                let i = choose|i: int| 0 <= i < args.len() && holds(v, #[trigger] args[i]);
                assert(lit_true(a, lits[i]));
            }
        },
        GateOp::Xor => {
            assert(lit_true(a, lits[0]) == holds(v, args[0]));
            assert(lit_true(a, lits[1]) == holds(v, args[1]));
        },
        GateOp::Ite => {
            assert(lit_true(a, lits[0]) == holds(v, args[0]));
            assert(lit_true(a, lits[1]) == holds(v, args[1]));
            assert(lit_true(a, lits[2]) == holds(v, args[2]));
        },
    }
}

proof fn lemma_statement(table: Seq<Seq<char>>, v: Valuation, a: Assignment, statement: Statement)
    requires
        numbered(table),
        listed(table, statement),
        proper(statement),
        like(table, v, a),
    ensures
        matrix_true(a, statement_clauses(table, statement)) == gate_holds(statement, v),
{
    match statement {
        Statement::Gate(name, op, args) => {
            let names = mentioned(statement);
            assert(names[0] == name);
            assert forall|i: int| 0 <= i < args.len() implies table.contains((#[trigger] args[i]).name) by {
                assert(names[i + 1] == term_names(args)[i]);
            }
            lemma_computed(table, v, a, op, args);
            lemma_variable(table, name);
            let g = lit_of(variable(table, name), true);
            law_gate_clauses_are_the_gate(op, g, term_lits(table, args), a);
            assert(g.v() == variable(table, name) && g.pos());
        },
        _ => {},
    }
}

proof fn lemma_gates_hold(table: Seq<Seq<char>>, v: Valuation, a: Assignment, statements: Seq<Statement>)
    requires
        numbered(table),
        forall|i: int| 0 <= i < statements.len() ==> listed(table, #[trigger] statements[i]) && proper(statements[i]),
        like(table, v, a),
    ensures
        matrix_true(a, circuit_clauses(table, statements)) == gates_hold(statements, v),
    decreases statements.len(),
{
    if statements.len() > 0 {
        let few = statements.drop_last();
        let last = statements.last();
        assert forall|i: int| 0 <= i < few.len() implies listed(table, #[trigger] few[i]) && proper(few[i]) by {
            assert(few[i] == statements[i]);
        }
        lemma_gates_hold(table, v, a, few);
        assert(statements[statements.len() - 1] == last);
        lemma_statement(table, v, a, last);
        crate::incremental::lemma_concat_true(a, circuit_clauses(table, few), statement_clauses(table, last));
        if gates_hold(few, v) && gate_holds(last, v) {
            assert forall|i: int| 0 <= i < statements.len() implies gate_holds(#[trigger] statements[i], v) by {
                if i < few.len() {
                    assert(gate_holds(few[i], v));
                }
            }
        }
        if gates_hold(statements, v) {
            assert forall|i: int| 0 <= i < few.len() implies gate_holds(#[trigger] few[i], v) by {
                assert(gate_holds(statements[i], v));
            }
        }
    }
}

/// The output is that of its statement.
proof fn lemma_output(statements: Seq<Statement>)
    requires
        output_of(statements) is Some,
    ensures
        exists|i: int| 0 <= i < statements.len() && #[trigger] statements[i] == Statement::Output(output_of(statements)->0),
    decreases statements.len(),
{
    let n = statements.len() - 1;
    match statements.last() {
        Statement::Output(term) => {
            assert(statements[n] == Statement::Output(output_of(statements)->0));
        },
        _ => {
            let few = statements.drop_last();
            lemma_output(few);
            let i = choose|i: int| 0 <= i < few.len() && #[trigger] few[i] == Statement::Output(output_of(few)->0);
            assert(statements[i] == few[i]);
        },
    }
}

proof fn lemma_gates_of(statements: Seq<Statement>, name: Seq<char>)
    ensures
        gates_of(statements).contains(name) == defines(statements, name),
    decreases statements.len(),
{
    if statements.len() > 0 {
        let few = statements.drop_last();
        let last = statements.last();
        lemma_gates_of(few, name);
        if defines(few, name) {
            let i = choose|i: int| 0 <= i < few.len() && defines_it(#[trigger] few[i], name);
            assert(statements[i] == few[i]);
        }
        if defines(statements, name) {
            let i = choose|i: int| 0 <= i < statements.len() && defines_it(#[trigger] statements[i], name);
            if i < few.len() {
                assert(few[i] == statements[i]);
            }
        }
        match last {
            Statement::Gate(gate, op, args) => {
                crate::datastructure::lemma_push_contains(gates_of(few), gate, name);
                if gate == name {
                    assert(defines_it(statements[statements.len() - 1], name));
                }
            },
            _ => {},
        }
    }
}

/// The matrix of an instance that is not negated.
spec fn demanded(statements: Seq<Statement>) -> Matrix {
    let table = names_of(statements);
    circuit_clauses(table, statements).push(seq![output_lit(table, output_of(statements)->0)])
}

/// What is known of the statements of an instance.
spec fn instance(statements: Seq<Statement>) -> bool {
    &&& numbered(names_of(statements))
    &&& sound(statements)
    &&& output_of(statements) is Some
    &&& forall|i: int| 0 <= i < statements.len() ==> listed(names_of(statements), #[trigger] statements[i])
}

proof fn lemma_mentioned(statements: Seq<Statement>, i: int, k: int)
    requires
        0 <= i < statements.len(),
        0 <= k < mentioned(statements[i]).len(),
    ensures
        all_mentioned(statements).contains(mentioned(statements[i])[k]),
    decreases statements.len(),
{
    let few = statements.drop_last();
    let last = mentioned(statements.last());
    let before = all_mentioned(few);
    let name = mentioned(statements[i])[k];
    if i < few.len() {
        assert(few[i] == statements[i]);
        lemma_mentioned(few, i, k);
        let j = choose|j: int| 0 <= j < before.len() && before[j] == name;
        assert((before + last)[j] == name);
    } else {
        assert((before + last)[before.len() + k] == name);
    }
}

proof fn lemma_instance(ls: Seq<Seq<char>>, statements: Seq<Statement>)
    requires
        statements_of(ls, ls.len() as int) == Ok::<Seq<Statement>, (int, Seq<char>)>(statements),
        output_of(statements) is Some,
        names_of(statements).len() <= NAME_LIMIT,
    ensures
        instance(statements),
{
    lemma_sound(ls, ls.len() as int);
    lemma_distinct(all_mentioned(statements));
    let table = names_of(statements);
    assert forall|i: int| 0 <= i < statements.len() implies listed(table, #[trigger] statements[i]) by {
        assert forall|k: int| 0 <= k < mentioned(statements[i]).len() implies table.contains(#[trigger] mentioned(statements[i])[k]) by {
            lemma_mentioned(statements, i, k);
        }
    }
}

proof fn lemma_demanded(statements: Seq<Statement>, v: Valuation, a: Assignment)
    requires
        instance(statements),
        like(names_of(statements), v, a),
    ensures
        matrix_true(a, demanded(statements)) == (gates_hold(statements, v) && outputs_hold(statements, v)),
{
    let table = names_of(statements);
    let out = output_of(statements)->0;
    let m = circuit_clauses(table, statements);
    lemma_gates_hold(table, v, a, statements);
    lemma_output(statements);
    let i = choose|i: int| 0 <= i < statements.len() && #[trigger] statements[i] == Statement::Output(out);
    assert(listed(table, statements[i]));
    assert(mentioned(statements[i])[0] == out.name);
    lemma_term(table, v, a, out);
    crate::simplify::lemma_push_true(a, m, seq![output_lit(table, out)]);
    crate::aiger::qaiger::lemma_unit(a, output_lit(table, out));
    if holds(v, out) {
        assert forall|j: int| 0 <= j < statements.len() implies output_holds(#[trigger] statements[j], v) by {
            match statements[j] {
                Statement::Output(term) => {
                    assert(statements[i] is Output && statements[j] is Output);
                },
                _ => {},
            }
        }
    }
    if outputs_hold(statements, v) {
        assert(output_holds(statements[i], v));
    }
}

/// A move on names is a move on variables.
spec fn moved(table: Seq<Seq<char>>, a: Assignment, w: Valuation, names: Seq<Seq<char>>) -> Assignment {
    |x: Var|
        if variables(table, names).contains(x) && 0 <= x.id() < table.len() {
            w(table[x.id()])
        } else {
            a(x)
        }
}

/// A move on variables is a move on names.
spec fn played(table: Seq<Seq<char>>, v: Valuation, b: Assignment, names: Seq<Seq<char>>) -> Valuation {
    |name: Seq<char>|
        if names.contains(name) {
            b(variable(table, name))
        } else {
            v(name)
        }
}

proof fn lemma_moved(table: Seq<Seq<char>>, v: Valuation, a: Assignment, w: Valuation, names: Seq<Seq<char>>)
    requires
        numbered(table),
        like(table, v, a),
        same_off(v, w, names),
        forall|i: int| 0 <= i < names.len() ==> table.contains(#[trigger] names[i]),
    ensures
        like(table, w, moved(table, a, w, names)),
        agree_off(a, moved(table, a, w, names), variables(table, names)),
{
    let b = moved(table, a, w, names);
    assert forall|name: Seq<char>| #[trigger] table.contains(name) implies w(name) == b(variable(table, name)) by {
        lemma_variable(table, name);
        lemma_variables(table, names, name);
        if !names.contains(name) {
            assert(v(name) == w(name));
        }
    }
}

proof fn lemma_played(table: Seq<Seq<char>>, v: Valuation, a: Assignment, b: Assignment, names: Seq<Seq<char>>)
    requires
        numbered(table),
        like(table, v, a),
        agree_off(a, b, variables(table, names)),
        forall|i: int| 0 <= i < names.len() ==> table.contains(#[trigger] names[i]),
    ensures
        like(table, played(table, v, b, names), b),
        same_off(v, played(table, v, b, names), names),
{
    let w = played(table, v, b, names);
    assert forall|name: Seq<char>| #[trigger] table.contains(name) implies w(name) == b(variable(table, name)) by {
        lemma_variables(table, names, name);
        if !names.contains(name) {
            assert(a(variable(table, name)) == b(variable(table, name)));
        }
    }
}

/// The declared blocks from a statement on, unmerged.
spec fn blocks_from(statements: Seq<Statement>, table: Seq<Seq<char>>, from: int) -> Prefix
    decreases statements.len() - from,
{
    if from >= statements.len() || from < 0 {
        Seq::empty()
    } else {
        match statements[from] {
            Statement::Block(q, names) => with_block(q, variables(table, names), blocks_from(statements, table, from + 1)),
            _ => blocks_from(statements, table, from + 1),
        }
    }
}

/// Playing on names is playing on variables.
#[verifier::rlimit(40)]
proof fn lemma_won(statements: Seq<Statement>, from: int, v: Valuation, a: Assignment)
    requires
        instance(statements),
        0 <= from <= statements.len(),
        like(names_of(statements), v, a),
    ensures
        won(statements, from, v) == qbf(
            blocks_from(statements, names_of(statements), from) + seq![(QuantTy::Exists, variables(names_of(statements), gates_of(statements)))],
            demanded(statements),
            a,
        ),
    decreases statements.len() - from,
{
    let table = names_of(statements);
    let m = demanded(statements);
    let gates = gates_of(statements);
    let end = seq![(QuantTy::Exists, variables(table, gates))];
    let p = blocks_from(statements, table, from) + end;
    if from == statements.len() {
        let none: Prefix = Seq::empty();
        assert(p =~= with_block(QuantTy::Exists, variables(table, gates), none));
        lemma_exists_block(variables(table, gates), none, m, a);
        assert forall|i: int| 0 <= i < gates.len() implies table.contains(#[trigger] gates[i]) by {
            assert(gates.contains(gates[i]));
            lemma_gates_of(statements, gates[i]);
            let k = choose|k: int| 0 <= k < statements.len() && defines_it(#[trigger] statements[k], gates[i]);
            assert(listed(table, statements[k]));
            assert(mentioned(statements[k])[0] == gates[i]);
        }
        if won(statements, from, v) {
            let w = choose|w: Valuation| #[trigger] evaluates(statements, v, w) && outputs_hold(statements, w);
            assert forall|name: Seq<char>| !gates.contains(name) implies v(name) == #[trigger] w(name) by {
                lemma_gates_of(statements, name);
            }
            lemma_moved(table, v, a, w, gates);
            let b = moved(table, a, w, gates);
            lemma_demanded(statements, w, b);
            assert(qbf(none, m, b));
        }
        if qbf(p, m, a) {
            let b = choose|b: Assignment| #[trigger] agree_off(a, b, variables(table, gates)) && qbf(none, m, b);
            lemma_played(table, v, a, b, gates);
            let w = played(table, v, b, gates);
            lemma_demanded(statements, w, b);
            assert forall|name: Seq<char>| !defines(statements, name) implies #[trigger] w(name) == v(name) by {
                lemma_gates_of(statements, name);
            }
            assert(evaluates(statements, v, w));
        }
    } else {
        let rest = blocks_from(statements, table, from + 1) + end;
        match statements[from] {
            Statement::Block(q, names) => {
                let vs = variables(table, names);
                assert(p =~= with_block(q, vs, rest));
                assert(listed(table, statements[from]));
                assert forall|i: int| 0 <= i < names.len() implies table.contains(#[trigger] names[i]) by {
                    assert(mentioned(statements[from])[i] == names[i]);
                }
                assert forall|w: Valuation| #[trigger] same_off(v, w, names) implies agree_off(a, moved(table, a, w, names), vs) && won(
                    statements,
                    from + 1,
                    w,
                ) == qbf(rest, m, moved(table, a, w, names)) by {
                    lemma_moved(table, v, a, w, names);
                    lemma_won(statements, from + 1, w, moved(table, a, w, names));
                }
                assert forall|b: Assignment| #[trigger] agree_off(a, b, vs) implies same_off(v, played(table, v, b, names), names) && won(
                    statements,
                    from + 1,
                    played(table, v, b, names),
                ) == qbf(rest, m, b) by {
                    lemma_played(table, v, a, b, names);
                    lemma_won(statements, from + 1, played(table, v, b, names), b);
                }
                match q {
                    QuantTy::Exists => {
                        lemma_exists_block(vs, rest, m, a);
                        if won(statements, from, v) {
                            let w = choose|w: Valuation| #[trigger] same_off(v, w, names) && won(statements, from + 1, w);
                            assert(agree_off(a, moved(table, a, w, names), vs));
                        }
                        if qbf(p, m, a) {
                            let b = choose|b: Assignment| #[trigger] agree_off(a, b, vs) && qbf(rest, m, b);
                            assert(same_off(v, played(table, v, b, names), names));
                        }
                    },
                    QuantTy::Forall => {
                        lemma_forall_block(vs, rest, m, a);
                        if won(statements, from, v) {
                            assert forall|b: Assignment| #[trigger] agree_off(a, b, vs) implies qbf(rest, m, b) by {
                                assert(same_off(v, played(table, v, b, names), names));
                            }
                        }
                        if qbf(p, m, a) {
                            assert forall|w: Valuation| #[trigger] same_off(v, w, names) implies won(statements, from + 1, w) by {
                                assert(agree_off(a, moved(table, a, w, names), vs));
                            }
                        }
                    },
                }
            },
            _ => {
                lemma_won(statements, from + 1, v, a);
            },
        }
    }
}

/// Appending a declaration does not change what is played.
proof fn lemma_declared_qbf(
    table: Seq<Seq<char>>,
    blocks: Seq<(QuantTy, Seq<Seq<char>>)>,
    q: QuantTy,
    list: Seq<Seq<char>>,
    t: Prefix,
    m: Matrix,
    a: Assignment,
)
    ensures
        qbf(mapped(table, with_declared(blocks, q, list)) + t, m, a) == qbf(
            mapped(table, blocks) + with_block(q, variables(table, list), t),
            m,
            a,
        ),
{
    let p = mapped(table, blocks);
    let vs = variables(table, list);
    lemma_mapped_declared(table, blocks, q, list);
    if blocks.len() > 0 && p.last().0 == q {
        lemma_push_block_qbf(p, q, vs, t, m, a);
        let joined = p.drop_last().push((q, p.last().1 + vs));
        if vs.len() == 0 {
            assert(p.last().1 + vs =~= p.last().1);
            assert(joined =~= p);
        }
        assert(joined == push_block(p, q, vs));
    } else {
        assert(p.push((q, vs)) + t =~= p + with_block(q, vs, t));
    }
}

/// The declared blocks of the first statements, unmerged.
spec fn blocks_before(statements: Seq<Statement>, table: Seq<Seq<char>>, count: int) -> Prefix
    decreases count,
{
    if count <= 0 {
        Seq::empty()
    } else {
        match statements[count - 1] {
            Statement::Block(q, names) => blocks_before(statements, table, count - 1).push((q, variables(table, names))),
            _ => blocks_before(statements, table, count - 1),
        }
    }
}

proof fn lemma_all_blocks(statements: Seq<Statement>, table: Seq<Seq<char>>, k: int)
    requires
        0 <= k <= statements.len(),
    ensures
        blocks_before(statements, table, k) + blocks_from(statements, table, k) == blocks_from(statements, table, 0),
    decreases k,
{
    if k == 0 {
        assert(blocks_before(statements, table, 0) + blocks_from(statements, table, 0) =~= blocks_from(statements, table, 0));
    } else {
        lemma_all_blocks(statements, table, k - 1);
        assert(blocks_before(statements, table, k) + blocks_from(statements, table, k) =~= blocks_before(statements, table, k - 1)
            + blocks_from(statements, table, k - 1));
    }
}

proof fn lemma_merged_blocks(statements: Seq<Statement>, table: Seq<Seq<char>>, count: int, t: Prefix, m: Matrix, a: Assignment)
    requires
        0 <= count <= statements.len(),
    ensures
        qbf(mapped(table, merged(statements.take(count))) + t, m, a) == qbf(blocks_before(statements, table, count) + t, m, a),
    decreases count,
{
    if count == 0 {
        assert(mapped(table, merged(statements.take(0))) =~= Seq::empty());
    } else {
        let part = statements.take(count);
        assert(part.drop_last() =~= statements.take(count - 1));
        assert(part.last() == statements[count - 1]);
        match statements[count - 1] {
            Statement::Block(q, names) => {
                let next = with_block(q, variables(table, names), t);
                lemma_declared_qbf(table, merged(statements.take(count - 1)), q, names, t, m, a);
                lemma_merged_blocks(statements, table, count - 1, next, m, a);
                assert(blocks_before(statements, table, count) + t =~= blocks_before(statements, table, count - 1) + next);
            },
            _ => {
                lemma_merged_blocks(statements, table, count - 1, t, m, a);
            },
        }
    }
}

/// Choosing variables first, or leaving them free, is the same.
proof fn lemma_free_block(vs: Seq<Var>, p: Prefix, m: Matrix)
    ensures
        formula_true(with_block(QuantTy::Exists, vs, p), m) == formula_true(p, m),
{
    let all = with_block(QuantTy::Exists, vs, p);
    if formula_true(all, m) {
        let a = choose|a: Assignment| #[trigger] qbf(all, m, a);
        lemma_exists_block(vs, p, m, a);
        let b = choose|b: Assignment| #[trigger] agree_off(a, b, vs) && qbf(p, m, b);
        assert(qbf(p, m, b));
    }
    if formula_true(p, m) {
        let a = choose|a: Assignment| #[trigger] qbf(p, m, a);
        lemma_exists_block(vs, p, m, a);
        assert(agree_off(a, a, vs));
        assert(qbf(all, m, a));
    }
}

proof fn lemma_with_free(table: Seq<Seq<char>>, blocks: Seq<(QuantTy, Seq<Seq<char>>)>, free: Seq<Seq<char>>, t: Prefix, m: Matrix)
    ensures
        formula_true(mapped(table, with_free(blocks, free)) + t, m) == formula_true(mapped(table, blocks) + t, m),
{
    let p = mapped(table, blocks) + t;
    let vs = variables(table, free);
    if free.len() == 0 {
    } else if blocks.len() > 0 && blocks[0].0 == QuantTy::Exists {
        let xs = variables(table, blocks[0].1);
        let rest = p.drop_first();
        assert(variables(table, free + blocks[0].1) =~= vs + xs);
        assert(mapped(table, with_free(blocks, free)) + t =~= with_block(QuantTy::Exists, vs + xs, rest));
        assert(p =~= with_block(QuantTy::Exists, xs, rest));
        let joined = with_block(QuantTy::Exists, vs + xs, rest);
        let two = with_block(QuantTy::Exists, vs, p);
        assert forall|a: Assignment| #[trigger] qbf(joined, m, a) == qbf(two, m, a) by {
            crate::semantics::lemma_merge_blocks(QuantTy::Exists, vs, xs, rest, m, a);
        }
        lemma_free_block(vs, p, m);
        if formula_true(joined, m) {
            let a = choose|a: Assignment| #[trigger] qbf(joined, m, a);
            assert(qbf(two, m, a));
        }
        if formula_true(two, m) {
            let a = choose|a: Assignment| #[trigger] qbf(two, m, a);
            assert(qbf(joined, m, a));
        }
    } else {
        assert(mapped(table, with_free(blocks, free)) + t =~= with_block(QuantTy::Exists, vs, p));
        lemma_free_block(vs, p, m);
    }
}

/// The instance is true iff its blocks, with the gates innermost, are.
proof fn lemma_instance_true(statements: Seq<Statement>)
    requires
        instance(statements),
    ensures
        instance_true(statements) == formula_true(
            mapped(names_of(statements), instance_blocks(statements)) + seq![
                (QuantTy::Exists, variables(names_of(statements), gates_of(statements))),
            ],
            demanded(statements),
        ),
{
    let table = names_of(statements);
    let m = demanded(statements);
    let end = seq![(QuantTy::Exists, variables(table, gates_of(statements)))];
    let raw = blocks_from(statements, table, 0) + end;
    let plain = mapped(table, merged(statements)) + end;
    lemma_with_free(table, merged(statements), free_of(statements, table, table.len() as int), end, m);
    let n = statements.len() as int;
    lemma_all_blocks(statements, table, n);
    assert(statements.take(n) =~= statements);
    assert(blocks_before(statements, table, n) =~= blocks_from(statements, table, 0)) by {
        assert(blocks_from(statements, table, n) =~= Seq::empty());
        assert(blocks_before(statements, table, n) + blocks_from(statements, table, n) =~= blocks_before(statements, table, n));
    }
    assert forall|a: Assignment| #[trigger] qbf(plain, m, a) == qbf(raw, m, a) by {
        lemma_merged_blocks(statements, table, n, end, m, a);
    }
    if instance_true(statements) {
        let v = choose|v: Valuation| #[trigger] won(statements, 0, v);
        let a = |x: Var|
            if 0 <= x.id() < table.len() {
                v(table[x.id()])
            } else {
                false
            };
        assert forall|name: Seq<char>| #[trigger] table.contains(name) implies v(name) == a(variable(table, name)) by {
            lemma_variable(table, name);
        }
        lemma_won(statements, 0, v, a);
        assert(qbf(plain, m, a));
    }
    if formula_true(plain, m) {
        let a = choose|a: Assignment| #[trigger] qbf(plain, m, a);
        let v = |name: Seq<char>| a(variable(table, name));
        lemma_won(statements, 0, v, a);
        assert(won(statements, 0, v));
    }
}

/// What a name has if it is a gate of the statements, under the values of
/// its arguments.
spec fn next_value(statements: Seq<Statement>, name: Seq<char>, v: Valuation) -> bool {
    let i = choose|i: int| 0 <= i < statements.len() && defines_it(#[trigger] statements[i], name);
    match statements[i] {
        Statement::Gate(gate, op, args) => computed(op, args, v),
        _ => false,
    }
}

/// The values after as many rounds of evaluating every gate.
spec fn stage(statements: Seq<Statement>, v: Valuation, rounds: nat) -> Valuation
    decreases rounds,
{
    if rounds == 0 {
        v
    } else {
        let before = stage(statements, v, (rounds - 1) as nat);
        |name: Seq<char>|
            if defines(statements, name) {
                next_value(statements, name, before)
            } else {
                v(name)
            }
    }
}

proof fn lemma_stage_input(statements: Seq<Statement>, v: Valuation, rounds: nat, name: Seq<char>)
    requires
        !defines(statements, name),
    ensures
        stage(statements, v, rounds)(name) == v(name),
{
}

proof fn lemma_same_computed(op: GateOp, args: Seq<Term>, v: Valuation, w: Valuation)
    requires
        forall|k: int| 0 <= k < args.len() ==> v((#[trigger] args[k]).name) == w(args[k].name),
        proper_arity(op, args.len()),
    ensures
        computed(op, args, v) == computed(op, args, w),
{
    assert forall|k: int| 0 <= k < args.len() implies #[trigger] holds(v, args[k]) == holds(w, args[k]) by {}
    match op {
        GateOp::And => {
            if computed(op, args, v) {
                assert forall|k: int| 0 <= k < args.len() implies holds(w, #[trigger] args[k]) by {
                    assert(holds(v, args[k]));
                }
            }
            if computed(op, args, w) {
                assert forall|k: int| 0 <= k < args.len() implies holds(v, #[trigger] args[k]) by {
                    assert(holds(w, args[k]));
                }
            }
        },
        GateOp::Or => {
            if computed(op, args, v) {
                let k = choose|k: int| 0 <= k < args.len() && holds(v, #[trigger] args[k]);
                assert(holds(w, args[k]));
            }
            if computed(op, args, w) {
                let k = choose|k: int| 0 <= k < args.len() && holds(w, #[trigger] args[k]);
                assert(holds(v, args[k]));
            }
        },
        _ => {
            assert(holds(v, args[0]) == holds(w, args[0]));
            assert(holds(v, args[1]) == holds(w, args[1]));
            if args.len() > 2 {
                assert(holds(v, args[2]) == holds(w, args[2]));
            }
        },
    }
}

/// A gate keeps its value once the gates below it have theirs.
proof fn lemma_stable(statements: Seq<Statement>, rank: spec_fn(Seq<char>) -> nat, v: Valuation, rounds: nat, name: Seq<char>)
    requires
        sound(statements),
        ranked(statements, rank),
        rank(name) < rounds,
    ensures
        stage(statements, v, rounds)(name) == stage(statements, v, rounds + 1)(name),
    decreases rounds,
{
    if defines(statements, name) {
        let i = choose|i: int| 0 <= i < statements.len() && defines_it(#[trigger] statements[i], name);
        let (before, after) = (stage(statements, v, (rounds - 1) as nat), stage(statements, v, rounds));
        match statements[i] {
            Statement::Gate(gate, op, args) => {
                assert(proper(statements[i]));
                assert(lower_args(statements, statements[i], rank));
                assert forall|k: int| 0 <= k < args.len() implies before((#[trigger] args[k]).name) == after(args[k].name) by {
                    if defines(statements, args[k].name) {
                        lemma_stable(statements, rank, v, (rounds - 1) as nat, args[k].name);
                    }
                }
                lemma_same_computed(op, args, before, after);
            },
            _ => {},
        }
    }
}

proof fn lemma_stable_up(statements: Seq<Statement>, rank: spec_fn(Seq<char>) -> nat, v: Valuation, from: nat, to: nat, name: Seq<char>)
    requires
        sound(statements),
        ranked(statements, rank),
        rank(name) < from <= to,
    ensures
        stage(statements, v, from)(name) == stage(statements, v, to)(name),
    decreases to - from,
{
    if from < to {
        lemma_stable_up(statements, rank, v, from, (to - 1) as nat, name);
        lemma_stable(statements, rank, v, (to - 1) as nat, name);
    }
}

/// The gates of an instance in which none depends on itself have values.
proof fn lemma_evaluated(statements: Seq<Statement>, rank: spec_fn(Seq<char>) -> nat, v: Valuation) -> (w: Valuation)
    requires
        sound(statements),
        ranked(statements, rank),
    ensures
        evaluates(statements, v, w),
{
    let w = |name: Seq<char>| stage(statements, v, rank(name) + 1)(name);
    assert forall|i: int| 0 <= i < statements.len() implies gate_holds(#[trigger] statements[i], w) by {
        match statements[i] {
            Statement::Gate(name, op, args) => {
                let r = rank(name);
                let before = stage(statements, v, r);
                assert(defines_it(statements[i], name));
                assert(defines(statements, name));
                let j = choose|j: int| 0 <= j < statements.len() && defines_it(#[trigger] statements[j], name);
                assert(same_gate(statements[i], statements[j]));
                assert(w(name) == computed(op, args, before));
                assert(proper(statements[i]));
                assert(lower_args(statements, statements[i], rank));
                assert forall|k: int| 0 <= k < args.len() implies before((#[trigger] args[k]).name) == w(args[k].name) by {
                    if defines(statements, args[k].name) {
                        lemma_stable_up(statements, rank, v, rank(args[k].name) + 1, r, args[k].name);
                    } else {
                        lemma_stage_input(statements, v, r, args[k].name);
                        lemma_stage_input(statements, v, rank(args[k].name) + 1, args[k].name);
                    }
                }
                lemma_same_computed(op, args, before, w);
            },
            _ => {},
        }
    }
    assert forall|name: Seq<char>| !defines(statements, name) implies #[trigger] w(name) == v(name) by {
        lemma_stage_input(statements, v, rank(name) + 1, name);
    }
    w
}

/// The values of gates are determined.
proof fn lemma_same_gates(
    statements: Seq<Statement>,
    rank: spec_fn(Seq<char>) -> nat,
    table: Seq<Seq<char>>,
    v: Valuation,
    w: Valuation,
    name: Seq<char>,
)
    requires
        sound(statements),
        ranked(statements, rank),
        gates_hold(statements, v),
        gates_hold(statements, w),
        forall|i: int| 0 <= i < statements.len() ==> listed(table, #[trigger] statements[i]),
        forall|other: Seq<char>| table.contains(other) && !defines(statements, other) ==> #[trigger] v(other) == w(other),
        defines(statements, name),
    ensures
        v(name) == w(name),
    decreases rank(name),
{
    let i = choose|i: int| 0 <= i < statements.len() && defines_it(#[trigger] statements[i], name);
    match statements[i] {
        Statement::Gate(gate, op, args) => {
            assert(proper(statements[i]));
            assert(lower_args(statements, statements[i], rank));
            assert(listed(table, statements[i]));
            assert forall|k: int| 0 <= k < args.len() implies v((#[trigger] args[k]).name) == w(args[k].name) by {
                assert(mentioned(statements[i])[k + 1] == term_names(args)[k]);
                if defines(statements, args[k].name) {
                    lemma_same_gates(statements, rank, table, v, w, args[k].name);
                }
            }
            lemma_same_computed(op, args, v, w);
            assert(gate_holds(statements[i], v) && gate_holds(statements[i], w));
        },
        _ => {},
    }
}

proof fn lemma_gates_listed(statements: Seq<Statement>)
    requires
        instance(statements),
    ensures
        forall|i: int| 0 <= i < gates_of(statements).len() ==> names_of(statements).contains(#[trigger] gates_of(statements)[i]),
{
    let table = names_of(statements);
    let gates = gates_of(statements);
    assert forall|i: int| 0 <= i < gates.len() implies table.contains(#[trigger] gates[i]) by {
        assert(gates.contains(gates[i]));
        lemma_gates_of(statements, gates[i]);
        let k = choose|k: int| 0 <= k < statements.len() && defines_it(#[trigger] statements[k], gates[i]);
        assert(listed(table, statements[k]));
        assert(mentioned(statements[k])[0] == gates[i]);
    }
}

/// The inputs determine the gates of an instance in which none depends on
/// itself.
proof fn lemma_functional(statements: Seq<Statement>)
    requires
        instance(statements),
        acyclic(statements),
    ensures
        functional(variables(names_of(statements), gates_of(statements)), circuit_clauses(names_of(statements), statements)),
{
    let table = names_of(statements);
    let gates = gates_of(statements);
    let vs = variables(table, gates);
    let m = circuit_clauses(table, statements);
    let rank = choose|rank: spec_fn(Seq<char>) -> nat| #[trigger] ranked(statements, rank);
    lemma_gates_listed(statements);
    assert forall|a: Assignment| #[trigger] has_values(vs, m, a) by {
        let v = |name: Seq<char>| a(variable(table, name));
        assert(like(table, v, a));
        let w = lemma_evaluated(statements, rank, v);
        assert forall|name: Seq<char>| !gates.contains(name) implies v(name) == #[trigger] w(name) by {
            lemma_gates_of(statements, name);
        }
        lemma_moved(table, v, a, w, gates);
        lemma_gates_hold(table, w, moved(table, a, w, gates), statements);
        assert(agree_off(a, moved(table, a, w, gates), vs));
    }
    assert forall|a: Assignment, b: Assignment|
        #[trigger] matrix_true(a, m) && #[trigger] matrix_true(b, m) && agree_off(a, b, vs) implies forall|x: Var|
        vs.contains(x) ==> #[trigger] a(x) == b(x) by {
        let v = |name: Seq<char>| a(variable(table, name));
        let w = |name: Seq<char>| b(variable(table, name));
        assert(like(table, v, a) && like(table, w, b));
        lemma_gates_hold(table, v, a, statements);
        lemma_gates_hold(table, w, b, statements);
        assert forall|other: Seq<char>| table.contains(other) && !defines(statements, other) implies #[trigger] v(other) == w(other) by {
            lemma_gates_of(statements, other);
            lemma_variables(table, gates, other);
        }
        assert forall|x: Var| vs.contains(x) implies #[trigger] a(x) == b(x) by {
            let i = choose|i: int| 0 <= i < vs.len() && vs[i] == x;
            assert(gates.contains(gates[i]));
            lemma_gates_of(statements, gates[i]);
            lemma_same_gates(statements, rank, table, v, w, gates[i]);
            assert(v(gates[i]) == a(x));
        }
    }
}

/// The clauses of a gate mention it and its arguments.
proof fn lemma_gate_mentions(op: GateOp, g: Lit, args: Seq<Lit>, x: Var)
    requires
        proper_arity(op, args.len()),
        mentions(gate_clauses(op, g, args), x),
    ensures
        x == g.v() || exists|k: int| 0 <= k < args.len() && (#[trigger] args[k]).v() == x,
{
    let m = gate_clauses(op, g, args);
    let i = choose|i: int| 0 <= i < m.len() && clause_mentions(#[trigger] m[i], x);
    let c = m[i];
    let j = choose|j: int| 0 <= j < c.len() && (#[trigger] c[j]).v() == x;
    let n = args.len() as int;
    match op {
        GateOp::And => {
            if i < n {
                assert(c == seq![g.neg(), args[i]]);
                assert(j == 0 || args[i].v() == x);
            } else {
                assert(c == seq![g] + negations(args));
                if j > 0 {
                    assert(c[j] == args[j - 1].neg());
                    assert(args[j - 1].v() == x);
                }
            }
        },
        GateOp::Or => {
            if i < n {
                assert(c == seq![g, args[i].neg()]);
                assert(j == 0 || args[i].v() == x);
            } else {
                assert(c == seq![g.neg()] + args);
                if j > 0 {
                    assert(c[j] == args[j - 1]);
                }
            }
        },
        GateOp::Xor => {
            assert(j == 0 || args[0].v() == x || args[1].v() == x);
        },
        GateOp::Ite => {
            assert(j == 0 || args[0].v() == x || args[1].v() == x || args[2].v() == x);
        },
    }
}

/// The clauses of a circuit mention variables of names only.
proof fn lemma_clause_names(table: Seq<Seq<char>>, statements: Seq<Statement>, x: Var)
    requires
        numbered(table),
        forall|i: int| 0 <= i < statements.len() ==> listed(table, #[trigger] statements[i]) && proper(statements[i]),
        mentions(circuit_clauses(table, statements), x),
    ensures
        exists|name: Seq<char>| #[trigger] table.contains(name) && x == variable(table, name),
    decreases statements.len(),
{
    let few = statements.drop_last();
    let last = statements.last();
    let (first, second) = (circuit_clauses(table, few), statement_clauses(table, last));
    let all = circuit_clauses(table, statements);
    let i = choose|i: int| 0 <= i < all.len() && clause_mentions(#[trigger] all[i], x);
    assert(statements[statements.len() - 1] == last);
    if i < first.len() {
        assert(first[i] == all[i]);
        assert(mentions(first, x));
        assert forall|i: int| 0 <= i < few.len() implies listed(table, #[trigger] few[i]) && proper(few[i]) by {
            assert(few[i] == statements[i]);
        }
        lemma_clause_names(table, few, x);
    } else {
        assert(second[i - first.len()] == all[i]);
        assert(mentions(second, x));
        match last {
            Statement::Gate(name, op, args) => {
                assert(listed(table, last));
                let names = mentioned(last);
                assert(names[0] == name);
                lemma_variable(table, name);
                let g = lit_of(variable(table, name), true);
                let lits = term_lits(table, args);
                lemma_gate_mentions(op, g, lits, x);
                if x != g.v() {
                    let k = choose|k: int| 0 <= k < lits.len() && (#[trigger] lits[k]).v() == x;
                    assert(names[k + 1] == term_names(args)[k]);
                    assert(table.contains(args[k].name));
                    lemma_variable(table, args[k].name);
                    assert(lits[k] == lit_of(variable(table, args[k].name), args[k].positive));
                }
            },
            _ => {},
        }
    }
}

/// Some block has the name.
spec fn in_blocks(blocks: Seq<(QuantTy, Seq<Seq<char>>)>, name: Seq<char>) -> bool {
    exists|j: int| 0 <= j < blocks.len() && (#[trigger] blocks[j]).1.contains(name)
}

/// Adjacent blocks have different quantifiers.
spec fn alternates(blocks: Seq<(QuantTy, Seq<Seq<char>>)>) -> bool {
    forall|j: int| 0 <= j < blocks.len() - 1 ==> (#[trigger] blocks[j]).0 != blocks[j + 1].0
}

proof fn lemma_concat_name(left: Seq<Seq<char>>, right: Seq<Seq<char>>, name: Seq<char>)
    ensures
        (left + right).contains(name) == (left.contains(name) || right.contains(name)),
{
    if left.contains(name) {
        let i = choose|i: int| 0 <= i < left.len() && left[i] == name;
        assert((left + right)[i] == name);
    }
    if right.contains(name) {
        let i = choose|i: int| 0 <= i < right.len() && right[i] == name;
        assert((left + right)[left.len() + i] == name);
    }
}

#[verifier::rlimit(40)]
proof fn lemma_merged_names(statements: Seq<Statement>)
    ensures
        alternates(merged(statements)),
        forall|name: Seq<char>| introduced(statements, name) && !defines(statements, name) ==> #[trigger] in_blocks(merged(statements), name),
    decreases statements.len(),
{
    if statements.len() > 0 {
        let few = statements.drop_last();
        let last = statements.last();
        let before = merged(few);
        let after = merged(statements);
        lemma_merged_names(few);
        assert forall|j: int| 0 <= j < after.len() - 1 implies (#[trigger] after[j]).0 != after[j + 1].0 by {
            match last {
                Statement::Block(q, names) => {
                    if before.len() > 0 && before.last().0 == q {
                        assert(after[j].0 == before[j].0 && after[j + 1].0 == before[j + 1].0);
                    } else if j + 1 < before.len() {
                        assert(after[j] == before[j] && after[j + 1] == before[j + 1]);
                    } else {
                        assert(after[j] == before.last());
                    }
                },
                _ => {},
            }
        }
        assert forall|name: Seq<char>| introduced(statements, name) && !defines(statements, name) implies #[trigger] in_blocks(after, name) by {
            let i = choose|i: int| 0 <= i < statements.len() && introduces(#[trigger] statements[i], name);
            if i < few.len() {
                assert(few[i] == statements[i]);
                assert(introduced(few, name));
                assert(!defines(few, name)) by {
                    if defines(few, name) {
                        let k = choose|k: int| 0 <= k < few.len() && defines_it(#[trigger] few[k], name);
                        assert(statements[k] == few[k]);
                    }
                }
                assert(in_blocks(before, name));
                let j = choose|j: int| 0 <= j < before.len() && (#[trigger] before[j]).1.contains(name);
                match last {
                    Statement::Block(q, names) => {
                        if before.len() > 0 && before.last().0 == q && j == before.len() - 1 {
                            lemma_concat_name(before.last().1, names, name);
                            assert(after[j].1 == before.last().1 + names);
                        } else {
                            assert(after[j] == before[j]);
                        }
                    },
                    _ => {},
                }
            } else {
                match last {
                    Statement::Block(q, names) => {
                        if before.len() > 0 && before.last().0 == q {
                            lemma_concat_name(before.last().1, names, name);
                            assert(after[before.len() - 1].1 == before.last().1 + names);
                        } else {
                            assert(after[before.len() as int].1 == names);
                        }
                    },
                    Statement::Gate(gate, op, args) => {
                        assert(defines_it(statements[i], name));
                    },
                    _ => {},
                }
            }
        }
    }
}

proof fn lemma_free_names(statements: Seq<Statement>, names: Seq<Seq<char>>, count: int, k: int)
    requires
        0 <= k < count <= names.len(),
        !introduced(statements, names[k]),
    ensures
        free_of(statements, names, count).contains(names[k]),
    decreases count,
{
    let before = free_of(statements, names, count - 1);
    if k == count - 1 {
        assert(before.push(names[k])[before.len() as int] == names[k]);
    } else {
        lemma_free_names(statements, names, count - 1, k);
        let j = choose|j: int| 0 <= j < before.len() && before[j] == names[k];
        if !introduced(statements, names[count - 1]) {
            assert(before.push(names[count - 1])[j] == names[k]);
        }
    }
}

/// Every name is a gate or in a block, and the blocks alternate.
proof fn lemma_instance_names(statements: Seq<Statement>)
    ensures
        alternates(instance_blocks(statements)),
        forall|name: Seq<char>| #[trigger] names_of(statements).contains(name) ==> defines(statements, name) || in_blocks(
            instance_blocks(statements),
            name,
        ),
{
    let table = names_of(statements);
    let blocks = merged(statements);
    let free = free_of(statements, table, table.len() as int);
    let all = with_free(blocks, free);
    lemma_merged_names(statements);
    assert forall|j: int| 0 <= j < all.len() - 1 implies (#[trigger] all[j]).0 != all[j + 1].0 by {
        if free.len() == 0 {
            assert(blocks[j].0 != blocks[j + 1].0);
        } else if blocks.len() > 0 && blocks[0].0 == QuantTy::Exists {
            assert(blocks[j].0 != blocks[j + 1].0);
        } else if j > 0 {
            assert(blocks[j - 1].0 != blocks[j].0);
        }
    }
    assert forall|name: Seq<char>| #[trigger] table.contains(name) implies defines(statements, name) || in_blocks(all, name) by {
        if introduced(statements, name) {
            if !defines(statements, name) {
                assert(in_blocks(blocks, name));
                let j = choose|j: int| 0 <= j < blocks.len() && (#[trigger] blocks[j]).1.contains(name);
                if free.len() == 0 {
                    assert(all[j] == blocks[j]);
                } else if blocks[0].0 == QuantTy::Exists {
                    if j == 0 {
                        lemma_concat_name(free, blocks[0].1, name);
                        assert(all[0].1 == free + blocks[0].1);
                    } else {
                        assert(all[j] == blocks[j]);
                    }
                } else {
                    assert(all[j + 1] == blocks[j]);
                }
            }
        } else {
            let k = choose|k: int| 0 <= k < table.len() && table[k] == name;
            lemma_free_names(statements, table, table.len() as int, k);
            assert(free.len() > 0);
            if blocks.len() > 0 && blocks[0].0 == QuantTy::Exists {
                lemma_concat_name(free, blocks[0].1, name);
                assert(all[0].1 == free + blocks[0].1);
            } else {
                assert(all[0].1 == free);
            }
        }
    }
}

/// The dual of a negated instance.
#[verifier::rlimit(40)]
proof fn lemma_negated(statements: Seq<Statement>)
    requires
        instance(statements),
        is_negated(statements),
        acyclic(statements),
    ensures
        formula_true(formula_blocks(statements), formula_clauses(statements)) == !instance_true(statements),
{
    let table = names_of(statements);
    let blocks = instance_blocks(statements);
    let gates = gates_of(statements);
    let m = circuit_clauses(table, statements);
    let out = output_lit(table, output_of(statements)->0);
    let (outer, inner, last) = (variables(table, blocks[0].1), variables(table, blocks[1].1), variables(table, gates));
    lemma_instance_true(statements);
    lemma_instance_names(statements);
    assert(blocks[0].0 != blocks[1].0);
    assert(mapped(table, blocks) + seq![(QuantTy::Exists, last)] =~= seq![
        (QuantTy::Exists, outer),
        (QuantTy::Forall, inner),
        (QuantTy::Exists, last),
    ]);
    lemma_mapped_declared(table, flipped(blocks), QuantTy::Exists, gates);
    let dual = mapped(table, flipped(blocks));
    assert(dual =~= seq![(QuantTy::Forall, outer), (QuantTy::Exists, inner)]);
    assert(formula_blocks(statements) =~= seq![(QuantTy::Forall, outer), (QuantTy::Exists, inner + last)]);
    lemma_functional(statements);
    lemma_output(statements);
    assert forall|x: Var| #[trigger] mentions(m, x) || x == out.v() implies outer.contains(x) || inner.contains(x) || last.contains(x) by {
        if mentions(m, x) {
            lemma_clause_names(table, statements, x);
        } else {
            let term = output_of(statements)->0;
            let i = choose|i: int| 0 <= i < statements.len() && #[trigger] statements[i] == Statement::Output(term);
            assert(listed(table, statements[i]));
            assert(mentioned(statements[i])[0] == term.name);
            lemma_variable(table, term.name);
            assert(table.contains(term.name) && x == variable(table, term.name));
        }
        let name = choose|name: Seq<char>| #[trigger] table.contains(name) && x == variable(table, name);
        if defines(statements, name) {
            lemma_gates_of(statements, name);
            let k = choose|k: int| 0 <= k < gates.len() && gates[k] == name;
            assert(last[k] == x);
        } else {
            assert(in_blocks(blocks, name));
            let j = choose|j: int| 0 <= j < blocks.len() && (#[trigger] blocks[j]).1.contains(name);
            let names = blocks[j].1;
            let k = choose|k: int| 0 <= k < names.len() && names[k] == name;
            assert(variables(table, names)[k] == x);
        }
    }
    law_negated_instances_invert(outer, inner, last, m, out);
}

/// The formula that a text is read as answers the instance that the text
/// states: its truth is that of the instance, inverted exactly if it is
/// negated. A negated instance has to have no gate that depends on itself.
pub proof fn law_formulas_answer_the_instance(text: Seq<char>, statements: Seq<Statement>, qcir: Qcir)
    requires
        statements_of(lines(text), lines(text).len() as int) == Ok::<Seq<Statement>, (int, Seq<char>)>(statements),
        reads_qcir(text, Ok(qcir)),
        qcir.negated ==> acyclic(statements),
    ensures
        formula_true(qcir.qcnf.blocks(), qcir.qcnf.clauses()) == (instance_true(statements) != qcir.negated),
{
    let table = names_of(statements);
    lemma_instance(lines(text), statements);
    if is_negated(statements) {
        lemma_negated(statements);
    } else {
        let blocks = instance_blocks(statements);
        let gates = gates_of(statements);
        let m = demanded(statements);
        let none: Prefix = Seq::empty();
        let p = formula_blocks(statements);
        let end = seq![(QuantTy::Exists, variables(table, gates))];
        let q = mapped(table, blocks) + end;
        lemma_instance_true(statements);
        assert(end =~= with_block(QuantTy::Exists, variables(table, gates), none));
        assert forall|a: Assignment| #[trigger] qbf(p, m, a) == qbf(q, m, a) by {
            lemma_declared_qbf(table, blocks, QuantTy::Exists, gates, none, m, a);
            assert(p + none =~= p);
        }
        if formula_true(p, m) {
            let a = choose|a: Assignment| #[trigger] qbf(p, m, a);
            assert(qbf(q, m, a));
        }
        if formula_true(q, m) {
            let a = choose|a: Assignment| #[trigger] qbf(q, m, a);
            assert(qbf(p, m, a));
        }
    }
}

/// A block of the quantifier has the name.
spec fn in_block_of(blocks: Seq<(QuantTy, Seq<Seq<char>>)>, q: QuantTy, name: Seq<char>) -> bool {
    exists|j: int| 0 <= j < blocks.len() && (#[trigger] blocks[j]).0 == q && blocks[j].1.contains(name)
}

proof fn lemma_declared_in(blocks: Seq<(QuantTy, Seq<Seq<char>>)>, q: QuantTy, names: Seq<Seq<char>>, r: QuantTy, name: Seq<char>)
    requires
        in_block_of(blocks, r, name) || (r == q && names.contains(name)),
    ensures
        in_block_of(with_declared(blocks, q, names), r, name),
{
    let all = with_declared(blocks, q, names);
    let n = blocks.len() as int;
    if in_block_of(blocks, r, name) {
        let j = choose|j: int| 0 <= j < blocks.len() && (#[trigger] blocks[j]).0 == r && blocks[j].1.contains(name);
        if blocks.last().0 == q && j == n - 1 {
            lemma_concat_name(blocks.last().1, names, name);
            assert(all[j].0 == r && all[j].1.contains(name));
        } else {
            assert(all[j] == blocks[j]);
        }
    } else if n > 0 && blocks.last().0 == q {
        lemma_concat_name(blocks.last().1, names, name);
        assert(all[n - 1].0 == r && all[n - 1].1.contains(name));
    } else {
        assert(all[n].0 == r && all[n].1.contains(name));
    }
}

proof fn lemma_block_kept(statements: Seq<Statement>, i: int, q: QuantTy, names: Seq<Seq<char>>, name: Seq<char>)
    requires
        0 <= i < statements.len(),
        statements[i] == Statement::Block(q, names),
        names.contains(name),
    ensures
        in_block_of(merged(statements), q, name),
    decreases statements.len(),
{
    let few = statements.drop_last();
    let before = merged(few);
    if i < few.len() {
        assert(few[i] == statements[i]);
        lemma_block_kept(few, i, q, names, name);
    }
    match statements.last() {
        Statement::Block(r, more) => {
            lemma_declared_in(before, r, more, q, name);
        },
        _ => {},
    }
}

/// A declared name is the name of a variable of the formula, and the
/// quantifier of its block is the declared one, exchanged if the instance
/// was negated.
pub proof fn law_declared_names_keep_their_quantifier(
    text: Seq<char>,
    statements: Seq<Statement>,
    qcir: Qcir,
    i: int,
    q: QuantTy,
    names: Seq<Seq<char>>,
    name: Seq<char>,
)
    requires
        statements_of(lines(text), lines(text).len() as int) == Ok::<Seq<Statement>, (int, Seq<char>)>(statements),
        reads_qcir(text, Ok(qcir)),
        0 <= i < statements.len(),
        statements[i] == Statement::Block(q, names),
        names.contains(name),
    ensures
        exists|n: int|
            0 <= n < qcir.names().len() && #[trigger] qcir.names()[n] == name && crate::semantics::bound_by(
                qcir.qcnf.blocks(),
                if !qcir.negated {
                    q
                } else {
                    match q {
                        QuantTy::Exists => QuantTy::Forall,
                        QuantTy::Forall => QuantTy::Exists,
                    }
                },
                var_of(n + 1),
            ),
{
    let table = names_of(statements);
    lemma_instance(lines(text), statements);
    lemma_block_kept(statements, i, q, names, name);
    let blocks = merged(statements);
    let free = free_of(statements, table, table.len() as int);
    let all = with_free(blocks, free);
    let j = choose|j: int| 0 <= j < blocks.len() && (#[trigger] blocks[j]).0 == q && blocks[j].1.contains(name);
    assert(in_block_of(all, q, name)) by {
        if free.len() == 0 {
            assert(all[j] == blocks[j]);
        } else if blocks[0].0 == QuantTy::Exists {
            if j == 0 {
                lemma_concat_name(free, blocks[0].1, name);
                assert(all[0].0 == q && all[0].1.contains(name));
            } else {
                assert(all[j] == blocks[j]);
            }
        } else {
            assert(all[j + 1] == blocks[j]);
        }
    }
    let r = if !is_negated(statements) {
        q
    } else {
        crate::qcir::formula::dual(q)
    };
    let turned = if is_negated(statements) {
        flipped(all)
    } else {
        all
    };
    assert(in_block_of(turned, r, name)) by {
        let k = choose|k: int| 0 <= k < all.len() && (#[trigger] all[k]).0 == q && all[k].1.contains(name);
        assert(turned[k].0 == r && turned[k].1 == all[k].1);
    }
    lemma_declared_in(turned, QuantTy::Exists, gates_of(statements), r, name);
    let whole = with_gates(turned, gates_of(statements));
    let k = choose|k: int| 0 <= k < whole.len() && (#[trigger] whole[k]).0 == r && whole[k].1.contains(name);
    let p = mapped(table, whole);
    assert(p == qcir.qcnf.blocks());
    let own = whole[k].1;
    let at = choose|at: int| 0 <= at < own.len() && own[at] == name;
    assert(variables(table, own)[at] == variable(table, name));
    assert(p[k].0 == r && p[k].1.contains(variable(table, name)));
    let c = choose|c: int| 0 <= c < names.len() && names[c] == name;
    assert(listed(table, statements[i]));
    assert(mentioned(statements[i])[c] == name);
    lemma_variable(table, name);
    let n = place(table, name);
    assert(qcir.names()[n] == name);
    assert(variable(table, name) == var_of(n + 1));
}

} // verus!
