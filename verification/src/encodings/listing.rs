//! Reading back what is written as QCIR.
use crate::aiger::listing::{is_line, lemma_decimal, lemma_lines, lemma_sheet_concat, sheet};
use crate::encodings::{lit_name, magnitude, name_list, numbers_from, op_name, Circuit, Gate};
use crate::qcir::listing::{
    commas, in_order, law_statements_read_back, may_follow, op_text, statement_line, statement_lines, term_text, term_texts,
};
use crate::qcir::read::{
    defines, defines_it, has_output, identifier, identifier_char, line_of, proper_arity, statements_of, GateOp, Statement, Term,
};
use crate::literal::{var_of, Var};
use crate::qcir::formula::gate_value;
use crate::qcir::instance::{
    computed, evaluates, gate_holds, gates_hold, holds, instance_true, lemma_won_block, output_holds, outputs_hold, same_off, won, Valuation,
};
use crate::quantifier::QuantTy;
use crate::scan::{lines, trimmed};
use crate::semantics::{
    agree_off, clause_true, cube_true, formula_true, lemma_exists_block, lemma_forall_block, lit_true, matrix_true, qbf, with_block, Assignment,
    Prefix,
};
use crate::text::decimal;
use vstd::prelude::*;
use vstd::string::*;

verus! {

broadcast use crate::literal::group_literal;

/// The name of a variable number.
pub open spec fn number_name(n: int) -> Seq<char> {
    "v"@ + decimal(n as nat)
}

/// The term of a signed number.
pub open spec fn number_term(l: int) -> Term {
    if l < 0 {
        Term { name: number_name(-l), positive: false }
    } else {
        Term { name: number_name(l), positive: true }
    }
}

/// A block of consecutive numbers, if there are any.
pub open spec fn number_block(q: QuantTy, from: int, count: nat) -> Seq<Statement> {
    if count == 0 {
        Seq::empty()
    } else {
        seq![Statement::Block(q, Seq::new(count, |i: int| number_name(from + i)))]
    }
}

impl Circuit {
    /// The statement of a gate.
    pub open spec fn gate_statement(&self, k: int) -> Statement {
        Statement::Gate(
            number_name(self.gate_number(k)),
            self.gates@[k].op(),
            Seq::new(self.gates@[k].args().len(), |i: int| number_term(self.gates@[k].args()[i] as int)),
        )
    }

    /// The statements before the gates: the universal inputs, the
    /// existential ones, and the output.
    pub open spec fn declarations(&self) -> Seq<Statement> {
        number_block(QuantTy::Forall, 1, self.universals as nat) + number_block(
            QuantTy::Exists,
            self.universals + 1,
            self.existentials as nat,
        ) + seq![Statement::Output(number_term(self.output as int))]
    }

    /// The circuit as statements.
    pub open spec fn statements(&self) -> Seq<Statement> {
        self.declarations() + Seq::new(self.gates@.len(), |k: int| self.gate_statement(k))
    }
}

proof fn lemma_number_name(n: nat)
    ensures
        identifier(number_name(n as int)),
{
    reveal_strlit("v");
    lemma_decimal(n);
    let s = number_name(n as int);
    assert forall|i: int| 0 <= i < s.len() implies identifier_char(#[trigger] s[i]) by {
        if i > 0 {
            assert(s[i] == decimal(n)[i - 1]);
            assert('0' <= decimal(n)[i - 1] <= '9');
        }
    }
}

proof fn lemma_names_differ(m: nat, n: nat)
    requires
        number_name(m as int) == number_name(n as int),
    ensures
        m == n,
{
    crate::defined::lemma_internal("v"@, m, n);
}

proof fn lemma_lit_name(l: int)
    ensures
        lit_name(l) == term_text(number_term(l)),
        identifier(number_term(l).name),
{
    reveal_strlit("-v");
    reveal_strlit("-");
    reveal_strlit("v");
    if l < 0 {
        lemma_number_name((-l) as nat);
        assert("-v"@ =~= "-"@ + "v"@);
        assert(lit_name(l) =~= "-"@ + ("v"@ + decimal((-l) as nat)));
    } else {
        lemma_number_name(l as nat);
    }
}

proof fn lemma_name_list(numbers: Seq<int>, terms: Seq<Term>)
    requires
        terms.len() == numbers.len(),
        forall|i: int| 0 <= i < numbers.len() ==> #[trigger] terms[i] == number_term(numbers[i]),
    ensures
        name_list(numbers) == commas(term_texts(terms)),
    decreases numbers.len(),
{
    let texts = term_texts(terms);
    if numbers.len() == 1 {
        lemma_lit_name(numbers[0]);
        assert(terms[0] == number_term(numbers[0]));
    } else if numbers.len() > 1 {
        let few = terms.drop_last();
        assert forall|i: int| 0 <= i < few.len() implies #[trigger] few[i] == number_term(numbers.drop_last()[i]) by {
            assert(few[i] == terms[i]);
        }
        lemma_name_list(numbers.drop_last(), few);
        assert(texts.drop_last() =~= term_texts(few));
        let n = numbers.len() - 1;
        assert(terms[n] == number_term(numbers[n]));
        lemma_lit_name(numbers[n]);
        assert(texts[n] == lit_name(numbers[n]));
    }
}

#[verifier::rlimit(40)]
proof fn lemma_block_text(word: Seq<char>, q: QuantTy, from: int, count: nat)
    requires
        0 <= from,
        word == (match q {
            QuantTy::Exists => "exists"@,
            QuantTy::Forall => "forall"@,
        }),
    ensures
        Circuit::block_line(word, from, count) == sheet(statement_lines(number_block(q, from, count))),
{
    let ls = statement_lines(number_block(q, from, count));
    if count == 0 {
        assert(ls =~= Seq::<Seq<char>>::empty());
    } else {
        let names = Seq::new(count, |i: int| number_name(from + i));
        let numbers = numbers_from(from, count);
        let terms = Seq::new(count, |i: int| number_term(from + i));
        lemma_name_list(numbers, terms);
        assert(term_texts(terms) =~= names);
        reveal_strlit("exists(");
        reveal_strlit("forall(");
        reveal_strlit("exists");
        reveal_strlit("forall");
        reveal_strlit("(");
        reveal_strlit(")");
        reveal_strlit(")\n");
        reveal_strlit("\n");
        assert("exists"@ + "("@ =~= "exists("@);
        assert("forall"@ + "("@ =~= "forall("@);
        assert(")"@ + "\n"@ =~= ")\n"@);
        let line = statement_line(Statement::Block(q, names));
        assert(ls =~= seq![line]);
        assert(ls.drop_last() =~= Seq::<Seq<char>>::empty());
        assert(sheet(ls) == sheet(ls.drop_last()) + ls.last() + "\n"@);
        assert(sheet(ls) =~= line + "\n"@);
        assert(line + "\n"@ =~= word + "("@ + commas(names) + (")"@ + "\n"@));
    }
}

proof fn lemma_gate_text(c: &Circuit, k: int)
    requires
        c.wf(),
        0 <= k < c.gates@.len(),
    ensures
        c.gate_line(k) == statement_line(c.gate_statement(k)) + "\n"@,
{
    let numbers = c.gates@[k].numbers();
    let args = c.gates@[k].args();
    let terms = Seq::new(args.len(), |i: int| number_term(args[i] as int));
    lemma_name_list(numbers, terms);
    lemma_lit_name(c.gate_number(k));
    let name = number_name(c.gate_number(k));
    let op = c.gates@[k].op();
    reveal_strlit(")\n");
    reveal_strlit(")");
    reveal_strlit("\n");
    assert(")"@ + "\n"@ =~= ")\n"@);
    assert(op_name(op) == op_text(op));
    assert(c.gate_line(k) =~= name + " = "@ + op_text(op) + "("@ + commas(term_texts(terms)) + ")"@ + "\n"@);
}

proof fn lemma_gates_text(c: &Circuit, count: int)
    requires
        c.wf(),
        0 <= count <= c.gates@.len(),
    ensures
        c.gate_lines(count) == sheet(statement_lines(Seq::new(count as nat, |k: int| c.gate_statement(k)))),
    decreases count,
{
    let all = Seq::new(count as nat, |k: int| c.gate_statement(k));
    let ls = statement_lines(all);
    if count == 0 {
        assert(ls =~= Seq::<Seq<char>>::empty());
    } else {
        let few = Seq::new((count - 1) as nat, |k: int| c.gate_statement(k));
        lemma_gates_text(c, count - 1);
        lemma_gate_text(c, count - 1);
        assert(ls.drop_last() =~= statement_lines(few));
        assert(ls.last() == statement_line(c.gate_statement(count - 1)));
        assert(sheet(ls) =~= c.gate_lines(count));
    }
}

/// The text of a circuit is a comment and its statements.
#[verifier::rlimit(40)]
proof fn lemma_text(c: &Circuit)
    requires
        c.wf(),
    ensures
        c.qcir_text() == sheet(seq!["#QCIR-G14"@] + statement_lines(c.statements())),
{
    let first = number_block(QuantTy::Forall, 1, c.universals as nat);
    let second = number_block(QuantTy::Exists, c.universals + 1, c.existentials as nat);
    let third = seq![Statement::Output(number_term(c.output as int))];
    let gates = Seq::new(c.gates@.len(), |k: int| c.gate_statement(k));
    lemma_block_text("forall"@, QuantTy::Forall, 1, c.universals as nat);
    lemma_block_text("exists"@, QuantTy::Exists, c.universals + 1, c.existentials as nat);
    lemma_gates_text(c, c.gates@.len() as int);
    lemma_lit_name(c.output as int);
    reveal_strlit("#QCIR-G14");
    reveal_strlit("#QCIR-G14\n");
    reveal_strlit(")\n");
    reveal_strlit(")");
    reveal_strlit("\n");
    let head = seq!["#QCIR-G14"@];
    let out = statement_line(third[0]);
    assert("#QCIR-G14"@ + "\n"@ =~= "#QCIR-G14\n"@);
    assert(")"@ + "\n"@ =~= ")\n"@);
    assert(sheet(head) =~= "#QCIR-G14\n"@) by {
        assert(head.drop_last() =~= Seq::<Seq<char>>::empty());
        assert(sheet(head) == sheet(head.drop_last()) + head.last() + "\n"@);
    }
    let (a, b, o, g) = (statement_lines(first), statement_lines(second), statement_lines(third), statement_lines(gates));
    assert(sheet(o) =~= "output("@ + lit_name(c.output as int) + ")\n"@) by {
        assert(o =~= seq![out]);
        assert(o.drop_last() =~= Seq::<Seq<char>>::empty());
        assert(sheet(o) == sheet(o.drop_last()) + o.last() + "\n"@);
        assert(out + "\n"@ =~= "output("@ + lit_name(c.output as int) + (")"@ + "\n"@));
    }
    let all = head + statement_lines(c.statements());
    assert(all =~= head + a + b + o + g);
    lemma_sheet_concat(head + a + b + o, g);
    lemma_sheet_concat(head + a + b, o);
    lemma_sheet_concat(head + a, b);
    lemma_sheet_concat(head, a);
    assert(c.qcir_text() =~= sheet(all));
}

/// The statements of a circuit are in order.
#[verifier::rlimit(40)]
proof fn lemma_in_order(c: &Circuit)
    requires
        c.wf(),
    ensures
        in_order(c.statements()),
{
    let all = c.statements();
    let n = c.declarations().len() as int;
    let out = Statement::Output(number_term(c.output as int));
    assert(all[n - 1] == out);
    assert forall|i: int| 0 <= i < all.len() implies may_follow(all.take(i), #[trigger] all[i]) by {
        let before = all.take(i);
        if i < n - 1 {
            assert(all[i] is Block);
            assert(!has_output(before)) by {
                if has_output(before) {
                    let j = choose|j: int| 0 <= j < before.len() && (#[trigger] before[j]) is Output;
                    assert(all[j] is Block);
                }
            }
            match all[i] {
                Statement::Block(q, names) => {
                    assert forall|k: int| 0 <= k < names.len() implies identifier(#[trigger] names[k]) by {
                        if i == 0 && c.universals > 0 {
                            lemma_number_name((1 + k) as nat);
                        } else {
                            lemma_number_name((c.universals + 1 + k) as nat);
                        }
                    }
                },
                _ => {},
            }
        } else if i == n - 1 {
            assert(!has_output(before)) by {
                if has_output(before) {
                    let j = choose|j: int| 0 <= j < before.len() && (#[trigger] before[j]) is Output;
                    assert(all[j] is Block);
                }
            }
            lemma_lit_name(c.output as int);
        } else {
            let k = i - n;
            let gate = c.gates@[k];
            assert(all[i] == c.gate_statement(k));
            assert(before[n - 1] == out);
            assert(has_output(before));
            let name = number_name(c.gate_number(k));
            assert(!defines(before, name)) by {
                if defines(before, name) {
                    let j = choose|j: int| 0 <= j < before.len() && defines_it(#[trigger] before[j], name);
                    assert(before[j] == all[j]);
                    if j >= n {
                        assert(all[j] == c.gate_statement(j - n));
                        lemma_names_differ(c.gate_number(k) as nat, c.gate_number(j - n) as nat);
                    } else if j < n - 1 {
                        assert(all[j] is Block);
                    }
                }
            }
            lemma_number_name(c.gate_number(k) as nat);
            let args = Seq::new(gate.args().len(), |i: int| number_term(gate.args()[i] as int));
            assert forall|m: int| 0 <= m < args.len() implies identifier((#[trigger] args[m]).name) by {
                lemma_lit_name(gate.args()[m] as int);
            }
        }
    }
}

proof fn lemma_read(statements: Seq<Statement>, count: int)
    requires
        in_order(statements),
        0 <= count <= statements.len(),
    ensures
        statements_of(seq!["#QCIR-G14"@] + statement_lines(statements), count + 1) == Ok::<Seq<Statement>, (int, Seq<char>)>(
            statements.take(count),
        ),
    decreases count,
{
    let ls = seq!["#QCIR-G14"@] + statement_lines(statements);
    if count == 0 {
        reveal_strlit("#QCIR-G14");
        let none = Seq::<Statement>::empty();
        assert(statements_of(ls, 0) == Ok::<Seq<Statement>, (int, Seq<char>)>(none));
        assert(ls[0] == "#QCIR-G14"@);
        assert("#QCIR-G14"@[0] == '#' && "#QCIR-G14"@.last() == '4');
        assert(trimmed("#QCIR-G14"@) == "#QCIR-G14"@);
        assert(line_of(none, ls[0]) == Ok::<Option<Statement>, Seq<char>>(None));
        assert(statements.take(0) =~= none);
    } else {
        lemma_read(statements, count - 1);
        assert(may_follow(statements.take(count - 1), statements[count - 1]));
        law_statements_read_back(statements.take(count - 1), statements[count - 1]);
        assert(ls[count] == statement_line(statements[count - 1]));
        assert(statements.take(count - 1).push(statements[count - 1]) =~= statements.take(count));
    }
}

/// The text of a circuit is read as the circuit: its universal and its
/// existential inputs, its output and its gates, with the signs of their
/// arguments.
pub proof fn law_circuits_read_back(c: &Circuit)
    requires
        c.wf(),
    ensures
        statements_of(lines(c.qcir_text()), lines(c.qcir_text()).len() as int) == Ok::<Seq<Statement>, (int, Seq<char>)>(c.statements()),
{
    let sts = c.statements();
    let ls = seq!["#QCIR-G14"@] + statement_lines(sts);
    lemma_text(c);
    lemma_in_order(c);
    assert forall|i: int| 0 <= i < ls.len() implies is_line(#[trigger] ls[i]) by {
        if i == 0 {
            reveal_strlit("#QCIR-G14");
        } else {
            assert(may_follow(sts.take(i - 1), sts[i - 1]));
            law_statements_read_back(sts.take(i - 1), sts[i - 1]);
            assert(ls[i] == statement_line(sts[i - 1]));
        }
    }
    lemma_lines(ls, Seq::empty());
    assert(sheet(ls) + Seq::<char>::empty() =~= sheet(ls));
    lemma_read(sts, sts.len() as int);
    assert(sts.take(sts.len() as int) =~= sts);
}

/// The names of consecutive numbers.
spec fn span_names(lo: int, hi: int) -> Seq<Seq<char>> {
    Seq::new((hi - lo) as nat, |i: int| number_name(lo + i))
}

/// The variables of consecutive numbers.
spec fn span_vars(lo: int, hi: int) -> Seq<Var> {
    Seq::new((hi - lo) as nat, |i: int| var_of(lo + i))
}

proof fn lemma_span_names(lo: int, hi: int, n: int)
    requires
        0 <= lo <= hi,
        0 <= n,
    ensures
        span_names(lo, hi).contains(number_name(n)) == (lo <= n < hi),
{
    let names = span_names(lo, hi);
    if lo <= n < hi {
        assert(names[n - lo] == number_name(n));
    }
    if names.contains(number_name(n)) {
        let i = choose|i: int| 0 <= i < names.len() && names[i] == number_name(n);
        lemma_names_differ((lo + i) as nat, n as nat);
    }
}

proof fn lemma_span_vars(lo: int, hi: int, x: Var)
    requires
        1 <= lo <= hi <= u32::MAX,
    ensures
        span_vars(lo, hi).contains(x) == (lo <= x.dimacs() < hi),
{
    let vars = span_vars(lo, hi);
    crate::literal::lemma_var_of(x);
    if lo <= x.dimacs() < hi {
        assert(vars[x.dimacs() - lo] == x);
    }
    if vars.contains(x) {
        let i = choose|i: int| 0 <= i < vars.len() && vars[i] == x;
        crate::literal::lemma_var_index(lo + i - 1);
    }
}

/// The valuation and the assignment agree on the numbers up to one.
spec fn like(total: int, v: Valuation, a: Assignment) -> bool {
    forall|n: int| 1 <= n <= total ==> #[trigger] v(number_name(n)) == a(var_of(n))
}

spec fn moved(a: Assignment, w: Valuation, lo: int, hi: int) -> Assignment {
    |x: Var|
        if lo <= x.dimacs() < hi {
            w(number_name(x.dimacs()))
        } else {
            a(x)
        }
}

spec fn named_number(lo: int, hi: int, name: Seq<char>) -> int {
    choose|n: int| lo <= n < hi && name == number_name(n)
}

spec fn played(v: Valuation, b: Assignment, lo: int, hi: int) -> Valuation {
    |name: Seq<char>|
        if span_names(lo, hi).contains(name) {
            b(var_of(named_number(lo, hi, name)))
        } else {
            v(name)
        }
}

proof fn lemma_moved(total: int, v: Valuation, a: Assignment, w: Valuation, lo: int, hi: int)
    requires
        like(total, v, a),
        same_off(v, w, span_names(lo, hi)),
        1 <= lo <= hi <= u32::MAX,
        total < u32::MAX,
    ensures
        like(total, w, moved(a, w, lo, hi)),
        agree_off(a, moved(a, w, lo, hi), span_vars(lo, hi)),
{
    let b = moved(a, w, lo, hi);
    assert forall|n: int| 1 <= n <= total implies #[trigger] w(number_name(n)) == b(var_of(n)) by {
        crate::literal::lemma_var_index(n - 1);
        lemma_span_names(lo, hi, n);
        if !(lo <= n < hi) {
            assert(v(number_name(n)) == w(number_name(n)));
        }
    }
    assert forall|x: Var| !span_vars(lo, hi).contains(x) implies a(x) == #[trigger] b(x) by {
        lemma_span_vars(lo, hi, x);
    }
}

proof fn lemma_played(total: int, v: Valuation, a: Assignment, b: Assignment, lo: int, hi: int)
    requires
        like(total, v, a),
        agree_off(a, b, span_vars(lo, hi)),
        1 <= lo <= hi <= u32::MAX,
        total < u32::MAX,
    ensures
        like(total, played(v, b, lo, hi), b),
        same_off(v, played(v, b, lo, hi), span_names(lo, hi)),
{
    let w = played(v, b, lo, hi);
    assert forall|n: int| 1 <= n <= total implies #[trigger] w(number_name(n)) == b(var_of(n)) by {
        lemma_span_names(lo, hi, n);
        crate::literal::lemma_var_index(n - 1);
        if lo <= n < hi {
            let k = named_number(lo, hi, number_name(n));
            assert(lo <= n < hi && number_name(n) == number_name(n));
            lemma_names_differ(k as nat, n as nat);
        } else {
            lemma_span_vars(lo, hi, var_of(n));
            assert(a(var_of(n)) == b(var_of(n)));
            assert(v(number_name(n)) == a(var_of(n)));
        }
    }
}

proof fn lemma_number_term(total: int, v: Valuation, a: Assignment, l: i32)
    requires
        like(total, v, a),
        l != 0,
        magnitude(l) <= total,
        total < 2_147_483_647,
    ensures
        holds(v, number_term(l as int)) == lit_true(a, crate::encodings::signed(l)),
{
    let n = magnitude(l);
    crate::literal::lemma_var_index(n - 1);
    crate::literal::lemma_lit_of(var_of(n), l > 0);
    assert(v(number_name(n)) == a(var_of(n)));
}

proof fn lemma_gate_value(c: &Circuit, v: Valuation, a: Assignment, k: int)
    requires
        c.wf(),
        0 <= k < c.gates@.len(),
        like(c.inputs() + c.gates@.len(), v, a),
    ensures
        gate_holds(c.gate_statement(k), v) == c.gate_holds(k, a),
{
    let total = c.inputs() + c.gates@.len();
    let gate = c.gates@[k];
    let args = Seq::new(gate.args().len(), |i: int| number_term(gate.args()[i] as int));
    let lits = gate.lits();
    assert forall|i: int| 0 <= i < args.len() implies #[trigger] holds(v, args[i]) == lit_true(a, lits[i]) by {
        assert(gate.args()[i] != 0);
        lemma_number_term(total, v, a, gate.args()[i]);
    }
    let n = c.gate_number(k);
    crate::literal::lemma_var_index(n - 1);
    crate::literal::lemma_lit_of(var_of(n), true);
    assert(v(number_name(n)) == a(var_of(n)));
    assert(computed(gate.op(), args, v) == gate_value(gate.op(), lits, a)) by {
        match gate.op() {
            GateOp::And => {
                if cube_true(a, lits) {
                    assert forall|i: int| 0 <= i < args.len() implies holds(v, #[trigger] args[i]) by {
                        assert(lit_true(a, lits[i]));
                    }
                }
                if computed(gate.op(), args, v) {
                    assert forall|i: int| 0 <= i < lits.len() implies lit_true(a, #[trigger] lits[i]) by {
                        assert(holds(v, args[i]));
                    }
                }
            },
            GateOp::Or => {
                if clause_true(a, lits) {
                    let i = choose|i: int| 0 <= i < lits.len() && lit_true(a, #[trigger] lits[i]);
                    assert(holds(v, args[i]));
                }
                if computed(gate.op(), args, v) {
                    let i = choose|i: int| 0 <= i < args.len() && holds(v, #[trigger] args[i]);
                    assert(lit_true(a, lits[i]));
                }
            },
            _ => {
                assert(gate.args().len() == 2);
                assert(holds(v, args[0]) == lit_true(a, lits[0]));
                assert(holds(v, args[1]) == lit_true(a, lits[1]));
            },
        }
    }
}

/// The statements hold where the circuit is evaluated and its output is
/// true.
proof fn lemma_statements_hold(c: &Circuit, v: Valuation, a: Assignment)
    requires
        c.wf(),
        like(c.inputs() + c.gates@.len(), v, a),
    ensures
        (gates_hold(c.statements(), v) && outputs_hold(c.statements(), v)) == matrix_true(a, c.two_sided()),
{
    let sts = c.statements();
    let n = c.declarations().len() as int;
    c.lemma_two_sided(a);
    assert(sts[n - 1] == Statement::Output(number_term(c.output as int)));
    lemma_number_term(c.inputs() + c.gates@.len(), v, a, c.output);
    if gates_hold(sts, v) && outputs_hold(sts, v) {
        assert(output_holds(sts[n - 1], v));
        assert forall|k: int| 0 <= k < c.gates@.len() implies #[trigger] c.gate_holds(k, a) by {
            assert(sts[n + k] == c.gate_statement(k));
            assert(gate_holds(sts[n + k], v));
            lemma_gate_value(c, v, a, k);
        }
    }
    if c.settled(a) && lit_true(a, crate::encodings::signed(c.output)) {
        assert forall|i: int| 0 <= i < sts.len() implies gate_holds(#[trigger] sts[i], v) && output_holds(sts[i], v) by {
            if i >= n {
                assert(sts[i] == c.gate_statement(i - n));
                assert(c.gate_holds(i - n, a));
                lemma_gate_value(c, v, a, i - n);
            } else if i < n - 1 {
                assert(sts[i] is Block);
            }
        }
    }
}

/// Gates are the numbers behind the inputs.
proof fn lemma_gate_names(c: &Circuit, name: Seq<char>)
    requires
        c.wf(),
    ensures
        defines(c.statements(), name) == span_names(c.inputs() + 1, c.inputs() + c.gates@.len() + 1).contains(name),
{
    let sts = c.statements();
    let n = c.declarations().len() as int;
    let names = span_names(c.inputs() + 1, c.inputs() + c.gates@.len() + 1);
    if defines(sts, name) {
        let i = choose|i: int| 0 <= i < sts.len() && defines_it(#[trigger] sts[i], name);
        if i < n - 1 {
            assert(sts[i] is Block);
        } else if i == n - 1 {
            assert(sts[i] is Output);
        } else {
            assert(sts[i] == c.gate_statement(i - n));
            assert(names[i - n] == name);
        }
    }
    if names.contains(name) {
        let k = choose|k: int| 0 <= k < names.len() && names[k] == name;
        assert(sts[n + k] == c.gate_statement(k));
        assert(defines_it(sts[n + k], name));
    }
}

/// Behind the blocks nothing is played any more.
proof fn lemma_behind_blocks(c: &Circuit, from: int, v: Valuation)
    requires
        c.wf(),
        c.declarations().len() - 1 <= from <= c.statements().len(),
    ensures
        won(c.statements(), from, v) == won(c.statements(), c.statements().len() as int, v),
    decreases c.statements().len() - from,
{
    let sts = c.statements();
    let n = c.declarations().len() as int;
    if from < sts.len() {
        if from == n - 1 {
            assert(sts[from] is Output);
        } else {
            assert(sts[from] == c.gate_statement(from - n));
        }
        lemma_behind_blocks(c, from + 1, v);
    }
}

/// Some values of the variables from one number to the end satisfy the
/// clauses.
spec fn satisfiable_from(c: &Circuit, lo: int, a: Assignment) -> bool {
    exists|b: Assignment| #[trigger] agree_off(a, b, span_vars(lo, c.inputs() + c.gates@.len() + 1)) && matrix_true(b, c.two_sided())
}

proof fn lemma_gates_played(c: &Circuit, from: int, v: Valuation, a: Assignment)
    requires
        c.wf(),
        like(c.inputs() + c.gates@.len(), v, a),
        from == c.declarations().len() - 1,
    ensures
        won(c.statements(), from, v) == satisfiable_from(c, c.inputs() + 1, a),
{
    let sts = c.statements();
    let total = c.inputs() + c.gates@.len();
    let (lo, hi) = (c.inputs() + 1, total + 1);
    lemma_behind_blocks(c, from, v);
    if won(sts, sts.len() as int, v) {
        let w = choose|w: Valuation| #[trigger] evaluates(sts, v, w) && outputs_hold(sts, w);
        assert forall|name: Seq<char>| !span_names(lo, hi).contains(name) implies v(name) == #[trigger] w(name) by {
            lemma_gate_names(c, name);
        }
        lemma_moved(total, v, a, w, lo, hi);
        lemma_statements_hold(c, w, moved(a, w, lo, hi));
    }
    if satisfiable_from(c, lo, a) {
        let b = choose|b: Assignment| #[trigger] agree_off(a, b, span_vars(lo, hi)) && matrix_true(b, c.two_sided());
        lemma_played(total, v, a, b, lo, hi);
        let w = played(v, b, lo, hi);
        lemma_statements_hold(c, w, b);
        assert forall|name: Seq<char>| !defines(sts, name) implies #[trigger] w(name) == v(name) by {
            lemma_gate_names(c, name);
        }
        assert(evaluates(sts, v, w));
    }
}

/// The existential inputs and the gates are played together.
proof fn lemma_inner_played(c: &Circuit, from: int, v: Valuation, a: Assignment)
    requires
        c.wf(),
        like(c.inputs() + c.gates@.len(), v, a),
        from == (if c.universals > 0 { 1int } else { 0int }),
    ensures
        won(c.statements(), from, v) == satisfiable_from(c, c.universals + 1, a),
{
    let sts = c.statements();
    let total = c.inputs() + c.gates@.len();
    let (lo, mid, hi) = (c.universals + 1, c.inputs() + 1, total + 1);
    if c.existentials == 0 {
        lemma_gates_played(c, from, v, a);
    } else {
        let names = Seq::new(c.existentials as nat, |i: int| number_name(c.universals + 1 + i));
        assert(names =~= span_names(lo, mid));
        assert(sts[from] == Statement::Block(QuantTy::Exists, names));
        assert(from < sts.len());
        lemma_won_block(sts, from, QuantTy::Exists, names, v);
        if won(sts, from, v) {
            let w = choose|w: Valuation| #[trigger] same_off(v, w, names) && won(sts, from + 1, w);
            lemma_moved(total, v, a, w, lo, mid);
            let b = moved(a, w, lo, mid);
            lemma_gates_played(c, from + 1, w, b);
            let d = choose|d: Assignment| #[trigger] agree_off(b, d, span_vars(mid, hi)) && matrix_true(d, c.two_sided());
            assert forall|x: Var| !span_vars(lo, hi).contains(x) implies a(x) == #[trigger] d(x) by {
                lemma_span_vars(lo, hi, x);
                lemma_span_vars(lo, mid, x);
                lemma_span_vars(mid, hi, x);
                assert(a(x) == b(x));
                assert(b(x) == d(x));
            }
            assert(agree_off(a, d, span_vars(lo, hi)));
            assert(satisfiable_from(c, lo, a));
        }
        if satisfiable_from(c, lo, a) {
            let d = choose|d: Assignment| #[trigger] agree_off(a, d, span_vars(lo, hi)) && matrix_true(d, c.two_sided());
            let b: Assignment = |x: Var|
                if lo <= x.dimacs() < mid {
                    d(x)
                } else {
                    a(x)
                };
            assert forall|x: Var| !span_vars(lo, mid).contains(x) implies a(x) == #[trigger] b(x) by {
                lemma_span_vars(lo, mid, x);
            }
            assert forall|x: Var| !span_vars(mid, hi).contains(x) implies b(x) == #[trigger] d(x) by {
                lemma_span_vars(lo, hi, x);
                lemma_span_vars(mid, hi, x);
            }
            lemma_played(total, v, a, b, lo, mid);
            let w = played(v, b, lo, mid);
            lemma_gates_played(c, from + 1, w, b);
            assert(agree_off(b, d, span_vars(mid, hi)));
            assert(satisfiable_from(c, mid, b));
            assert(same_off(v, w, names));
            assert(won(sts, from + 1, w));
        }
    }
}

/// The statements of a circuit state its question: the instance is true iff
/// the formula of the circuit is.
pub proof fn law_written_circuits_ask_the_question(c: &Circuit)
    requires
        c.wf(),
    ensures
        instance_true(c.statements()) == formula_true(c.prefix(), c.two_sided()),
{
    let sts = c.statements();
    let total = c.inputs() + c.gates@.len();
    let two = c.two_sided();
    let none: Prefix = Seq::empty();
    let inner = with_block(QuantTy::Exists, c.inner(), none);
    assert(c.inner() =~= span_vars(c.universals + 1, total + 1));
    assert(c.outer() =~= span_vars(1, c.universals + 1));
    assert forall|a: Assignment| #[trigger] qbf(inner, two, a) == satisfiable_from(c, c.universals + 1, a) by {
        lemma_exists_block(c.inner(), none, two, a);
        if qbf(inner, two, a) {
            let b = choose|b: Assignment| #[trigger] agree_off(a, b, c.inner()) && qbf(none, two, b);
            assert(matrix_true(b, two));
        }
        if satisfiable_from(c, c.universals + 1, a) {
            let b = choose|b: Assignment| #[trigger] agree_off(a, b, span_vars(c.universals + 1, total + 1)) && matrix_true(b, two);
            assert(qbf(none, two, b));
        }
    }
    assert forall|v: Valuation, a: Assignment| #[trigger] like(total, v, a) implies won(sts, 0, v) == qbf(c.prefix(), two, a) by {
        if c.universals == 0 {
            assert(c.prefix() =~= inner);
            lemma_inner_played(c, 0, v, a);
        } else {
            assert(c.prefix() =~= with_block(QuantTy::Forall, c.outer(), inner));
            lemma_forall_block(c.outer(), inner, two, a);
            let (lo, hi) = (1int, c.universals + 1);
            let names = Seq::new(c.universals as nat, |i: int| number_name(1 + i));
            assert(names =~= span_names(lo, hi));
            assert(sts[0] == Statement::Block(QuantTy::Forall, names));
            assert(0 < sts.len());
            lemma_won_block(sts, 0, QuantTy::Forall, names, v);
            if won(sts, 0, v) {
                assert forall|b: Assignment| #[trigger] agree_off(a, b, c.outer()) implies qbf(inner, two, b) by {
                    lemma_played(total, v, a, b, lo, hi);
                    let w = played(v, b, lo, hi);
                    assert(same_off(v, w, names));
                    assert(won(sts, 1, w));
                    lemma_inner_played(c, 1, w, b);
                    assert(satisfiable_from(c, c.universals + 1, b));
                }
            }
            if qbf(c.prefix(), two, a) {
                assert forall|w: Valuation| #[trigger] same_off(v, w, names) implies won(sts, 1, w) by {
                    lemma_moved(total, v, a, w, lo, hi);
                    let b = moved(a, w, lo, hi);
                    assert(agree_off(a, b, c.outer()));
                    assert(qbf(inner, two, b));
                    lemma_inner_played(c, 1, w, b);
                }
            }
        }
    }
    if instance_true(sts) {
        let v = choose|v: Valuation| #[trigger] won(sts, 0, v);
        let a: Assignment = |x: Var| v(number_name(x.dimacs()));
        assert forall|n: int| 1 <= n <= total implies #[trigger] v(number_name(n)) == a(var_of(n)) by {
            crate::literal::lemma_var_index(n - 1);
        }
        assert(like(total, v, a));
        assert(qbf(c.prefix(), two, a));
    }
    if formula_true(c.prefix(), two) {
        let a = choose|a: Assignment| #[trigger] qbf(c.prefix(), two, a);
        let (lo, hi) = (1int, total + 1);
        let v: Valuation = |name: Seq<char>| span_names(lo, hi).contains(name) && a(var_of(named_number(lo, hi, name)));
        assert forall|n: int| 1 <= n <= total implies #[trigger] v(number_name(n)) == a(var_of(n)) by {
            lemma_span_names(lo, hi, n);
            let k = named_number(lo, hi, number_name(n));
            assert(lo <= n < hi && number_name(n) == number_name(n));
            lemma_names_differ(k as nat, n as nat);
        }
        assert(like(total, v, a));
        assert(won(sts, 0, v));
    }
}

} // verus!
