//! What is written as QCIR is what is read.
//!
//! Statements, one to a line, are read as they were written. So the formula
//! of a text answers the instance that was written.
use crate::aiger::listing::{is_line, lemma_lines, sheet};
use crate::qcir::formula::{introduced, output_of};
use crate::qcir::instance::{acyclic, instance_true, law_formulas_answer_the_instance};
use crate::qcir::read::{
    arguments, content_line, declaration_line, defines, definition_of, gate_line, gate_of, has_output, identifier, identifier_char, line_of,
    proper_arity, statements_of, term_of, terms_of, variables_of, GateOp, Statement, Term,
};
use crate::qcir::{reads_qcir, ParseError, Qcir};
use crate::quantifier::QuantTy;
use crate::scan::{lines, position, split, trimmed, trimmed_end, trimmed_start, white};
use crate::semantics::formula_true;
use vstd::prelude::*;
use vstd::string::*;

verus! {

/// Parts separated by a comma and a blank.
pub open spec fn commas(parts: Seq<Seq<char>>) -> Seq<char>
    decreases parts.len(),
{
    if parts.len() == 0 {
        Seq::empty()
    } else if parts.len() == 1 {
        parts[0]
    } else {
        commas(parts.drop_last()) + ", "@ + parts.last()
    }
}

/// A term: a name, behind a sign if it is negated.
pub open spec fn term_text(term: Term) -> Seq<char> {
    if term.positive {
        term.name
    } else {
        "-"@ + term.name
    }
}

pub open spec fn term_texts(terms: Seq<Term>) -> Seq<Seq<char>> {
    Seq::new(terms.len(), |i: int| term_text(terms[i]))
}

/// The name of an operation.
pub open spec fn op_text(op: GateOp) -> Seq<char> {
    match op {
        GateOp::And => "and"@,
        GateOp::Or => "or"@,
        GateOp::Xor => "xor"@,
        GateOp::Ite => "ite"@,
    }
}

/// A statement as a line.
pub open spec fn statement_line(statement: Statement) -> Seq<char> {
    match statement {
        Statement::Block(QuantTy::Exists, names) => "exists("@ + commas(names) + ")"@,
        Statement::Block(QuantTy::Forall, names) => "forall("@ + commas(names) + ")"@,
        Statement::Output(term) => "output("@ + term_text(term) + ")"@,
        Statement::Gate(name, op, args) => name + " = "@ + op_text(op) + "("@ + commas(term_texts(args)) + ")"@,
    }
}

/// The statement may follow the statements before it.
pub open spec fn may_follow(before: Seq<Statement>, statement: Statement) -> bool {
    match statement {
        Statement::Block(q, names) => !has_output(before) && forall|i: int| 0 <= i < names.len() ==> identifier(#[trigger] names[i]),
        Statement::Output(term) => !has_output(before) && identifier(term.name),
        Statement::Gate(name, op, args) => {
            &&& has_output(before)
            &&& !defines(before, name)
            &&& identifier(name)
            &&& forall|i: int| 0 <= i < args.len() ==> identifier((#[trigger] args[i]).name)
            &&& proper_arity(op, args.len())
        },
    }
}

/// Every statement may follow those before it.
pub open spec fn in_order(statements: Seq<Statement>) -> bool {
    forall|i: int| 0 <= i < statements.len() ==> may_follow(statements.take(i), #[trigger] statements[i])
}

/// The statements as lines.
pub open spec fn statement_lines(statements: Seq<Statement>) -> Seq<Seq<char>> {
    Seq::new(statements.len(), |i: int| statement_line(statements[i]))
}

/// No white space is at the ends of the text.
spec fn tight(s: Seq<char>) -> bool {
    s.len() > 0 && !white(s[0]) && !white(s.last())
}

proof fn lemma_tight(s: Seq<char>)
    requires
        tight(s),
    ensures
        trimmed(s) == s,
{
}

proof fn lemma_tight_behind(s: Seq<char>)
    requires
        tight(s),
    ensures
        trimmed(" "@ + s) == s,
{
    reveal_strlit(" ");
    let t = " "@ + s;
    assert(t[0] == ' ');
    assert(t.drop_first() =~= s);
    assert(trimmed_start(s) == s);
    assert(trimmed_start(t) == trimmed_start(t.drop_first()));
}

proof fn lemma_tight_before(s: Seq<char>)
    requires
        tight(s),
    ensures
        trimmed(s + " "@) == s,
{
    reveal_strlit(" ");
    let t = s + " "@;
    assert(t[0] == s[0]);
    assert(trimmed_start(t) == t);
    assert(t.last() == ' ');
    assert(t.drop_last() =~= s);
    assert(trimmed_end(s) == s);
}

/// The character is in the text.
#[verifier::opaque]
spec fn has_char(s: Seq<char>, c: char) -> bool {
    exists|i: int| 0 <= i < s.len() && #[trigger] s[i] == c
}

proof fn lemma_position(head: Seq<char>, c: char, rest: Seq<char>)
    requires
        !has_char(head, c),
    ensures
        position(head + seq![c] + rest, c) == Some(head.len()),
    decreases head.len(),
{
    reveal(has_char);
    let s = head + seq![c] + rest;
    if head.len() == 0 {
        assert(s[0] == c);
    } else {
        let tail = head.drop_first();
        assert(head[0] != c);
        assert(!has_char(tail, c)) by {
            if has_char(tail, c) {
                let i = choose|i: int| 0 <= i < tail.len() && #[trigger] tail[i] == c;
                assert(head[i + 1] == c);
            }
        }
        lemma_position(tail, c, rest);
        assert(s[0] == head[0]);
        assert(s.drop_first() =~= tail + seq![c] + rest);
    }
}

proof fn lemma_no_position(s: Seq<char>, c: char)
    requires
        !has_char(s, c),
    ensures
        position(s, c) is None,
    decreases s.len(),
{
    reveal(has_char);
    if s.len() > 0 {
        let tail = s.drop_first();
        assert(s[0] != c);
        assert(!has_char(tail, c)) by {
            if has_char(tail, c) {
                let i = choose|i: int| 0 <= i < tail.len() && #[trigger] tail[i] == c;
                assert(s[i + 1] == c);
            }
        }
        lemma_no_position(tail, c);
    }
}

proof fn lemma_has_concat(left: Seq<char>, right: Seq<char>, c: char)
    ensures
        has_char(left + right, c) == (has_char(left, c) || has_char(right, c)),
{
    reveal(has_char);
    let s = left + right;
    if has_char(s, c) {
        let i = choose|i: int| 0 <= i < s.len() && #[trigger] s[i] == c;
        if i < left.len() {
            assert(left[i] == c);
        } else {
            assert(right[i - left.len()] == c);
        }
    }
    if has_char(left, c) {
        let i = choose|i: int| 0 <= i < left.len() && #[trigger] left[i] == c;
        assert(s[i] == c);
    }
    if has_char(right, c) {
        let i = choose|i: int| 0 <= i < right.len() && #[trigger] right[i] == c;
        assert(s[left.len() + i] == c);
    }
}

/// The fixed parts of a line hold no other marks.
proof fn lemma_marks()
    ensures
        !has_char(" "@, ','),
        !has_char(" "@, '='),
        !has_char(", "@, '('),
        !has_char(", "@, '='),
        !has_char(", "@, '\n'),
        !has_char("("@, '='),
        !has_char("("@, '\n'),
        !has_char(")"@, '='),
        !has_char(")"@, '\n'),
        !has_char(" = "@, '('),
        !has_char(" = "@, '\n'),
{
    reveal(has_char);
    reveal_strlit(" ");
    reveal_strlit(", ");
    reveal_strlit("(");
    reveal_strlit(")");
    reveal_strlit(" = ");
}

/// A text without a line feed is on one line.
proof fn lemma_one_line(s: Seq<char>)
    requires
        !has_char(s, '\n'),
    ensures
        crate::aiger::listing::on_one_line(s),
{
    reveal(has_char);
}

/// The text is a token: nothing in it separates parts.
spec fn plain(s: Seq<char>) -> bool {
    tight(s) && s[0] != '#' && !has_char(s, '(') && !has_char(s, '=') && !has_char(s, ',') && !has_char(s, '\n')
}

proof fn lemma_term_plain(term: Term)
    requires
        identifier(term.name),
    ensures
        plain(term_text(term)),
        term_of(term_text(term)) == Ok::<Term, Seq<char>>(term),
{
    reveal(has_char);
    reveal_strlit("-");
    let s = term_text(term);
    let n = term.name;
    assert forall|i: int| 0 <= i < s.len() implies identifier_char(#[trigger] s[i]) || s[i] == '-' by {
        if term.positive {
            assert(identifier_char(n[i]));
        } else if i > 0 {
            assert(identifier_char(n[i - 1]));
        }
    }
    assert(identifier_char(s[0]) || s[0] == '-');
    assert(identifier_char(s[s.len() - 1]) || s[s.len() - 1] == '-');
    assert(tight(s));
    if term.positive {
        assert(identifier_char(n[0]));
    } else {
        assert(s.subrange(1, s.len() as int) =~= n);
    }
}

proof fn lemma_split_push(s: Seq<char>, t: Seq<char>)
    requires
        !has_char(t, ','),
    ensures
        split(s + ","@ + t, ',') == split(s, ',').push(t),
    decreases t.len(),
{
    reveal(has_char);
    reveal_strlit(",");
    let all = s + ","@ + t;
    if t.len() == 0 {
        assert(all.drop_last() =~= s);
        assert(all.last() == ',');
        assert(t =~= Seq::<char>::empty());
    } else {
        let few = t.drop_last();
        assert(t[t.len() - 1] != ',');
        assert(!has_char(few, ',')) by {
            if has_char(few, ',') {
                let i = choose|i: int| 0 <= i < few.len() && #[trigger] few[i] == ',';
                assert(t[i] == ',');
            }
        }
        lemma_split_push(s, few);
        assert(all.drop_last() =~= s + ","@ + few);
        assert(all.last() == t.last());
        assert(split(s, ',').push(few).drop_last() =~= split(s, ','));
        assert(few.push(t.last()) =~= t);
    }
}

proof fn lemma_split_one(t: Seq<char>)
    requires
        !has_char(t, ','),
    ensures
        split(t, ',') == seq![t],
    decreases t.len(),
{
    reveal(has_char);
    if t.len() == 0 {
        assert(t =~= Seq::<char>::empty());
    } else {
        let few = t.drop_last();
        assert(t[t.len() - 1] != ',');
        assert(!has_char(few, ',')) by {
            if has_char(few, ',') {
                let i = choose|i: int| 0 <= i < few.len() && #[trigger] few[i] == ',';
                assert(t[i] == ',');
            }
        }
        lemma_split_one(few);
        assert(few.push(t.last()) =~= t);
        assert(split(t, ',') =~= seq![t]);
    }
}

/// Parts separated by commas have no other marks, and are read one by one.
#[verifier::rlimit(40)]
proof fn lemma_commas(parts: Seq<Seq<char>>)
    requires
        forall|i: int| 0 <= i < parts.len() ==> plain(#[trigger] parts[i]),
    ensures
        parts.len() > 0 ==> tight(commas(parts)),
        !has_char(commas(parts), '('),
        !has_char(commas(parts), '='),
        !has_char(commas(parts), '\n'),
        parts.len() > 0 ==> split(commas(parts), ',').len() == parts.len(),
        forall|i: int| 0 <= i < parts.len() ==> trimmed(#[trigger] split(commas(parts), ',')[i]) == parts[i],
    decreases parts.len(),
{
    reveal_strlit(", ");
    reveal_strlit(",");
    reveal_strlit(" ");
    if parts.len() == 0 {
        assert(!has_char(commas(parts), '(') && !has_char(commas(parts), '=') && !has_char(commas(parts), '\n')) by {
            reveal(has_char);
        }
    } else if parts.len() == 1 {
        assert(plain(parts[0]));
        lemma_split_one(parts[0]);
        lemma_tight(parts[0]);
    } else {
        let few = parts.drop_last();
        let last = parts[parts.len() - 1];
        assert(plain(last));
        assert forall|i: int| 0 <= i < few.len() implies plain(#[trigger] few[i]) by {
            assert(few[i] == parts[i]);
        }
        lemma_commas(few);
        let s = commas(few);
        let all = commas(parts);
        assert(all == s + ", "@ + last);
        let tail = " "@ + last;
        assert(all =~= s + ","@ + tail);
        assert(all[0] == s[0] && all.last() == last.last());
        lemma_has_concat(" "@, last, ',');
        lemma_marks();
        lemma_split_push(s, tail);
        lemma_tight_behind(last);
        lemma_has_concat(s + ", "@, last, '(');
        lemma_has_concat(s, ", "@, '(');
        lemma_has_concat(s + ", "@, last, '=');
        lemma_has_concat(s, ", "@, '=');
        lemma_has_concat(s + ", "@, last, '\n');
        lemma_has_concat(s, ", "@, '\n');
        lemma_marks();
        let found = split(all, ',');
        assert forall|i: int| 0 <= i < parts.len() implies trimmed(#[trigger] found[i]) == parts[i] by {
            if i < few.len() {
                assert(found[i] == split(s, ',')[i]);
                assert(few[i] == parts[i]);
            } else {
                assert(found[i] == tail);
            }
        }
    }
}

proof fn lemma_arguments(parts: Seq<Seq<char>>)
    requires
        forall|i: int| 0 <= i < parts.len() ==> plain(#[trigger] parts[i]),
    ensures
        arguments(commas(parts)) == parts,
{
    lemma_commas(parts);
    let s = commas(parts);
    if parts.len() == 0 {
        assert(s =~= Seq::<char>::empty());
        assert(trimmed(s) =~= Seq::<char>::empty());
        assert(arguments(s) =~= parts);
    } else {
        lemma_tight(s);
        assert(arguments(s) =~= parts);
    }
}

proof fn lemma_terms_of(terms: Seq<Term>)
    requires
        forall|i: int| 0 <= i < terms.len() ==> identifier((#[trigger] terms[i]).name),
    ensures
        terms_of(term_texts(terms)) == Ok::<Seq<Term>, Seq<char>>(terms),
        forall|i: int| 0 <= i < terms.len() ==> plain(#[trigger] term_texts(terms)[i]),
    decreases terms.len(),
{
    let texts = term_texts(terms);
    assert forall|i: int| 0 <= i < terms.len() implies plain(#[trigger] texts[i]) by {
        lemma_term_plain(terms[i]);
    }
    if terms.len() == 0 {
        assert(terms =~= Seq::<Term>::empty());
    } else {
        let few = terms.drop_last();
        assert forall|i: int| 0 <= i < few.len() implies identifier((#[trigger] few[i]).name) by {
            assert(few[i] == terms[i]);
        }
        lemma_terms_of(few);
        assert(texts.drop_last() =~= term_texts(few));
        assert(identifier(terms[terms.len() - 1].name));
        lemma_term_plain(terms.last());
        assert(few.push(terms.last()) =~= terms);
    }
}

proof fn lemma_variables_of(names: Seq<Seq<char>>)
    requires
        forall|i: int| 0 <= i < names.len() ==> identifier(#[trigger] names[i]),
    ensures
        variables_of(names) == Ok::<Seq<Seq<char>>, Seq<char>>(names),
        forall|i: int| 0 <= i < names.len() ==> plain(#[trigger] names[i]),
    decreases names.len(),
{
    assert forall|i: int| 0 <= i < names.len() implies plain(#[trigger] names[i]) by {
        lemma_term_plain(Term { name: names[i], positive: true });
    }
    if names.len() == 0 {
        assert(names =~= Seq::<Seq<char>>::empty());
    } else {
        let few = names.drop_last();
        assert forall|i: int| 0 <= i < few.len() implies identifier(#[trigger] few[i]) by {
            assert(few[i] == names[i]);
        }
        lemma_variables_of(few);
        assert(identifier(names[names.len() - 1]));
        lemma_term_plain(Term { name: names.last(), positive: true });
        assert(few.push(names.last()) =~= names);
    }
}

/// A line of the shape `head(inner)` is a declaration.
#[verifier::rlimit(40)]
proof fn lemma_declaration(before: Seq<Statement>, head: Seq<char>, inner: Seq<char>)
    requires
        plain(head),
        !has_char(inner, '='),
        !has_char(inner, '\n'),
    ensures
        ({
            let line = head + "("@ + inner + ")"@;
            &&& is_line(line)
            &&& line_of(before, line) == (match declaration_line(before, head, inner + ")"@) {
                Ok(statement) => Ok(Some(statement)),
                Err(message) => Err(message),
            })
            &&& (inner + ")"@).subrange(0, (inner + ")"@).len() - 1) == inner
            &&& (inner + ")"@).len() > 0
            &&& (inner + ")"@).last() == ')'
        }),
{
    reveal_strlit("(");
    reveal_strlit(")");
    let rest = inner + ")"@;
    let line = head + "("@ + inner + ")"@;
    assert(line =~= head + seq!['('] + rest);
    lemma_position(head, '(', rest);
    lemma_has_concat(head, "("@, '=');
    lemma_has_concat(head + "("@, inner, '=');
    lemma_has_concat(head + "("@ + inner, ")"@, '=');
    lemma_has_concat(head, "("@, '\n');
    lemma_has_concat(head + "("@, inner, '\n');
    lemma_has_concat(head + "("@ + inner, ")"@, '\n');
    lemma_marks();
    lemma_no_position(line, '=');
    assert(line[0] == head[0]);
    assert(line.last() == ')');
    lemma_tight(line);
    assert(line.subrange(0, head.len() as int) =~= head);
    lemma_tight(head);
    assert(line.subrange(head.len() as int + 1, line.len() as int) =~= rest);
    assert(rest.subrange(0, rest.len() - 1) =~= inner);
    lemma_one_line(line);
}

/// The words of declarations are tokens.
proof fn lemma_heads()
    ensures
        plain("exists"@),
        plain("forall"@),
        plain("free"@),
        plain("output"@),
{
    reveal_strlit("exists");
    reveal_strlit("forall");
    reveal_strlit("free");
    reveal_strlit("output");
    assert forall|i: int| 0 <= i < "exists"@.len() implies identifier_char(#[trigger] "exists"@[i]) by {}
    assert forall|i: int| 0 <= i < "forall"@.len() implies identifier_char(#[trigger] "forall"@[i]) by {}
    assert forall|i: int| 0 <= i < "free"@.len() implies identifier_char(#[trigger] "free"@[i]) by {}
    assert forall|i: int| 0 <= i < "output"@.len() implies identifier_char(#[trigger] "output"@[i]) by {}
    lemma_term_plain(Term { name: "exists"@, positive: true });
    lemma_term_plain(Term { name: "forall"@, positive: true });
    lemma_term_plain(Term { name: "free"@, positive: true });
    lemma_term_plain(Term { name: "output"@, positive: true });
}

#[verifier::rlimit(40)]
proof fn lemma_block_line(before: Seq<Statement>, q: QuantTy, names: Seq<Seq<char>>)
    requires
        may_follow(before, Statement::Block(q, names)),
    ensures
        line_of(before, statement_line(Statement::Block(q, names))) == Ok::<Option<Statement>, Seq<char>>(Some(Statement::Block(q, names))),
        is_line(statement_line(Statement::Block(q, names))),
{
    reveal_strlit("exists(");
    reveal_strlit("forall(");
    reveal_strlit("exists");
    reveal_strlit("forall");
    reveal_strlit("(");
    lemma_variables_of(names);
    lemma_commas(names);
    lemma_arguments(names);
    assert("exists"@[0] == 'e' && "forall"@[0] == 'f');
    let head = match q {
        QuantTy::Exists => "exists"@,
        QuantTy::Forall => "forall"@,
    };
    lemma_heads();
    lemma_declaration(before, head, commas(names));
    assert("exists"@ + "("@ =~= "exists("@);
    assert("forall"@ + "("@ =~= "forall("@);
}

/// A block of free variables is an existential one.
#[verifier::rlimit(40)]
pub proof fn law_free_blocks_are_existential(before: Seq<Statement>, names: Seq<Seq<char>>)
    requires
        !has_output(before),
        forall|i: int| 0 <= i < names.len() ==> identifier(#[trigger] names[i]),
    ensures
        line_of(before, "free("@ + commas(names) + ")"@) == Ok::<Option<Statement>, Seq<char>>(
            Some(Statement::Block(QuantTy::Exists, names)),
        ),
{
    reveal_strlit("free(");
    reveal_strlit("forall");
    reveal_strlit("free");
    reveal_strlit("(");
    lemma_variables_of(names);
    lemma_commas(names);
    lemma_arguments(names);
    assert("free"@.len() != "forall"@.len());
    lemma_heads();
    lemma_declaration(before, "free"@, commas(names));
    assert("free"@ + "("@ =~= "free("@);
}

#[verifier::rlimit(40)]
proof fn lemma_output_line(before: Seq<Statement>, term: Term)
    requires
        may_follow(before, Statement::Output(term)),
    ensures
        line_of(before, statement_line(Statement::Output(term))) == Ok::<Option<Statement>, Seq<char>>(Some(Statement::Output(term))),
        is_line(statement_line(Statement::Output(term))),
{
    reveal_strlit("output(");
    reveal_strlit("output");
    reveal_strlit("exists");
    reveal_strlit("forall");
    reveal_strlit("free");
    reveal_strlit("(");
    let parts = seq![term_text(term)];
    lemma_term_plain(term);
    assert forall|i: int| 0 <= i < parts.len() implies plain(#[trigger] parts[i]) by {}
    lemma_commas(parts);
    lemma_arguments(parts);
    assert(commas(parts) == term_text(term));
    assert("exists"@[0] == 'e' && "forall"@[0] == 'f' && "free"@[0] == 'f' && "output"@[0] == 'o');
    lemma_heads();
    lemma_declaration(before, "output"@, term_text(term));
    assert("output"@ + "("@ =~= "output("@);
}

proof fn lemma_op_text(op: GateOp)
    ensures
        plain(op_text(op)),
        op_text(op) != "exists"@,
        op_text(op) != "forall"@,
        op != GateOp::And ==> op_text(op) != "and"@,
        op != GateOp::Or ==> op_text(op) != "or"@,
        op != GateOp::Xor ==> op_text(op) != "xor"@,
        op != GateOp::Ite ==> op_text(op) != "ite"@,
{
    reveal_strlit("and");
    reveal_strlit("or");
    reveal_strlit("xor");
    reveal_strlit("ite");
    reveal_strlit("exists");
    reveal_strlit("forall");
    assert("and"@[0] == 'a' && "or"@[0] == 'o' && "xor"@[0] == 'x' && "ite"@[0] == 'i');
    assert("exists"@.len() == 6 && "forall"@.len() == 6);
    let s = op_text(op);
    assert forall|i: int| 0 <= i < s.len() implies identifier_char(#[trigger] s[i]) by {}
    lemma_term_plain(Term { name: s, positive: true });
}

/// A text of the shape `head(inner)` is taken apart where it was put
/// together.
#[verifier::rlimit(40)]
proof fn lemma_taken_apart(head: Seq<char>, inner: Seq<char>)
    requires
        plain(head),
        !has_char(inner, '\n'),
    ensures
        ({
            let text = head + "("@ + inner + ")"@;
            let rest = text.subrange(head.len() as int + 1, text.len() as int);
            &&& trimmed(" "@ + text) == text
            &&& position(text, '(') == Some(head.len())
            &&& trimmed(text.subrange(0, head.len() as int)) == head
            &&& rest.len() > 0
            &&& rest.last() == ')'
            &&& rest.subrange(0, rest.len() - 1) == inner
            &&& !has_char(text, '\n')
            &&& text.len() > 0
            &&& text.last() == ')'
        }),
{
    reveal_strlit("(");
    reveal_strlit(")");
    let text = head + "("@ + inner + ")"@;
    let rest = inner + ")"@;
    assert(text[0] == head[0] && text.last() == ')');
    lemma_tight_behind(text);
    assert(text =~= head + seq!['('] + rest);
    lemma_position(head, '(', rest);
    assert(text.subrange(head.len() as int + 1, text.len() as int) =~= rest);
    assert(text.subrange(0, head.len() as int) =~= head);
    lemma_tight(head);
    assert(rest.subrange(0, rest.len() - 1) =~= inner);
    lemma_has_concat(head, "("@, '\n');
    lemma_has_concat(head + "("@, inner, '\n');
    lemma_has_concat(head + "("@ + inner, ")"@, '\n');
    lemma_marks();
}

/// An operation is read by its name.
proof fn lemma_gate_of(name: Seq<char>, op: GateOp, args: Seq<Term>)
    requires
        proper_arity(op, args.len()),
    ensures
        gate_of(name, op_text(op), args) == Ok::<Statement, Seq<char>>(Statement::Gate(name, op, args)),
{
    lemma_op_text(op);
}

/// The operation and the arguments of a gate are read as they were written.
#[verifier::rlimit(40)]
proof fn lemma_definition(name: Seq<char>, op: GateOp, args: Seq<Term>)
    requires
        forall|i: int| 0 <= i < args.len() ==> identifier((#[trigger] args[i]).name),
        proper_arity(op, args.len()),
    ensures
        ({
            let definition = op_text(op) + "("@ + commas(term_texts(args)) + ")"@;
            &&& definition_of(name, " "@ + definition) == Ok::<Statement, Seq<char>>(Statement::Gate(name, op, args))
            &&& !has_char(definition, '\n')
            &&& definition.len() > 0
            &&& definition.last() == ')'
        }),
{
    let ops = op_text(op);
    let parts = term_texts(args);
    let inner = commas(parts);
    lemma_op_text(op);
    lemma_terms_of(args);
    lemma_commas(parts);
    lemma_arguments(parts);
    lemma_taken_apart(ops, inner);
    lemma_gate_of(name, op, args);
    let definition = ops + "("@ + inner + ")"@;
    let rest = definition.subrange(ops.len() as int + 1, definition.len() as int);
    assert(terms_of(arguments(rest.subrange(0, rest.len() - 1))) == Ok::<Seq<Term>, Seq<char>>(args));
}

/// A line of the shape `name = definition` is one of a gate.
#[verifier::rlimit(40)]
proof fn lemma_equation(before: Seq<Statement>, name: Seq<char>, definition: Seq<char>)
    requires
        plain(name),
        !has_char(definition, '\n'),
        definition.len() > 0,
        definition.last() == ')',
        position(name + " = "@ + definition, '(') is Some,
    ensures
        ({
            let line = name + " = "@ + definition;
            &&& is_line(line)
            &&& line_of(before, line) == (match gate_line(before, name + " "@, " "@ + definition) {
                Ok(statement) => Ok(Some(statement)),
                Err(message) => Err(message),
            })
        }),
{
    reveal_strlit(" = ");
    reveal_strlit(" ");
    let line = name + " = "@ + definition;
    lemma_has_concat(name, " "@, '=');
    lemma_marks();
    assert(line =~= (name + " "@) + seq!['='] + (" "@ + definition));
    lemma_position(name + " "@, '=', " "@ + definition);
    let n = name.len() as int + 1;
    assert(line.subrange(0, n) =~= name + " "@);
    assert(line.subrange(n + 1, line.len() as int) =~= " "@ + definition);
    assert(line[0] == name[0] && line.last() == ')');
    lemma_tight(line);
    lemma_has_concat(name, " = "@, '\n');
    lemma_has_concat(name + " = "@, definition, '\n');
    lemma_marks();
    lemma_one_line(line);
}

#[verifier::rlimit(40)]
proof fn lemma_gate_line(before: Seq<Statement>, name: Seq<char>, op: GateOp, args: Seq<Term>)
    requires
        may_follow(before, Statement::Gate(name, op, args)),
    ensures
        line_of(before, statement_line(Statement::Gate(name, op, args))) == Ok::<Option<Statement>, Seq<char>>(
            Some(Statement::Gate(name, op, args)),
        ),
        is_line(statement_line(Statement::Gate(name, op, args))),
{
    let ops = op_text(op);
    let inner = commas(term_texts(args));
    let definition = ops + "("@ + inner + ")"@;
    let line = name + " = "@ + ops + "("@ + inner + ")"@;
    lemma_term_plain(Term { name, positive: true });
    lemma_definition(name, op, args);
    assert(position(line, '(') is Some) by {
        reveal_strlit("(");
        reveal_strlit(" = ");
        lemma_op_text(op);
        let head = name + " = "@ + ops;
        lemma_has_concat(name + " = "@, ops, '(');
        lemma_has_concat(name, " = "@, '(');
        lemma_marks();
        assert(line =~= head + seq!['('] + (inner + ")"@));
        lemma_position(head, '(', inner + ")"@);
    }
    assert(line =~= name + " = "@ + definition);
    lemma_equation(before, name, definition);
    lemma_tight_before(name);
}

/// A statement is read as it was written.
pub proof fn law_statements_read_back(before: Seq<Statement>, statement: Statement)
    requires
        may_follow(before, statement),
    ensures
        line_of(before, statement_line(statement)) == Ok::<Option<Statement>, Seq<char>>(Some(statement)),
        is_line(statement_line(statement)),
{
    match statement {
        Statement::Block(q, names) => lemma_block_line(before, q, names),
        Statement::Output(term) => lemma_output_line(before, term),
        Statement::Gate(name, op, args) => lemma_gate_line(before, name, op, args),
    }
}

proof fn lemma_statements(statements: Seq<Statement>, count: int)
    requires
        in_order(statements),
        0 <= count <= statements.len(),
    ensures
        statements_of(statement_lines(statements), count) == Ok::<Seq<Statement>, (int, Seq<char>)>(statements.take(count)),
    decreases count,
{
    if count == 0 {
        assert(statements.take(0) =~= Seq::<Statement>::empty());
    } else {
        lemma_statements(statements, count - 1);
        assert(may_follow(statements.take(count - 1), statements[count - 1]));
        law_statements_read_back(statements.take(count - 1), statements[count - 1]);
        assert(statements.take(count - 1).push(statements[count - 1]) =~= statements.take(count));
    }
}

/// Reading the lines of statements gives the statements; the formula of the
/// text answers the instance that they state.
pub proof fn law_instances_read_back(statements: Seq<Statement>, result: Result<Qcir, ParseError>)
    requires
        in_order(statements),
        reads_qcir(sheet(statement_lines(statements)), result),
        acyclic(statements),
    ensures
        statements_of(lines(sheet(statement_lines(statements))), statements.len() as int) == Ok::<Seq<Statement>, (int, Seq<char>)>(statements),
        result matches Ok(qcir) ==> formula_true(qcir.qcnf.blocks(), qcir.qcnf.clauses()) == (instance_true(statements) != qcir.negated),
        result is Err ==> !has_output(statements) || crate::qcir::read::names_of(statements).len() > crate::qcir::formula::NAME_LIMIT
            || crate::qcir::instance_blocks(statements).len() > 2,
{
    let ls = statement_lines(statements);
    let text = sheet(ls);
    assert forall|i: int| 0 <= i < ls.len() implies is_line(#[trigger] ls[i]) by {
        assert(may_follow(statements.take(i), statements[i]));
        law_statements_read_back(statements.take(i), statements[i]);
    }
    lemma_lines(ls, Seq::empty());
    assert(text + Seq::<char>::empty() =~= text);
    assert(lines(text) == ls);
    lemma_statements(statements, statements.len() as int);
    assert(statements.take(statements.len() as int) =~= statements);
    match result {
        Ok(qcir) => {
            law_formulas_answer_the_instance(text, statements, qcir);
        },
        Err(error) => {
            if has_output(statements) {
                lemma_output_some(statements);
            }
        },
    }
}

proof fn lemma_terms_identify(tokens: Seq<Seq<char>>)
    requires
        terms_of(tokens) is Ok,
    ensures
        forall|i: int| 0 <= i < (terms_of(tokens)->Ok_0).len() ==> identifier((#[trigger] (terms_of(tokens)->Ok_0)[i]).name),
    decreases tokens.len(),
{
    if tokens.len() > 0 {
        let before = terms_of(tokens.drop_last())->Ok_0;
        let all = terms_of(tokens)->Ok_0;
        lemma_terms_identify(tokens.drop_last());
        assert forall|i: int| 0 <= i < all.len() implies identifier((#[trigger] all[i]).name) by {
            if i < before.len() {
                assert(all[i] == before[i]);
            }
        }
    }
}

proof fn lemma_variables_identify(tokens: Seq<Seq<char>>)
    requires
        variables_of(tokens) is Ok,
    ensures
        forall|i: int| 0 <= i < (variables_of(tokens)->Ok_0).len() ==> identifier(#[trigger] (variables_of(tokens)->Ok_0)[i]),
    decreases tokens.len(),
{
    if tokens.len() > 0 {
        let before = variables_of(tokens.drop_last())->Ok_0;
        let all = variables_of(tokens)->Ok_0;
        lemma_variables_identify(tokens.drop_last());
        assert forall|i: int| 0 <= i < all.len() implies identifier(#[trigger] all[i]) by {
            if i < before.len() {
                assert(all[i] == before[i]);
            }
        }
    }
}

/// A line that is read as a statement may stand where it stands.
#[verifier::rlimit(40)]
pub proof fn law_read_statements_may_follow(before: Seq<Statement>, raw: Seq<char>)
    requires
        line_of(before, raw) matches Ok(Some(_)),
    ensures
        may_follow(before, line_of(before, raw)->Ok_0->0),
{
    let line = trimmed(raw);
    let content = if line.last() == ';' { line.subrange(0, line.len() - 1) } else { line };
    let open = position(content, '(')->0;
    match position(content, '=') {
        Some(equals) => {
            let text = content.subrange(equals as int + 1, content.len() as int);
            let definition = trimmed(text);
            let at = position(definition, '(')->0;
            let rest = definition.subrange(at as int + 1, definition.len() as int);
            lemma_terms_identify(arguments(rest.subrange(0, rest.len() - 1)));
        },
        None => {
            let head = trimmed(content.subrange(0, open as int));
            let rest = content.subrange(open as int + 1, content.len() as int);
            let inner = rest.subrange(0, rest.len() - 1);
            if head == "free"@ || head == "exists"@ || head == "forall"@ {
                lemma_variables_identify(arguments(inner));
            }
        },
    }
}

/// The statements of every text that is read are in order: blocks before
/// one output, gates behind it, and none defined twice.
pub proof fn law_read_statements_are_in_order(ls: Seq<Seq<char>>, count: int)
    requires
        statements_of(ls, count) is Ok,
    ensures
        in_order(statements_of(ls, count)->Ok_0),
    decreases count,
{
    if count > 0 {
        law_read_statements_are_in_order(ls, count - 1);
        let before = statements_of(ls, count - 1)->Ok_0;
        let all = statements_of(ls, count)->Ok_0;
        match line_of(before, ls[count - 1]) {
            Ok(Some(statement)) => {
                law_read_statements_may_follow(before, ls[count - 1]);
                assert forall|i: int| 0 <= i < all.len() implies may_follow(all.take(i), #[trigger] all[i]) by {
                    if i < before.len() {
                        assert(all[i] == before[i]);
                        assert(all.take(i) =~= before.take(i));
                    } else {
                        assert(all.take(i) =~= before);
                    }
                }
            },
            _ => {},
        }
    }
}

proof fn lemma_output_some(statements: Seq<Statement>)
    requires
        has_output(statements),
    ensures
        output_of(statements) is Some,
    decreases statements.len(),
{
    let i = choose|i: int| 0 <= i < statements.len() && (#[trigger] statements[i]) is Output;
    if !(statements.last() is Output) {
        assert(statements.drop_last()[i] == statements[i]);
        lemma_output_some(statements.drop_last());
    }
}

} // verus!
