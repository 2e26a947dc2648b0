//! Reading the statements of a circuit.
use crate::qcir::names::{all_noted, distinct_names, lemma_all_noted, lemma_distinct, lemma_noted, noted, Interner};
use crate::quantifier::QuantTy;
use crate::scan::{char_lists, chars_of, find, part, position, push_chars, same_text, split, split_of, trim, trimmed};
use std::collections::HashSet;
use vstd::prelude::*;
use vstd::std_specs::hash::*;
use vstd::string::*;

verus! {

broadcast use vstd::std_specs::hash::group_hash_axioms;

/// The operation of a gate.
#[derive(Debug, Clone, Copy, PartialEq, Eq, Structural)]
pub enum GateOp {
    And,
    Or,
    Xor,
    Ite,
}

/// The arity is that of the operation.
pub open spec fn proper_arity(op: GateOp, count: nat) -> bool {
    match op {
        GateOp::And => true,
        GateOp::Or => true,
        GateOp::Xor => count == 2,
        GateOp::Ite => count == 3,
    }
}

/// An identifier, negated or not.
pub ghost struct Term {
    pub name: Seq<char>,
    pub positive: bool,
}

/// A statement of a circuit.
pub ghost enum Statement {
    Block(QuantTy, Seq<Seq<char>>),
    Output(Term),
    Gate(Seq<char>, GateOp, Seq<Term>),
}

/// The character may occur in an identifier.
pub open spec fn identifier_char(c: char) -> bool {
    'a' <= c <= 'z' || 'A' <= c <= 'Z' || '0' <= c <= '9' || c == '_'
}

pub open spec fn identifier(name: Seq<char>) -> bool {
    name.len() > 0 && forall|i: int| 0 <= i < name.len() ==> identifier_char(#[trigger] name[i])
}

/// A literal token: an optionally negated identifier.
pub open spec fn term_of(token: Seq<char>) -> Result<Term, Seq<char>> {
    let negated = token.len() > 0 && token[0] == '-';
    let name = if negated {
        token.subrange(1, token.len() as int)
    } else {
        token
    };
    if identifier(name) {
        Ok(Term { name, positive: !negated })
    } else {
        Err("invalid identifier "@ + token)
    }
}

/// The comma-separated arguments of a text.
pub open spec fn arguments(text: Seq<char>) -> Seq<Seq<char>> {
    let inner = trimmed(text);
    if inner.len() == 0 {
        Seq::empty()
    } else {
        Seq::new(split(inner, ',').len(), |i: int| trimmed(split(inner, ',')[i]))
    }
}

/// The terms of tokens.
pub open spec fn terms_of(tokens: Seq<Seq<char>>) -> Result<Seq<Term>, Seq<char>>
    decreases tokens.len(),
{
    if tokens.len() == 0 {
        Ok(Seq::empty())
    } else {
        match terms_of(tokens.drop_last()) {
            Err(message) => Err(message),
            Ok(terms) => match term_of(tokens.last()) {
                Err(message) => Err(message),
                Ok(term) => Ok(terms.push(term)),
            },
        }
    }
}

/// The declared variables of tokens.
pub open spec fn variables_of(tokens: Seq<Seq<char>>) -> Result<Seq<Seq<char>>, Seq<char>>
    decreases tokens.len(),
{
    if tokens.len() == 0 {
        Ok(Seq::empty())
    } else {
        match variables_of(tokens.drop_last()) {
            Err(message) => Err(message),
            Ok(names) => match term_of(tokens.last()) {
                Err(message) => Err(message),
                Ok(term) => if term.positive {
                    Ok(names.push(term.name))
                } else {
                    Err("declared variables must not be negated"@)
                },
            },
        }
    }
}

pub open spec fn has_output(statements: Seq<Statement>) -> bool {
    exists|i: int| 0 <= i < statements.len() && (#[trigger] statements[i]) is Output
}

/// Some gate defines the name.
pub open spec fn defines(statements: Seq<Statement>, name: Seq<char>) -> bool {
    exists|i: int| 0 <= i < statements.len() && defines_it(#[trigger] statements[i], name)
}

pub open spec fn defines_it(statement: Statement, name: Seq<char>) -> bool {
    statement matches Statement::Gate(gate, op, args) && gate == name
}

/// What an operation makes of its arguments.
pub open spec fn gate_of(name: Seq<char>, op: Seq<char>, args: Seq<Term>) -> Result<Statement, Seq<char>> {
    if op == "and"@ {
        Ok(Statement::Gate(name, GateOp::And, args))
    } else if op == "or"@ {
        Ok(Statement::Gate(name, GateOp::Or, args))
    } else if op == "xor"@ {
        if args.len() == 2 {
            Ok(Statement::Gate(name, GateOp::Xor, args))
        } else {
            Err("xor takes exactly two arguments"@)
        }
    } else if op == "ite"@ {
        if args.len() == 3 {
            Ok(Statement::Gate(name, GateOp::Ite, args))
        } else {
            Err("ite takes exactly three arguments"@)
        }
    } else {
        Err("unsupported gate operation "@ + op)
    }
}

/// The operation and the arguments of a definition, for a gate.
pub open spec fn definition_of(name: Seq<char>, text: Seq<char>) -> Result<Statement, Seq<char>> {
    let definition = trimmed(text);
    match position(definition, '(') {
        None => Err("expected a gate definition"@),
        Some(open) => {
            let rest = definition.subrange(open as int + 1, definition.len() as int);
            let op = trimmed(definition.subrange(0, open as int));
            if rest.len() == 0 || rest.last() != ')' {
                Err("expected a closing parenthesis"@)
            } else if op == "exists"@ || op == "forall"@ {
                Err("only prenex instances are supported"@)
            } else {
                match terms_of(arguments(rest.subrange(0, rest.len() - 1))) {
                    Err(message) => Err(message),
                    Ok(args) => gate_of(name, op, args),
                }
            }
        },
    }
}

/// A line of the shape `name = op(args)`.
pub open spec fn gate_line(statements: Seq<Statement>, name: Seq<char>, definition: Seq<char>) -> Result<Statement, Seq<char>> {
    if !has_output(statements) {
        Err("gate definitions must follow the output declaration"@)
    } else {
        match term_of(trimmed(name)) {
            Err(message) => Err(message),
            Ok(gate) => if !gate.positive {
                Err("a gate name must not be negated"@)
            } else if defines(statements, gate.name) {
                Err("gate "@ + trimmed(name) + " is defined twice"@)
            } else {
                definition_of(gate.name, definition)
            },
        }
    }
}

/// A line of the shape `head(args)`.
pub open spec fn declaration_line(statements: Seq<Statement>, head: Seq<char>, rest: Seq<char>) -> Result<Statement, Seq<char>> {
    let inner = rest.subrange(0, rest.len() - 1);
    if rest.len() == 0 || rest.last() != ')' {
        Err("expected a closing parenthesis"@)
    } else if head == "free"@ || head == "exists"@ || head == "forall"@ {
        if has_output(statements) {
            Err("quantifier blocks must precede the output"@)
        } else {
            match variables_of(arguments(inner)) {
                Err(message) => Err(message),
                Ok(names) => Ok(Statement::Block(if head == "forall"@ { QuantTy::Forall } else { QuantTy::Exists }, names)),
            }
        }
    } else if head == "output"@ {
        if has_output(statements) {
            Err("duplicate output declaration"@)
        } else if arguments(inner).len() != 1 {
            Err("output takes exactly one literal"@)
        } else {
            match term_of(arguments(inner)[0]) {
                Err(message) => Err(message),
                Ok(term) => Ok(Statement::Output(term)),
            }
        }
    } else {
        Err("unsupported declaration "@ + head)
    }
}

/// A line that is neither blank nor a comment, without a closing semicolon.
pub open spec fn content_line(statements: Seq<Statement>, line: Seq<char>) -> Result<Statement, Seq<char>> {
    match position(line, '(') {
        None => Err("expected a declaration or gate definition"@),
        Some(open) => match position(line, '=') {
            Some(equals) => gate_line(statements, line.subrange(0, equals as int), line.subrange(equals as int + 1, line.len() as int)),
            None => declaration_line(
                statements,
                trimmed(line.subrange(0, open as int)),
                line.subrange(open as int + 1, line.len() as int),
            ),
        },
    }
}

/// The statement of a line, after the statements before it.
pub open spec fn line_of(statements: Seq<Statement>, raw: Seq<char>) -> Result<Option<Statement>, Seq<char>> {
    let line = trimmed(raw);
    if line.len() == 0 || line[0] == '#' {
        Ok(None)
    } else {
        let content = if line.last() == ';' { line.subrange(0, line.len() - 1) } else { line };
        match content_line(statements, content) {
            Ok(statement) => Ok(Some(statement)),
            Err(message) => Err(message),
        }
    }
}

/// The statements of the first lines, or the first error with its line.
pub open spec fn statements_of(lines: Seq<Seq<char>>, count: int) -> Result<Seq<Statement>, (int, Seq<char>)>
    decreases count,
{
    if count <= 0 {
        Ok(Seq::empty())
    } else {
        match statements_of(lines, count - 1) {
            Err(error) => Err(error),
            Ok(statements) => match line_of(statements, lines[count - 1]) {
                Err(message) => Err((count, message)),
                Ok(None) => Ok(statements),
                Ok(Some(statement)) => Ok(statements.push(statement)),
            },
        }
    }
}

/// The names of terms.
pub open spec fn term_names(terms: Seq<Term>) -> Seq<Seq<char>> {
    Seq::new(terms.len(), |i: int| terms[i].name)
}

/// The names that a statement mentions, in order.
pub open spec fn mentioned(statement: Statement) -> Seq<Seq<char>> {
    match statement {
        Statement::Block(q, names) => names,
        Statement::Output(term) => seq![term.name],
        Statement::Gate(name, op, args) => seq![name] + term_names(args),
    }
}

/// The names that statements mention, in order.
pub open spec fn all_mentioned(statements: Seq<Statement>) -> Seq<Seq<char>>
    decreases statements.len(),
{
    if statements.len() == 0 {
        Seq::empty()
    } else {
        all_mentioned(statements.drop_last()) + mentioned(statements.last())
    }
}

/// The identifiers of a circuit, in the order of their first occurrence.
pub open spec fn names_of(statements: Seq<Statement>) -> Seq<Seq<char>> {
    distinct_names(all_mentioned(statements))
}

/// A statement over numbered identifiers.
pub enum Parsed {
    Block(QuantTy, Vec<usize>),
    Output(usize, bool),
    Gate(usize, GateOp, Vec<(usize, bool)>),
}

/// The terms of numbered identifiers.
pub open spec fn numbered_terms(names: Seq<Seq<char>>, args: Seq<(usize, bool)>) -> Seq<Term> {
    Seq::new(args.len(), |i: int| Term { name: names[args[i].0 as int], positive: args[i].1 })
}

pub open spec fn numbered_names(names: Seq<Seq<char>>, ids: Seq<usize>) -> Seq<Seq<char>> {
    Seq::new(ids.len(), |i: int| names[ids[i] as int])
}

/// The statement that numbered identifiers stand for.
pub open spec fn meaning(names: Seq<Seq<char>>, parsed: Parsed) -> Statement {
    match parsed {
        Parsed::Block(q, ids) => Statement::Block(q, numbered_names(names, ids@)),
        Parsed::Output(id, positive) => Statement::Output(Term { name: names[id as int], positive }),
        Parsed::Gate(id, op, args) => Statement::Gate(names[id as int], op, numbered_terms(names, args@)),
    }
}

/// All numbers are those of identifiers.
pub open spec fn in_table(count: nat, parsed: Parsed) -> bool {
    match parsed {
        Parsed::Block(q, ids) => forall|i: int| 0 <= i < ids@.len() ==> #[trigger] ids@[i] < count,
        Parsed::Output(id, positive) => id < count,
        Parsed::Gate(id, op, args) => id < count && proper_arity(op, args@.len()) && forall|i: int| 0 <= i < args@.len() ==> (#[trigger] args@[i]).0 < count,
    }
}

pub open spec fn meanings(names: Seq<Seq<char>>, statements: Seq<Parsed>) -> Seq<Statement> {
    Seq::new(statements.len(), |i: int| meaning(names, statements[i]))
}

/// More names do not change what statements mean.
proof fn lemma_meaning_kept(names: Seq<Seq<char>>, more: Seq<Seq<char>>, statements: Seq<Parsed>)
    requires
        names.len() <= more.len(),
        more.take(names.len() as int) == names,
        forall|i: int| 0 <= i < statements.len() ==> in_table(names.len(), #[trigger] statements[i]),
    ensures
        meanings(more, statements) == meanings(names, statements),
        forall|i: int| 0 <= i < statements.len() ==> in_table(more.len(), #[trigger] statements[i]),
{
    assert forall|k: int| 0 <= k < names.len() implies #[trigger] more[k] == names[k] by {
        assert(more.take(names.len() as int)[k] == names[k]);
    }
    assert forall|i: int| 0 <= i < statements.len() implies meaning(more, #[trigger] statements[i]) == meaning(names, statements[i]) && in_table(
        more.len(),
        statements[i],
    ) by {
        assert(in_table(names.len(), statements[i]));
        match statements[i] {
            Parsed::Block(q, ids) => {
                assert(numbered_names(more, ids@) =~= numbered_names(names, ids@));
            },
            Parsed::Output(id, positive) => {},
            Parsed::Gate(id, op, args) => {
                assert(numbered_terms(more, args@) =~= numbered_terms(names, args@));
            },
        }
    }
    assert(meanings(more, statements) =~= meanings(names, statements));
}

/// A text as a string.
fn text(message: &str) -> (result: String)
    ensures
        result@ == message@,
{
    let mut result = String::new();
    result.append(message);
    assert(result@ =~= message@);
    result
}

/// A text followed by characters.
fn text_with(message: &str, chars: &Vec<char>) -> (result: String)
    ensures
        result@ == message@ + chars@,
{
    let mut result = text(message);
    push_chars(&mut result, chars);
    result
}

fn is_text(chars: &Vec<char>, word: &str) -> (yes: bool)
    ensures
        yes == (chars@ == word@),
{
    let word = chars_of(word);
    same_text(chars, &word)
}

fn is_identifier(name: &Vec<char>) -> (yes: bool)
    ensures
        yes == identifier(name@),
{
    if name.len() == 0 {
        return false;
    }
    let mut k: usize = 0;
    while k < name.len()
        invariant
            k <= name.len(),
            forall|i: int| 0 <= i < k ==> identifier_char(#[trigger] name@[i]),
        decreases name.len() - k,
    {
        let c = name[k];
        if !(('a' <= c && c <= 'z') || ('A' <= c && c <= 'Z') || ('0' <= c && c <= '9') || c == '_') {
            assert(!identifier_char(name@[k as int]));
            return false;
        }
        k += 1;
    }
    true
}

/// The tokens between commas.
fn tokens_of(inner: &Vec<char>) -> (tokens: Vec<Vec<char>>)
    ensures
        char_lists(tokens@) == arguments(inner@),
{
    let mut tokens: Vec<Vec<char>> = Vec::new();
    let inner = trim(inner);
    if inner.len() == 0 {
        assert(char_lists(tokens@) =~= Seq::<Seq<char>>::empty());
        return tokens;
    }
    let pieces = split_of(&inner, ',');
    let mut k: usize = 0;
    while k < pieces.len()
        invariant
            k <= pieces.len(),
            tokens.len() == k,
            forall|i: int| 0 <= i < k ==> (#[trigger] tokens@[i])@ == trimmed(pieces@[i]@),
        decreases pieces.len() - k,
    {
        tokens.push(trim(&pieces[k]));
        k += 1;
    }
    proof {
        let all = split(inner@, ',');
        assert(char_lists(pieces@) == all);
        assert forall|i: int| 0 <= i < tokens@.len() implies (#[trigger] tokens@[i])@ == trimmed(all[i]) by {
            assert(char_lists(pieces@)[i] == pieces@[i]@);
        }
        assert(char_lists(tokens@) =~= Seq::new(all.len(), |i: int| trimmed(all[i])));
    }
    tokens
}

/// The number of a token's identifier.
fn read_term(interner: &mut Interner, token: &Vec<char>) -> (result: Result<(usize, bool), String>)
    requires
        old(interner).wf(),
    ensures
        match term_of(token@) {
            Ok(term) => {
                &&& final(interner).wf()
                &&& final(interner).names() == noted(old(interner).names(), term.name)
                &&& result is Ok
                &&& (result->Ok_0).0 < final(interner).names().len()
                &&& final(interner).names()[(result->Ok_0).0 as int] == term.name
                &&& (result->Ok_0).1 == term.positive
            },
            Err(message) => result is Err && (result->Err_0)@ == message && *final(interner) == *old(interner),
        },
{
    let negated = token.len() > 0 && token[0] == '-';
    let name = if negated {
        part(token, 1, token.len())
    } else {
        part(token, 0, token.len())
    };
    assert(token@.subrange(0, token@.len() as int) =~= token@);
    if !is_identifier(&name) {
        return Err(text_with("invalid identifier ", token));
    }
    let id = interner.intern(name);
    Ok((id, !negated))
}

/// The numbers of the terms of an argument list.
fn read_terms(interner: &mut Interner, inner: &Vec<char>) -> (result: Result<Vec<(usize, bool)>, String>)
    requires
        old(interner).wf(),
    ensures
        match terms_of(arguments(inner@)) {
            Ok(terms) => {
                &&& final(interner).wf()
                &&& final(interner).names() == all_noted(old(interner).names(), term_names(terms))
                &&& final(interner).names().len() >= old(interner).names().len()
                &&& final(interner).names().take(old(interner).names().len() as int) == old(interner).names()
                &&& result is Ok
                &&& forall|i: int| 0 <= i < (result->Ok_0)@.len() ==> (#[trigger] (result->Ok_0)@[i]).0 < final(interner).names().len()
                &&& numbered_terms(final(interner).names(), (result->Ok_0)@) == terms
            },
            Err(message) => result is Err && (result->Err_0)@ == message,
        },
{
    let tokens = tokens_of(inner);
    let ghost all = arguments(inner@);
    let ghost before = interner.names();
    let mut args: Vec<(usize, bool)> = Vec::new();
    let mut k: usize = 0;
    proof {
        assert(all.take(0) =~= Seq::<Seq<char>>::empty());
        assert(before.take(before.len() as int) =~= before);
        assert(term_names(Seq::<Term>::empty()) =~= Seq::<Seq<char>>::empty());
        assert(numbered_terms(before, args@) =~= Seq::<Term>::empty());
    }
    while k < tokens.len()
        invariant
            k <= tokens.len(),
            all == arguments(inner@),
            before == old(interner).names(),
            char_lists(tokens@) == all,
            interner.wf(),
            before.len() <= interner.names().len(),
            interner.names().take(before.len() as int) == before,
            terms_of(all.take(k as int)) is Ok,
            interner.names() == all_noted(before, term_names(terms_of(all.take(k as int))->Ok_0)),
            forall|i: int| 0 <= i < args@.len() ==> (#[trigger] args@[i]).0 < interner.names().len(),
            numbered_terms(interner.names(), args@) == terms_of(all.take(k as int))->Ok_0,
        decreases tokens.len() - k,
    {
        let ghost terms = terms_of(all.take(k as int))->Ok_0;
        let ghost names = interner.names();
        let ghost held = args@;
        proof {
            assert(all.take(k as int + 1).drop_last() =~= all.take(k as int));
            assert(all.take(k as int + 1).last() == all[k as int]);
            assert(char_lists(tokens@)[k as int] == tokens@[k as int]@);
        }
        match read_term(interner, &tokens[k]) {
            Ok(term) => {
                args.push(term);
                proof {
                    let t = term_of(all[k as int])->Ok_0;
                    lemma_noted(names, t.name);
                    let now = interner.names();
                    assert(term_names(terms.push(t)).drop_last() =~= term_names(terms));
                    assert(now.take(before.len() as int) =~= before) by {
                        assert forall|i: int| 0 <= i < before.len() implies now[i] == before[i] by {
                            assert(now.take(names.len() as int)[i] == names[i]);
                            assert(names.take(before.len() as int)[i] == before[i]);
                        }
                    }
                    assert forall|i: int| 0 <= i < args@.len() implies (#[trigger] args@[i]).0 < now.len() by {
                        if i < held.len() {
                            assert(held[i].0 < names.len());
                        }
                    }
                    assert(numbered_terms(now, args@) =~= terms.push(t)) by {
                        assert forall|i: int| 0 <= i < held.len() implies numbered_terms(now, args@)[i] == terms[i] by {
                            assert(numbered_terms(names, held)[i] == terms[i]);
                            assert(held[i].0 < names.len());
                            assert(now.take(names.len() as int)[held[i].0 as int] == names[held[i].0 as int]);
                        }
                    }
                }
            },
            Err(message) => {
                proof {
                    lemma_terms_error(all, k as int + 1);
                    assert(all.take(all.len() as int) =~= all);
                }
                return Err(message);
            },
        }
        k += 1;
    }
    assert(all.take(all.len() as int) =~= all);
    Ok(args)
}

/// An error in the first tokens is the error of all.
proof fn lemma_terms_error(tokens: Seq<Seq<char>>, k: int)
    requires
        0 <= k <= tokens.len(),
    ensures
        terms_of(tokens.take(k)) is Err ==> terms_of(tokens) == terms_of(tokens.take(k)),
        variables_of(tokens.take(k)) is Err ==> variables_of(tokens) == variables_of(tokens.take(k)),
    decreases tokens.len(),
{
    if k == tokens.len() {
        assert(tokens.take(k) =~= tokens);
    } else {
        lemma_terms_error(tokens.drop_last(), k);
        assert(tokens.drop_last().take(k) =~= tokens.take(k));
    }
}

/// The numbers of the variables of a block.
fn read_variables(interner: &mut Interner, inner: &Vec<char>) -> (result: Result<Vec<usize>, String>)
    requires
        old(interner).wf(),
    ensures
        match variables_of(arguments(inner@)) {
            Ok(names) => {
                &&& final(interner).wf()
                &&& final(interner).names() == all_noted(old(interner).names(), names)
                &&& final(interner).names().len() >= old(interner).names().len()
                &&& final(interner).names().take(old(interner).names().len() as int) == old(interner).names()
                &&& result is Ok
                &&& forall|i: int| 0 <= i < (result->Ok_0)@.len() ==> #[trigger] (result->Ok_0)@[i] < final(interner).names().len()
                &&& numbered_names(final(interner).names(), (result->Ok_0)@) == names
            },
            Err(message) => result is Err && (result->Err_0)@ == message,
        },
{
    let tokens = tokens_of(inner);
    let ghost all = arguments(inner@);
    let ghost before = interner.names();
    let mut ids: Vec<usize> = Vec::new();
    let mut k: usize = 0;
    proof {
        assert(all.take(0) =~= Seq::<Seq<char>>::empty());
        assert(before.take(before.len() as int) =~= before);
        assert(numbered_names(before, ids@) =~= Seq::<Seq<char>>::empty());
    }
    while k < tokens.len()
        invariant
            k <= tokens.len(),
            all == arguments(inner@),
            before == old(interner).names(),
            char_lists(tokens@) == all,
            interner.wf(),
            before.len() <= interner.names().len(),
            interner.names().take(before.len() as int) == before,
            variables_of(all.take(k as int)) is Ok,
            interner.names() == all_noted(before, variables_of(all.take(k as int))->Ok_0),
            forall|i: int| 0 <= i < ids@.len() ==> #[trigger] ids@[i] < interner.names().len(),
            numbered_names(interner.names(), ids@) == variables_of(all.take(k as int))->Ok_0,
        decreases tokens.len() - k,
    {
        let ghost listed = variables_of(all.take(k as int))->Ok_0;
        let ghost names = interner.names();
        let ghost held = ids@;
        proof {
            assert(all.take(k as int + 1).drop_last() =~= all.take(k as int));
            assert(all.take(k as int + 1).last() == all[k as int]);
            assert(char_lists(tokens@)[k as int] == tokens@[k as int]@);
            lemma_terms_error(all, k as int + 1);
        }
        match read_term(interner, &tokens[k]) {
            Ok(term) => {
                if !term.1 {
                    return Err(text("declared variables must not be negated"));
                }
                ids.push(term.0);
                proof {
                    let name = (term_of(all[k as int])->Ok_0).name;
                    lemma_noted(names, name);
                    let now = interner.names();
                    assert(listed.push(name).drop_last() =~= listed);
                    assert(now.take(before.len() as int) =~= before) by {
                        assert forall|i: int| 0 <= i < before.len() implies now[i] == before[i] by {
                            assert(now.take(names.len() as int)[i] == names[i]);
                            assert(names.take(before.len() as int)[i] == before[i]);
                        }
                    }
                    assert forall|i: int| 0 <= i < ids@.len() implies #[trigger] ids@[i] < now.len() by {
                        if i < held.len() {
                            assert(held[i] < names.len());
                        }
                    }
                    assert(numbered_names(now, ids@) =~= listed.push(name)) by {
                        assert forall|i: int| 0 <= i < held.len() implies numbered_names(now, ids@)[i] == listed[i] by {
                            assert(numbered_names(names, held)[i] == listed[i]);
                            assert(held[i] < names.len());
                            assert(now.take(names.len() as int)[held[i] as int] == names[held[i] as int]);
                        }
                    }
                }
            },
            Err(message) => {
                return Err(message);
            },
        }
        k += 1;
    }
    assert(all.take(all.len() as int) =~= all);
    Ok(ids)
}

/// The statements read so far.
pub struct Reader {
    interner: Interner,
    statements: Vec<Parsed>,
    output: bool,
    defined: HashSet<usize>,
}

impl Reader {
    /// The identifiers met so far.
    pub closed spec fn names(&self) -> Seq<Seq<char>> {
        self.interner.names()
    }

    /// The statements over numbered identifiers.
    pub closed spec fn parsed(&self) -> Seq<Parsed> {
        self.statements@
    }

    /// The statements read so far.
    pub open spec fn statements(&self) -> Seq<Statement> {
        meanings(self.names(), self.parsed())
    }

    /// The tables say what the statements say.
    pub closed spec fn wf(&self) -> bool {
        &&& self.interner.wf()
        &&& self.names() == names_of(self.statements())
        &&& forall|i: int| 0 <= i < self.statements@.len() ==> in_table(self.names().len(), #[trigger] self.statements@[i])
        &&& self.output == has_output(self.statements())
        &&& forall|id: usize|
            id < self.names().len() ==> (#[trigger] self.defined@.contains(id) <==> defines(self.statements(), self.names()[id as int]))
        &&& forall|id: usize| #[trigger] self.defined@.contains(id) ==> id < self.names().len()
    }

    /// The facts about the parts.
    pub proof fn lemma_parts(&self)
        requires
            self.wf(),
        ensures
            self.names() == names_of(self.statements()),
            forall|i: int| 0 <= i < self.parsed().len() ==> in_table(self.names().len(), #[trigger] self.parsed()[i]),
    {
    }

    /// No statements.
    pub fn new() -> (reader: Reader)
        ensures
            reader.wf(),
            reader.statements() == Seq::<Statement>::empty(),
    {
        let reader = Reader { interner: Interner::new(), statements: Vec::new(), output: false, defined: HashSet::new() };
        proof {
            assert(reader.statements() =~= Seq::<Statement>::empty());
            assert(all_mentioned(reader.statements()) =~= Seq::<Seq<char>>::empty());
        }
        reader
    }

    /// The identifiers and the statements.
    pub fn into_parts(self) -> (parts: (Vec<Vec<char>>, Vec<Parsed>))
        requires
            self.wf(),
        ensures
            char_lists(parts.0@) == self.names(),
            parts.1@ == self.parsed(),
    {
        (self.interner.into_names(), self.statements)
    }

    /// Adds a statement whose names have been met in order.
    fn push(&mut self, parsed: Parsed, Ghost(before): Ghost<Reader>, Ghost(statement): Ghost<Statement>)
        requires
            before.wf(),
            old(self).interner.wf(),
            old(self).statements@ == before.statements@,
            old(self).defined@ == before.defined@,
            old(self).output == before.output,
            old(self).names() == all_noted(before.names(), mentioned(statement)),
            before.names().len() <= old(self).names().len(),
            old(self).names().take(before.names().len() as int) == before.names(),
            in_table(old(self).names().len(), parsed),
            meaning(old(self).names(), parsed) == statement,
        ensures
            final(self).wf(),
            final(self).statements() == before.statements().push(statement),
    {
        let ghost names = self.names();
        let ghost stated = before.statements();
        proof {
            lemma_meaning_kept(before.names(), names, before.statements@);
            lemma_all_noted(all_mentioned(stated), mentioned(statement));
            assert(stated.push(statement).drop_last() =~= stated);
            lemma_distinct(all_mentioned(stated.push(statement)));
            lemma_distinct(all_mentioned(stated));
        }
        match &parsed {
            Parsed::Block(q, ids) => {},
            Parsed::Output(id, positive) => {
                self.output = true;
            },
            Parsed::Gate(id, op, args) => {
                self.defined.insert(*id);
            },
        }
        self.statements.push(parsed);
        proof {
            let now = self.statements();
            assert(now =~= stated.push(statement));
            assert(self.names() == names_of(now));
            assert forall|i: int| 0 <= i < self.statements@.len() implies in_table(self.names().len(), #[trigger] self.statements@[i]) by {
                if i < before.statements@.len() {
                    assert(in_table(names.len(), before.statements@[i]));
                }
            }
            assert(has_output(now) <==> has_output(stated) || statement is Output) by {
                if has_output(stated) {
                    let i = choose|i: int| 0 <= i < stated.len() && (#[trigger] stated[i]) is Output;
                    assert(now[i] is Output);
                }
                if statement is Output {
                    assert(now[stated.len() as int] is Output);
                }
                if has_output(now) {
                    let i = choose|i: int| 0 <= i < now.len() && (#[trigger] now[i]) is Output;
                    if i < stated.len() {
                        assert(stated[i] is Output);
                    }
                }
            }
            assert forall|name: Seq<char>| #[trigger] defines(now, name) <==> defines(stated, name) || defines_it(statement, name) by {
                if defines(stated, name) {
                    let i = choose|i: int| 0 <= i < stated.len() && defines_it(#[trigger] stated[i], name);
                    assert(defines_it(now[i], name));
                }
                if defines_it(statement, name) {
                    assert(defines_it(now[stated.len() as int], name));
                }
                if defines(now, name) {
                    let i = choose|i: int| 0 <= i < now.len() && defines_it(#[trigger] now[i], name);
                    if i < stated.len() {
                        assert(defines_it(stated[i], name));
                    }
                }
            }
            assert forall|id: usize| id < names.len() implies (#[trigger] self.defined@.contains(id) <==> defines(now, names[id as int])) by {
                if id < before.names().len() {
                    assert(names.take(before.names().len() as int)[id as int] == before.names()[id as int]);
                    assert(before.defined@.contains(id) <==> defines(stated, before.names()[id as int]));
                } else if defines(stated, names[id as int]) {
                    lemma_defined_is_met(stated, names[id as int]);
                    let k = choose|k: int| 0 <= k < before.names().len() && before.names()[k] == names[id as int];
                    assert(names.take(before.names().len() as int)[k] == before.names()[k]);
                    assert(names[k] == names[id as int]);
                }
                match parsed {
                    Parsed::Gate(gate, op, args) => {
                        if names[gate as int] == names[id as int] {
                            assert(gate == id);
                        }
                    },
                    _ => {},
                }
            }
        }
    }

    /// Reads a line of the shape `name = op(args)`.
    fn read_gate(&mut self, name: &Vec<char>, definition: &Vec<char>) -> (result: Result<(), String>)
        requires
            old(self).wf(),
        ensures
            match gate_line(old(self).statements(), name@, definition@) {
                Ok(statement) => result is Ok && final(self).wf() && final(self).statements() == old(self).statements().push(statement),
                Err(message) => result is Err && (result->Err_0)@ == message,
            },
    {
        let ghost before = *self;
        if !self.output {
            return Err(text("gate definitions must follow the output declaration"));
        }
        let name = trim(name);
        let gate = match read_term(&mut self.interner, &name) {
            Ok(gate) => gate,
            Err(message) => return Err(message),
        };
        let ghost named = term_of(name@)->Ok_0;
        let ghost middle = self.names();
        if !gate.1 {
            return Err(text("a gate name must not be negated"));
        }
        proof {
            lemma_noted(before.names(), named.name);
            lemma_distinct(all_mentioned(before.statements()));
        }
        if self.defined.contains(&gate.0) {
            proof {
                assert(middle.take(before.names().len() as int)[gate.0 as int] == before.names()[gate.0 as int]);
            }
            let mut message = text_with("gate ", &name);
            message.append(" is defined twice");
            return Err(message);
        }
        proof {
            if defines(before.statements(), named.name) {
                lemma_defined_is_met(before.statements(), named.name);
                assert(before.names().contains(named.name));
                assert(middle == before.names());
            }
        }
        let definition = trim(definition);
        let open = match find(&definition, '(') {
            Some(open) => open,
            None => return Err(text("expected a gate definition")),
        };
        let rest = part(&definition, open + 1, definition.len());
        if rest.len() == 0 || rest[rest.len() - 1] != ')' {
            return Err(text("expected a closing parenthesis"));
        }
        let head = part(&definition, 0, open);
        let op = trim(&head);
        if is_text(&op, "exists") || is_text(&op, "forall") {
            return Err(text("only prenex instances are supported"));
        }
        let inner = part(&rest, 0, rest.len() - 1);
        let args = match read_terms(&mut self.interner, &inner) {
            Ok(args) => args,
            Err(message) => return Err(message),
        };
        let ghost terms = terms_of(arguments(inner@))->Ok_0;
        let kind = if is_text(&op, "and") {
            GateOp::And
        } else if is_text(&op, "or") {
            GateOp::Or
        } else if is_text(&op, "xor") {
            if args.len() != 2 {
                return Err(text("xor takes exactly two arguments"));
            }
            GateOp::Xor
        } else if is_text(&op, "ite") {
            if args.len() != 3 {
                return Err(text("ite takes exactly three arguments"));
            }
            GateOp::Ite
        } else {
            return Err(text_with("unsupported gate operation ", &op));
        };
        let ghost statement = Statement::Gate(named.name, kind, terms);
        let ghost held = args@;
        let parsed = Parsed::Gate(gate.0, kind, args);
        proof {
            let names = self.names();
            assert(names.take(middle.len() as int)[gate.0 as int] == middle[gate.0 as int]);
            assert(meaning(names, parsed) == statement);
            assert(names.take(before.names().len() as int) =~= before.names()) by {
                assert forall|i: int| 0 <= i < before.names().len() implies names[i] == before.names()[i] by {
                    assert(names.take(middle.len() as int)[i] == middle[i]);
                    assert(middle.take(before.names().len() as int)[i] == before.names()[i]);
                }
            }
            lemma_all_noted_joined(before.names(), seq![named.name], term_names(terms));
            assert(seq![named.name].drop_last() =~= Seq::<Seq<char>>::empty());
            assert(all_noted(before.names(), seq![named.name]) == noted(all_noted(before.names(), Seq::empty()), named.name));
            assert(all_noted(before.names(), seq![named.name]) == middle);
            assert(mentioned(statement) == seq![named.name] + term_names(terms));
        }
        self.push(parsed, Ghost(before), Ghost(statement));
        Ok(())
    }

    /// Reads a line of the shape `head(args)`.
    fn read_declaration(&mut self, head: &Vec<char>, rest: &Vec<char>) -> (result: Result<(), String>)
        requires
            old(self).wf(),
        ensures
            match declaration_line(old(self).statements(), head@, rest@) {
                Ok(statement) => result is Ok && final(self).wf() && final(self).statements() == old(self).statements().push(statement),
                Err(message) => result is Err && (result->Err_0)@ == message,
            },
    {
        let ghost before = *self;
        if rest.len() == 0 || rest[rest.len() - 1] != ')' {
            return Err(text("expected a closing parenthesis"));
        }
        let inner = part(rest, 0, rest.len() - 1);
        let forall_head = is_text(head, "forall");
        if is_text(head, "free") || is_text(head, "exists") || forall_head {
            if self.output {
                return Err(text("quantifier blocks must precede the output"));
            }
            let quant = if forall_head {
                QuantTy::Forall
            } else {
                QuantTy::Exists
            };
            let ids = match read_variables(&mut self.interner, &inner) {
                Ok(ids) => ids,
                Err(message) => return Err(message),
            };
            let ghost names = variables_of(arguments(inner@))->Ok_0;
            let parsed = Parsed::Block(quant, ids);
            self.push(parsed, Ghost(before), Ghost(Statement::Block(quant, names)));
            return Ok(());
        }
        if is_text(head, "output") {
            if self.output {
                return Err(text("duplicate output declaration"));
            }
            let tokens = tokens_of(&inner);
            assert(char_lists(tokens@).len() == tokens@.len());
            if tokens.len() != 1 {
                return Err(text("output takes exactly one literal"));
            }
            assert(char_lists(tokens@)[0] == tokens@[0]@);
            let term = match read_term(&mut self.interner, &tokens[0]) {
                Ok(term) => term,
                Err(message) => return Err(message),
            };
            let ghost named = term_of(tokens@[0]@)->Ok_0;
            let parsed = Parsed::Output(term.0, term.1);
            proof {
                lemma_noted(before.names(), named.name);
                assert(seq![named.name].drop_last() =~= Seq::<Seq<char>>::empty());
                assert(all_noted(before.names(), seq![named.name]) == noted(all_noted(before.names(), Seq::empty()), named.name));
                assert(mentioned(Statement::Output(named)) == seq![named.name]);
            }
            self.push(parsed, Ghost(before), Ghost(Statement::Output(named)));
            return Ok(());
        }
        Err(text_with("unsupported declaration ", head))
    }

    /// Reads a line.
    pub fn read_line(&mut self, raw: &Vec<char>) -> (result: Result<(), String>)
        requires
            old(self).wf(),
        ensures
            match line_of(old(self).statements(), raw@) {
                Ok(None) => result is Ok && *final(self) == *old(self),
                Ok(Some(statement)) => result is Ok && final(self).wf() && final(self).statements() == old(self).statements().push(statement),
                Err(message) => result is Err && (result->Err_0)@ == message,
            },
    {
        let line = trim(raw);
        if line.len() == 0 || line[0] == '#' {
            return Ok(());
        }
        let end = if line[line.len() - 1] == ';' {
            line.len() - 1
        } else {
            line.len()
        };
        assert(line@.subrange(0, line@.len() as int) =~= line@);
        let line = part(&line, 0, end);
        let open = match find(&line, '(') {
            Some(open) => open,
            None => return Err(text("expected a declaration or gate definition")),
        };
        match find(&line, '=') {
            Some(equals) => {
                let name = part(&line, 0, equals);
                let definition = part(&line, equals + 1, line.len());
                self.read_gate(&name, &definition)
            },
            None => {
                let head = part(&line, 0, open);
                let head = trim(&head);
                let rest = part(&line, open + 1, line.len());
                self.read_declaration(&head, &rest)
            },
        }
    }
}

/// A defined name has been met.
proof fn lemma_defined_is_met(statements: Seq<Statement>, name: Seq<char>)
    requires
        defines(statements, name),
    ensures
        names_of(statements).contains(name),
{
    lemma_distinct(all_mentioned(statements));
    let i = choose|i: int| 0 <= i < statements.len() && defines_it(#[trigger] statements[i], name);
    assert(mentioned(statements[i])[0] == name);
    assert(mentioned(statements[i]).contains(name));
    lemma_mentioned(statements, i, name);
}

/// What a statement mentions is mentioned.
pub proof fn lemma_mentioned(statements: Seq<Statement>, i: int, name: Seq<char>)
    requires
        0 <= i < statements.len(),
        mentioned(statements[i]).contains(name),
    ensures
        all_mentioned(statements).contains(name),
    decreases statements.len(),
{
    let before = all_mentioned(statements.drop_last());
    let last = mentioned(statements.last());
    if i < statements.len() - 1 {
        assert(statements.drop_last()[i] == statements[i]);
        lemma_mentioned(statements.drop_last(), i, name);
        let k = choose|k: int| 0 <= k < before.len() && before[k] == name;
        assert((before + last)[k] == name);
    } else {
        let k = choose|k: int| 0 <= k < last.len() && last[k] == name;
        assert((before + last)[before.len() + k] == name);
    }
}

/// Names are noted one list after the other.
proof fn lemma_all_noted_joined(names: Seq<Seq<char>>, first: Seq<Seq<char>>, second: Seq<Seq<char>>)
    ensures
        all_noted(names, first + second) == all_noted(all_noted(names, first), second),
    decreases second.len(),
{
    if second.len() == 0 {
        assert(first + second =~= first);
    } else {
        lemma_all_noted_joined(names, first, second.drop_last());
        assert((first + second).drop_last() =~= first + second.drop_last());
        assert((first + second).last() == second.last());
    }
}

} // verus!
