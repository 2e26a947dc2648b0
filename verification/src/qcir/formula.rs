//! The formula of a circuit.
use crate::literal::{lit_of, var_of, Lit, Var};
use crate::qcir::names::{no_repeats, place};
use crate::qcir::read::{in_table, meaning, meanings, numbered_names, numbered_terms, proper_arity, GateOp, Parsed, Statement, Term};
use crate::qcnf::{matrix_of, prefix_of};
use crate::quantifier::QuantTy;
use crate::semantics::{clause_true, cube_true, lit_true, matrix_true, Assignment, Matrix, Prefix};
use vstd::prelude::*;

verus! {

broadcast use crate::literal::group_literal;

/// The largest number of identifiers.
pub const NAME_LIMIT: usize = 2_147_483_646;

/// The blocks with a declaration appended; adjacent blocks of one
/// quantifier merge.
pub open spec fn with_declared(blocks: Seq<(QuantTy, Seq<Seq<char>>)>, q: QuantTy, names: Seq<Seq<char>>) -> Seq<(QuantTy, Seq<Seq<char>>)> {
    if blocks.len() > 0 && blocks.last().0 == q {
        blocks.drop_last().push((q, blocks.last().1 + names))
    } else {
        blocks.push((q, names))
    }
}

/// The declared blocks.
pub open spec fn merged(statements: Seq<Statement>) -> Seq<(QuantTy, Seq<Seq<char>>)>
    decreases statements.len(),
{
    if statements.len() == 0 {
        Seq::empty()
    } else {
        let before = merged(statements.drop_last());
        match statements.last() {
            Statement::Block(q, names) => with_declared(before, q, names),
            _ => before,
        }
    }
}

/// The names of the gates, in order.
pub open spec fn gates_of(statements: Seq<Statement>) -> Seq<Seq<char>>
    decreases statements.len(),
{
    if statements.len() == 0 {
        Seq::empty()
    } else {
        let before = gates_of(statements.drop_last());
        match statements.last() {
            Statement::Gate(name, op, args) => before.push(name),
            _ => before,
        }
    }
}

/// The declared output.
pub open spec fn output_of(statements: Seq<Statement>) -> Option<Term>
    decreases statements.len(),
{
    if statements.len() == 0 {
        None
    } else {
        match statements.last() {
            Statement::Output(term) => Some(term),
            _ => output_of(statements.drop_last()),
        }
    }
}

/// The statement declares or defines the name.
pub open spec fn introduces(statement: Statement, name: Seq<char>) -> bool {
    match statement {
        Statement::Block(q, names) => names.contains(name),
        Statement::Output(term) => false,
        Statement::Gate(gate, op, args) => gate == name,
    }
}

/// Some statement declares or defines the name.
pub open spec fn introduced(statements: Seq<Statement>, name: Seq<char>) -> bool {
    exists|i: int| 0 <= i < statements.len() && introduces(#[trigger] statements[i], name)
}

/// The first names that no statement declares or defines.
pub open spec fn free_of(statements: Seq<Statement>, names: Seq<Seq<char>>, count: int) -> Seq<Seq<char>>
    decreases count,
{
    if count <= 0 {
        Seq::empty()
    } else {
        let before = free_of(statements, names, count - 1);
        if introduced(statements, names[count - 1]) {
            before
        } else {
            before.push(names[count - 1])
        }
    }
}

/// The blocks with free variables, which join the outermost existential
/// block.
pub open spec fn with_free(blocks: Seq<(QuantTy, Seq<Seq<char>>)>, free: Seq<Seq<char>>) -> Seq<(QuantTy, Seq<Seq<char>>)> {
    if free.len() == 0 {
        blocks
    } else if blocks.len() > 0 && blocks[0].0 == QuantTy::Exists {
        blocks.update(0, (QuantTy::Exists, free + blocks[0].1))
    } else {
        seq![(QuantTy::Exists, free)] + blocks
    }
}

/// The dual quantifier.
pub open spec fn dual(q: QuantTy) -> QuantTy {
    match q {
        QuantTy::Exists => QuantTy::Forall,
        QuantTy::Forall => QuantTy::Exists,
    }
}

/// The blocks with their quantifiers exchanged.
pub open spec fn flipped(blocks: Seq<(QuantTy, Seq<Seq<char>>)>) -> Seq<(QuantTy, Seq<Seq<char>>)> {
    Seq::new(blocks.len(), |i: int| (dual(blocks[i].0), blocks[i].1))
}

/// The blocks with the gates innermost.
pub open spec fn with_gates(blocks: Seq<(QuantTy, Seq<Seq<char>>)>, gates: Seq<Seq<char>>) -> Seq<(QuantTy, Seq<Seq<char>>)> {
    with_declared(blocks, QuantTy::Exists, gates)
}

/// The variable of a name.
pub open spec fn variable(names: Seq<Seq<char>>, name: Seq<char>) -> Var {
    var_of(place(names, name) + 1)
}

pub open spec fn variables(names: Seq<Seq<char>>, list: Seq<Seq<char>>) -> Seq<Var> {
    Seq::new(list.len(), |i: int| variable(names, list[i]))
}

/// The blocks over variables.
pub open spec fn mapped(names: Seq<Seq<char>>, blocks: Seq<(QuantTy, Seq<Seq<char>>)>) -> Prefix {
    Seq::new(blocks.len(), |i: int| (blocks[i].0, variables(names, blocks[i].1)))
}

/// The literal of a term.
pub open spec fn output_lit(names: Seq<Seq<char>>, term: Term) -> Lit {
    lit_of(variable(names, term.name), term.positive)
}

pub open spec fn term_lits(names: Seq<Seq<char>>, terms: Seq<Term>) -> Seq<Lit> {
    Seq::new(terms.len(), |i: int| output_lit(names, terms[i]))
}

pub open spec fn negations(lits: Seq<Lit>) -> Seq<Lit> {
    Seq::new(lits.len(), |i: int| lits[i].neg())
}

/// The two-sided clauses of a gate.
pub open spec fn gate_clauses(op: GateOp, g: Lit, args: Seq<Lit>) -> Matrix {
    match op {
        GateOp::And => Seq::new(args.len(), |i: int| seq![g.neg(), args[i]]).push(seq![g] + negations(args)),
        GateOp::Or => Seq::new(args.len(), |i: int| seq![g, args[i].neg()]).push(seq![g.neg()] + args),
        GateOp::Xor => seq![
            seq![g.neg(), args[0], args[1]],
            seq![g.neg(), args[0].neg(), args[1].neg()],
            seq![g, args[0].neg(), args[1]],
            seq![g, args[0], args[1].neg()],
        ],
        GateOp::Ite => seq![
            seq![g.neg(), args[0].neg(), args[1]],
            seq![g.neg(), args[0], args[2]],
            seq![g, args[0].neg(), args[1].neg()],
            seq![g, args[0], args[2].neg()],
        ],
    }
}

/// The clauses of a statement.
pub open spec fn statement_clauses(names: Seq<Seq<char>>, statement: Statement) -> Matrix {
    match statement {
        Statement::Gate(name, op, args) => gate_clauses(op, lit_of(variable(names, name), true), term_lits(names, args)),
        _ => Seq::empty(),
    }
}

/// The clauses of the gates, in order.
pub open spec fn circuit_clauses(names: Seq<Seq<char>>, statements: Seq<Statement>) -> Matrix
    decreases statements.len(),
{
    if statements.len() == 0 {
        Seq::empty()
    } else {
        circuit_clauses(names, statements.drop_last()) + statement_clauses(names, statements.last())
    }
}

/// The value that a gate has to have.
pub open spec fn gate_value(op: GateOp, args: Seq<Lit>, a: Assignment) -> bool {
    match op {
        GateOp::And => cube_true(a, args),
        GateOp::Or => clause_true(a, args),
        GateOp::Xor => lit_true(a, args[0]) != lit_true(a, args[1]),
        GateOp::Ite => if lit_true(a, args[0]) {
            lit_true(a, args[1])
        } else {
            lit_true(a, args[2])
        },
    }
}

/// The clauses of a gate say that it has its value.
pub proof fn law_gate_clauses_are_the_gate(op: GateOp, g: Lit, args: Seq<Lit>, a: Assignment)
    requires
        proper_arity(op, args.len()),
    ensures
        matrix_true(a, gate_clauses(op, g, args)) == (lit_true(a, g) == gate_value(op, args, a)),
{
    let m = gate_clauses(op, g, args);
    let n = args.len() as int;
    match op {
        GateOp::And => {
            let long = seq![g] + negations(args);
            assert(m[n] == long);
            assert forall|i: int| 0 <= i < n implies #[trigger] m[i] == seq![g.neg(), args[i]] by {}
            lemma_long(a, g, negations(args));
            assert(clause_true(a, negations(args)) == !cube_true(a, args)) by {
                lemma_negations(a, args);
            }
            if matrix_true(a, m) {
                assert(clause_true(a, m[n]));
                if lit_true(a, g) {
                    assert forall|i: int| 0 <= i < n implies lit_true(a, #[trigger] args[i]) by {
                        assert(clause_true(a, m[i]));
                        crate::aiger::qaiger::lemma_pair(a, g.neg(), args[i]);
                    }
                }
            }
            if lit_true(a, g) == gate_value(op, args, a) {
                assert forall|i: int| 0 <= i < m.len() implies clause_true(a, #[trigger] m[i]) by {
                    if i < n {
                        crate::aiger::qaiger::lemma_pair(a, g.neg(), args[i]);
                    }
                }
            }
        },
        GateOp::Or => {
            let long = seq![g.neg()] + args;
            assert(m[n] == long);
            assert forall|i: int| 0 <= i < n implies #[trigger] m[i] == seq![g, args[i].neg()] by {}
            lemma_long(a, g.neg(), args);
            if matrix_true(a, m) {
                assert(clause_true(a, m[n]));
                if clause_true(a, args) {
                    let i = choose|i: int| 0 <= i < n && lit_true(a, #[trigger] args[i]);
                    assert(clause_true(a, m[i]));
                    crate::aiger::qaiger::lemma_pair(a, g, args[i].neg());
                }
            }
            if lit_true(a, g) == gate_value(op, args, a) {
                assert forall|i: int| 0 <= i < m.len() implies clause_true(a, #[trigger] m[i]) by {
                    if i < n {
                        crate::aiger::qaiger::lemma_pair(a, g, args[i].neg());
                    }
                }
            }
        },
        GateOp::Xor => {
            let x = args[0];
            let y = args[1];
            crate::aiger::qaiger::lemma_triple(a, g.neg(), x, y);
            crate::aiger::qaiger::lemma_triple(a, g.neg(), x.neg(), y.neg());
            crate::aiger::qaiger::lemma_triple(a, g, x.neg(), y);
            crate::aiger::qaiger::lemma_triple(a, g, x, y.neg());
            lemma_four(a, m, seq![g.neg(), x, y], seq![g.neg(), x.neg(), y.neg()], seq![g, x.neg(), y], seq![g, x, y.neg()]);
        },
        GateOp::Ite => {
            let c = args[0];
            let t = args[1];
            let e = args[2];
            crate::aiger::qaiger::lemma_triple(a, g.neg(), c.neg(), t);
            crate::aiger::qaiger::lemma_triple(a, g.neg(), c, e);
            crate::aiger::qaiger::lemma_triple(a, g, c.neg(), t.neg());
            crate::aiger::qaiger::lemma_triple(a, g, c, e.neg());
            lemma_four(a, m, seq![g.neg(), c.neg(), t], seq![g.neg(), c, e], seq![g, c.neg(), t.neg()], seq![g, c, e.neg()]);
        },
    }
}

proof fn lemma_four(a: Assignment, m: Matrix, p: Seq<Lit>, q: Seq<Lit>, r: Seq<Lit>, s: Seq<Lit>)
    requires
        m.len() == 4,
        m[0] == p,
        m[1] == q,
        m[2] == r,
        m[3] == s,
    ensures
        matrix_true(a, m) == (clause_true(a, p) && clause_true(a, q) && clause_true(a, r) && clause_true(a, s)),
{
    if matrix_true(a, m) {
        assert(clause_true(a, m[0]) && clause_true(a, m[1]) && clause_true(a, m[2]) && clause_true(a, m[3]));
    }
    if clause_true(a, p) && clause_true(a, q) && clause_true(a, r) && clause_true(a, s) {
        assert forall|i: int| 0 <= i < m.len() implies clause_true(a, #[trigger] m[i]) by {
            assert(i == 0 || i == 1 || i == 2 || i == 3);
        }
    }
}

/// A clause with one more literal.
pub(crate) proof fn lemma_long(a: Assignment, l: Lit, rest: Seq<Lit>)
    ensures
        clause_true(a, seq![l] + rest) == (lit_true(a, l) || clause_true(a, rest)),
{
    let c = seq![l] + rest;
    if clause_true(a, c) {
        let i = choose|i: int| 0 <= i < c.len() && lit_true(a, #[trigger] c[i]);
        if i > 0 {
            assert(lit_true(a, rest[i - 1]));
        }
    }
    if lit_true(a, l) {
        assert(lit_true(a, c[0]));
    }
    if clause_true(a, rest) {
        let i = choose|i: int| 0 <= i < rest.len() && lit_true(a, #[trigger] rest[i]);
        assert(lit_true(a, c[i + 1]));
    }
}

pub(crate) proof fn lemma_negations(a: Assignment, lits: Seq<Lit>)
    ensures
        clause_true(a, negations(lits)) == !cube_true(a, lits),
{
    let n = negations(lits);
    assert forall|i: int| 0 <= i < lits.len() implies lit_true(a, #[trigger] n[i]) == !lit_true(a, lits[i]) by {}
    if !cube_true(a, lits) {
        let i = choose|i: int| 0 <= i < lits.len() && !lit_true(a, #[trigger] lits[i]);
        assert(lit_true(a, n[i]));
    }
    if clause_true(a, n) {
        let i = choose|i: int| 0 <= i < n.len() && lit_true(a, #[trigger] n[i]);
        assert(!lit_true(a, lits[i]));
    }
}

/// The statements are over the table.
pub open spec fn stated(table: Seq<Seq<char>>, parsed: Seq<Parsed>) -> bool {
    &&& no_repeats(table)
    &&& forall|i: int| 0 <= i < parsed.len() ==> in_table(table.len(), #[trigger] parsed[i])
}

proof fn lemma_taken(table: Seq<Seq<char>>, parsed: Seq<Parsed>, k: int)
    requires
        0 <= k < parsed.len(),
    ensures
        meanings(table, parsed).take(k + 1).drop_last() == meanings(table, parsed).take(k),
        meanings(table, parsed).take(k + 1).last() == meaning(table, parsed[k]),
{
    assert(meanings(table, parsed).take(k + 1).drop_last() =~= meanings(table, parsed).take(k));
}

/// The output of the statements.
pub fn find_output(parsed: &Vec<Parsed>, Ghost(table): Ghost<Seq<Seq<char>>>) -> (output: Option<(usize, bool)>)
    requires
        stated(table, parsed@),
    ensures
        match output {
            Some(term) => {
                &&& term.0 < table.len()
                &&& output_of(meanings(table, parsed@)) == Some(Term { name: table[term.0 as int], positive: term.1 })
            },
            None => output_of(meanings(table, parsed@)) is None,
        },
{
    let ghost all = meanings(table, parsed@);
    let mut output: Option<(usize, bool)> = None;
    let mut k: usize = 0;
    assert(all.take(0) =~= Seq::<Statement>::empty());
    while k < parsed.len()
        invariant
            k <= parsed.len(),
            all == meanings(table, parsed@),
            stated(table, parsed@),
            match output {
                Some(term) => {
                    &&& term.0 < table.len()
                    &&& output_of(all.take(k as int)) == Some(Term { name: table[term.0 as int], positive: term.1 })
                },
                None => output_of(all.take(k as int)) is None,
            },
        decreases parsed.len() - k,
    {
        proof {
            lemma_taken(table, parsed@, k as int);
            assert(in_table(table.len(), parsed@[k as int]));
        }
        match &parsed[k] {
            Parsed::Output(id, positive) => {
                output = Some((*id, *positive));
            },
            _ => {},
        }
        k += 1;
    }
    assert(all.take(all.len() as int) =~= all);
    output
}

/// The variable of an identifier.
fn variable_at(id: usize, Ghost(table): Ghost<Seq<Seq<char>>>) -> (x: Var)
    requires
        no_repeats(table),
        id < table.len() <= NAME_LIMIT,
    ensures
        x == variable(table, table[id as int]),
{
    let x = Var::from_dimacs(id as i32 + 1);
    proof {
        crate::literal::lemma_var_of(x);
        crate::qcir::names::lemma_place(table, id as int);
    }
    x
}

/// The literal of a term.
pub fn literal(id: usize, positive: bool, Ghost(table): Ghost<Seq<Seq<char>>>) -> (lit: Lit)
    requires
        no_repeats(table),
        id < table.len() <= NAME_LIMIT,
    ensures
        lit == output_lit(table, (Term { name: table[id as int], positive })),
{
    let x = variable_at(id, Ghost(table));
    let lit = Lit::from_var(x, positive);
    proof {
        crate::qcir::names::lemma_place(table, id as int);
        crate::literal::lemma_var_index(id as int);
        crate::literal::lemma_lit_of(x, positive);
        crate::literal::lemma_lit_ext(lit, lit_of(x, positive));
    }
    lit
}

/// The variables of identifiers.
fn variables_at(ids: &Vec<usize>, Ghost(table): Ghost<Seq<Seq<char>>>) -> (vars: Vec<Var>)
    requires
        no_repeats(table),
        table.len() <= NAME_LIMIT,
        forall|i: int| 0 <= i < ids@.len() ==> #[trigger] ids@[i] < table.len(),
    ensures
        vars@ == variables(table, numbered_names(table, ids@)),
{
    let mut vars: Vec<Var> = Vec::new();
    let mut k: usize = 0;
    while k < ids.len()
        invariant
            k <= ids.len(),
            no_repeats(table),
            table.len() <= NAME_LIMIT,
            forall|i: int| 0 <= i < ids@.len() ==> #[trigger] ids@[i] < table.len(),
            vars.len() == k,
            forall|i: int| 0 <= i < k ==> #[trigger] vars@[i] == variable(table, table[ids@[i] as int]),
        decreases ids.len() - k,
    {
        vars.push(variable_at(ids[k], Ghost(table)));
        k += 1;
    }
    assert(vars@ =~= variables(table, numbered_names(table, ids@)));
    vars
}

/// Appends a block, merging it with the last one of the same quantifier.
pub fn append_block(blocks: &mut Vec<(QuantTy, Vec<Var>)>, q: QuantTy, vars: Vec<Var>)
    ensures
        prefix_of(final(blocks)@) == (if old(blocks)@.len() > 0 && old(blocks)@.last().0 == q {
            prefix_of(old(blocks)@).drop_last().push((q, old(blocks)@.last().1@ + vars@))
        } else {
            prefix_of(old(blocks)@).push((q, vars@))
        }),
{
    let ghost before = blocks@;
    if blocks.len() > 0 && blocks[blocks.len() - 1].0 == q {
        let mut vars = vars;
        let ghost added = vars@;
        match blocks.pop() {
            Some((quant, mut block)) => {
                block.append(&mut vars);
                blocks.push((quant, block));
                assert(prefix_of(blocks@) =~= prefix_of(before).drop_last().push((q, before.last().1@ + added)));
            },
            None => {},
        }
    } else {
        blocks.push((q, vars));
        assert(prefix_of(blocks@) =~= prefix_of(before).push((q, vars@)));
    }
}

/// Appending a block and numbering its names commute.
pub proof fn lemma_mapped_declared(table: Seq<Seq<char>>, blocks: Seq<(QuantTy, Seq<Seq<char>>)>, q: QuantTy, list: Seq<Seq<char>>)
    ensures
        mapped(table, with_declared(blocks, q, list)) == (if blocks.len() > 0 && mapped(table, blocks).last().0 == q {
            mapped(table, blocks).drop_last().push((q, mapped(table, blocks).last().1 + variables(table, list)))
        } else {
            mapped(table, blocks).push((q, variables(table, list)))
        }),
{
    let m = mapped(table, blocks);
    if blocks.len() > 0 && blocks.last().0 == q {
        assert(variables(table, blocks.last().1 + list) =~= variables(table, blocks.last().1) + variables(table, list));
        assert(mapped(table, with_declared(blocks, q, list)) =~= m.drop_last().push((q, m.last().1 + variables(table, list))));
    } else {
        assert(mapped(table, with_declared(blocks, q, list)) =~= m.push((q, variables(table, list))));
    }
}

/// The declared blocks.
pub fn declared_blocks(parsed: &Vec<Parsed>, Ghost(table): Ghost<Seq<Seq<char>>>) -> (blocks: Vec<(QuantTy, Vec<Var>)>)
    requires
        stated(table, parsed@),
        table.len() <= NAME_LIMIT,
    ensures
        prefix_of(blocks@) == mapped(table, merged(meanings(table, parsed@))),
{
    let ghost all = meanings(table, parsed@);
    let mut blocks: Vec<(QuantTy, Vec<Var>)> = Vec::new();
    let mut k: usize = 0;
    proof {
        assert(all.take(0) =~= Seq::<Statement>::empty());
        assert(prefix_of(blocks@) =~= mapped(table, merged(all.take(0))));
    }
    while k < parsed.len()
        invariant
            k <= parsed.len(),
            all == meanings(table, parsed@),
            stated(table, parsed@),
            table.len() <= NAME_LIMIT,
            prefix_of(blocks@) == mapped(table, merged(all.take(k as int))),
        decreases parsed.len() - k,
    {
        let ghost held = merged(all.take(k as int));
        proof {
            lemma_taken(table, parsed@, k as int);
            assert(in_table(table.len(), parsed@[k as int]));
        }
        match &parsed[k] {
            Parsed::Block(q, ids) => {
                let vars = variables_at(ids, Ghost(table));
                proof {
                    lemma_mapped_declared(table, held, *q, numbered_names(table, ids@));
                    assert(prefix_of(blocks@).len() == blocks@.len());
                    if blocks@.len() > 0 {
                        assert(prefix_of(blocks@).last() == (blocks@.last().0, blocks@.last().1@));
                    }
                }
                append_block(&mut blocks, *q, vars);
            },
            _ => {},
        }
        k += 1;
    }
    assert(all.take(all.len() as int) =~= all);
    blocks
}

/// Marks the identifiers that statements declare or define.
fn mark_introduced(parsed: &Vec<Parsed>, count: usize, Ghost(table): Ghost<Seq<Seq<char>>>) -> (marks: Vec<bool>)
    requires
        stated(table, parsed@),
        count == table.len(),
    ensures
        marks@.len() == count,
        forall|id: int| 0 <= id < count ==> (#[trigger] marks@[id] <==> introduced(meanings(table, parsed@), table[id])),
{
    let ghost all = meanings(table, parsed@);
    let mut marks: Vec<bool> = Vec::new();
    let mut k: usize = 0;
    while k < count
        invariant
            k <= count,
            marks@ == Seq::new(k as nat, |i: int| false),
        decreases count - k,
    {
        marks.push(false);
        k += 1;
        assert(marks@ =~= Seq::new(k as nat, |i: int| false));
    }
    let mut k: usize = 0;
    while k < parsed.len()
        invariant
            k <= parsed.len(),
            all == meanings(table, parsed@),
            stated(table, parsed@),
            count == table.len(),
            marks@.len() == count,
            forall|id: int| 0 <= id < count ==> (#[trigger] marks@[id] <==> introduced(all.take(k as int), table[id])),
        decreases parsed.len() - k,
    {
        let ghost before = marks@;
        let ghost statement = meaning(table, parsed@[k as int]);
        proof {
            assert(in_table(table.len(), parsed@[k as int]));
        }
        match &parsed[k] {
            Parsed::Block(q, ids) => {
                let mut j: usize = 0;
                while j < ids.len()
                    invariant
                        j <= ids.len(),
                        count == table.len(),
                        no_repeats(table),
                        marks@.len() == count,
                        before.len() == count,
                        forall|i: int| 0 <= i < ids@.len() ==> #[trigger] ids@[i] < table.len(),
                        forall|id: int|
                            0 <= id < count ==> (#[trigger] marks@[id] <==> before[id] || exists|i: int| 0 <= i < j && #[trigger] ids@[i] == id),
                    decreases ids.len() - j,
                {
                    let ghost held = marks@;
                    marks.set(ids[j], true);
                    j += 1;
                    proof {
                        assert forall|id: int| 0 <= id < count implies (#[trigger] marks@[id] <==> before[id] || exists|i: int|
                            0 <= i < j && #[trigger] ids@[i] == id) by {
                            assert(held[id] <==> before[id] || exists|i: int| 0 <= i < j - 1 && #[trigger] ids@[i] == id);
                            if ids@[j - 1] == id {
                                assert(0 <= j - 1 < j);
                            }
                        }
                    }
                }
                proof {
                    let list = numbered_names(table, ids@);
                    assert forall|id: int| 0 <= id < count implies (#[trigger] marks@[id] <==> before[id] || introduces(statement, table[id])) by {
                        if introduces(statement, table[id]) {
                            let i = choose|i: int| 0 <= i < list.len() && list[i] == table[id];
                            assert(table[ids@[i] as int] == table[id]);
                        }
                        if marks@[id] && !before[id] {
                            let i = choose|i: int| 0 <= i < ids@.len() && #[trigger] ids@[i] == id;
                            assert(list[i] == table[id]);
                        }
                    }
                }
            },
            Parsed::Output(id, positive) => {},
            Parsed::Gate(id, op, args) => {
                marks.set(*id, true);
                proof {
                    let gate = *id as int;
                    assert forall|i: int| 0 <= i < count implies (#[trigger] marks@[i] <==> before[i] || introduces(statement, table[i])) by {
                        if table[gate] == table[i] {
                            assert(i == gate);
                        }
                    }
                }
            },
        }
        proof {
            let now = all.take(k as int + 1);
            let earlier = all.take(k as int);
            assert forall|id: int| 0 <= id < count implies (#[trigger] marks@[id] <==> introduced(now, table[id])) by {
                let name = table[id];
                assert(before[id] <==> introduced(earlier, name));
                if introduced(earlier, name) {
                    let i = choose|i: int| 0 <= i < earlier.len() && introduces(#[trigger] earlier[i], name);
                    assert(introduces(now[i], name));
                }
                if introduces(statement, name) {
                    assert(introduces(now[k as int], name));
                }
                if introduced(now, name) {
                    let i = choose|i: int| 0 <= i < now.len() && introduces(#[trigger] now[i], name);
                    if i < k {
                        assert(introduces(earlier[i], name));
                    }
                }
            }
        }
        k += 1;
    }
    assert(all.take(all.len() as int) =~= all);
    marks
}

/// Adds the free variables to the outermost existential block.
pub fn add_free(blocks: &mut Vec<(QuantTy, Vec<Var>)>, parsed: &Vec<Parsed>, count: usize, Ghost(table): Ghost<Seq<Seq<char>>>)
    requires
        stated(table, parsed@),
        count == table.len() <= NAME_LIMIT,
        prefix_of(old(blocks)@) == mapped(table, merged(meanings(table, parsed@))),
    ensures
        prefix_of(final(blocks)@) == mapped(
            table,
            with_free(merged(meanings(table, parsed@)), free_of(meanings(table, parsed@), table, table.len() as int)),
        ),
{
    let ghost all = meanings(table, parsed@);
    let ghost named = merged(all);
    let ghost before = blocks@;
    let marks = mark_introduced(parsed, count, Ghost(table));
    let mut free: Vec<Var> = Vec::new();
    let mut k: usize = 0;
    assert(free@ =~= variables(table, free_of(all, table, 0)));
    while k < count
        invariant
            k <= count,
            count == table.len() <= NAME_LIMIT,
            no_repeats(table),
            marks@.len() == count,
            all == meanings(table, parsed@),
            forall|id: int| 0 <= id < count ==> (#[trigger] marks@[id] <==> introduced(all, table[id])),
            free@ == variables(table, free_of(all, table, k as int)),
        decreases count - k,
    {
        if !marks[k] {
            free.push(variable_at(k, Ghost(table)));
        }
        k += 1;
        assert(free@ =~= variables(table, free_of(all, table, k as int)));
    }
    let ghost list = free_of(all, table, table.len() as int);
    assert(free@.len() == list.len());
    assert(mapped(table, named).len() == blocks@.len());
    if free.len() == 0 {
        return;
    }
    if blocks.len() > 0 {
        assert(prefix_of(blocks@)[0] == mapped(table, named)[0]);
    }
    if blocks.len() > 0 && !is_universal(blocks[0].0) {
        let (quant, mut rest) = blocks.remove(0);
        let ghost inner = rest@;
        free.append(&mut rest);
        blocks.insert(0, (QuantTy::Exists, free));
        proof {
            assert(variables(table, list + named[0].1) =~= variables(table, list) + variables(table, named[0].1));
            let wanted = mapped(table, with_free(named, list));
            assert forall|i: int| 0 <= i < wanted.len() implies prefix_of(blocks@)[i] == #[trigger] wanted[i] by {
                if i > 0 {
                    assert(blocks@[i] == before[i]);
                    assert(prefix_of(before)[i] == mapped(table, named)[i]);
                }
            }
            assert(prefix_of(blocks@) =~= wanted);
        }
    } else {
        blocks.insert(0, (QuantTy::Exists, free));
        proof {
            let wanted = mapped(table, with_free(named, list));
            assert forall|i: int| 0 <= i < wanted.len() implies prefix_of(blocks@)[i] == #[trigger] wanted[i] by {
                if i > 0 {
                    assert(blocks@[i] == before[i - 1]);
                    assert(prefix_of(before)[i - 1] == mapped(table, named)[i - 1]);
                }
            }
            assert(prefix_of(blocks@) =~= wanted);
        }
    }
}

pub fn is_universal(q: QuantTy) -> (yes: bool)
    ensures
        yes == (q == QuantTy::Forall),
{
    match q {
        QuantTy::Forall => true,
        QuantTy::Exists => false,
    }
}

/// Exchanges the quantifiers.
pub fn flip(blocks: &mut Vec<(QuantTy, Vec<Var>)>)
    ensures
        final(blocks)@.len() == old(blocks)@.len(),
        forall|i: int| 0 <= i < old(blocks)@.len() ==> (#[trigger] prefix_of(final(blocks)@)[i]) == (dual(old(blocks)@[i].0), old(blocks)@[i].1@),
{
    let ghost before = blocks@;
    let mut k: usize = 0;
    while k < blocks.len()
        invariant
            k <= blocks.len(),
            blocks@.len() == before.len(),
            before == old(blocks)@,
            forall|i: int| 0 <= i < before.len() ==> (#[trigger] blocks@[i]).1 == before[i].1,
            forall|i: int| 0 <= i < k ==> (#[trigger] blocks@[i]).0 == dual(before[i].0),
            forall|i: int| k <= i < before.len() ==> (#[trigger] blocks@[i]).0 == before[i].0,
        decreases blocks.len() - k,
    {
        let q = match blocks[k].0 {
            QuantTy::Exists => QuantTy::Forall,
            QuantTy::Forall => QuantTy::Exists,
        };
        blocks[k].0 = q;
        k += 1;
    }
}

/// The variables of the gates.
pub fn gate_variables(parsed: &Vec<Parsed>, Ghost(table): Ghost<Seq<Seq<char>>>) -> (gates: Vec<Var>)
    requires
        stated(table, parsed@),
        table.len() <= NAME_LIMIT,
    ensures
        gates@ == variables(table, gates_of(meanings(table, parsed@))),
{
    let ghost all = meanings(table, parsed@);
    let mut gates: Vec<Var> = Vec::new();
    let mut k: usize = 0;
    proof {
        assert(all.take(0) =~= Seq::<Statement>::empty());
        assert(gates@ =~= variables(table, gates_of(all.take(0))));
    }
    while k < parsed.len()
        invariant
            k <= parsed.len(),
            all == meanings(table, parsed@),
            stated(table, parsed@),
            table.len() <= NAME_LIMIT,
            gates@ == variables(table, gates_of(all.take(k as int))),
        decreases parsed.len() - k,
    {
        proof {
            lemma_taken(table, parsed@, k as int);
            assert(in_table(table.len(), parsed@[k as int]));
        }
        match &parsed[k] {
            Parsed::Gate(id, op, args) => {
                gates.push(variable_at(*id, Ghost(table)));
            },
            _ => {},
        }
        k += 1;
        assert(gates@ =~= variables(table, gates_of(all.take(k as int))));
    }
    assert(all.take(all.len() as int) =~= all);
    gates
}

/// Appends a clause.
pub(crate) fn push_clause(matrix: &mut Vec<Vec<Lit>>, clause: Vec<Lit>)
    ensures
        matrix_of(final(matrix)@) == matrix_of(old(matrix)@).push(clause@),
{
    let ghost before = matrix@;
    matrix.push(clause);
    assert(matrix_of(matrix@) =~= matrix_of(before).push(clause@));
}

/// Appends the clauses of a gate.
pub(crate) fn push_gate(matrix: &mut Vec<Vec<Lit>>, op: GateOp, g: Lit, args: &Vec<Lit>)
    requires
        proper_arity(op, args@.len()),
    ensures
        matrix_of(final(matrix)@) == matrix_of(old(matrix)@) + gate_clauses(op, g, args@),
{
    let ghost start = matrix_of(matrix@);
    match op {
        GateOp::And => {
            let mut long: Vec<Lit> = vec![g];
            let ghost short = |n: int| Seq::new(n as nat, |i: int| seq![g.neg(), args@[i]]);
            let mut k: usize = 0;
            proof {
                assert(long@ =~= seq![g] + negations(args@.take(0)));
                assert(start + short(0) =~= start);
            }
            while k < args.len()
                invariant
                    k <= args.len(),
                    short == (|n: int| Seq::new(n as nat, |i: int| seq![g.neg(), args@[i]])),
                    long@ == seq![g] + negations(args@.take(k as int)),
                    matrix_of(matrix@) == start + short(k as int),
                decreases args.len() - k,
            {
                let pair: Vec<Lit> = vec![g.negated(), args[k]];
                assert(pair@ =~= seq![g.neg(), args@[k as int]]);
                push_clause(matrix, pair);
                long.push(args[k].negated());
                k += 1;
                proof {
                    assert(matrix_of(matrix@) =~= start + short(k as int));
                    assert(long@ =~= seq![g] + negations(args@.take(k as int)));
                }
            }
            assert(args@.take(args@.len() as int) =~= args@);
            push_clause(matrix, long);
            assert(matrix_of(matrix@) =~= start + gate_clauses(op, g, args@));
        },
        GateOp::Or => {
            let mut long: Vec<Lit> = vec![g.negated()];
            let ghost short = |n: int| Seq::new(n as nat, |i: int| seq![g, args@[i].neg()]);
            let mut k: usize = 0;
            proof {
                assert(long@ =~= seq![g.neg()] + args@.take(0));
                assert(start + short(0) =~= start);
            }
            while k < args.len()
                invariant
                    k <= args.len(),
                    short == (|n: int| Seq::new(n as nat, |i: int| seq![g, args@[i].neg()])),
                    long@ == seq![g.neg()] + args@.take(k as int),
                    matrix_of(matrix@) == start + short(k as int),
                decreases args.len() - k,
            {
                let pair: Vec<Lit> = vec![g, args[k].negated()];
                assert(pair@ =~= seq![g, args@[k as int].neg()]);
                push_clause(matrix, pair);
                long.push(args[k]);
                k += 1;
                proof {
                    assert(matrix_of(matrix@) =~= start + short(k as int));
                    assert(long@ =~= seq![g.neg()] + args@.take(k as int));
                }
            }
            assert(args@.take(args@.len() as int) =~= args@);
            push_clause(matrix, long);
            assert(matrix_of(matrix@) =~= start + gate_clauses(op, g, args@));
        },
        GateOp::Xor => {
            let (a, b) = (args[0], args[1]);
            push_three(matrix, g.negated(), a, b);
            push_three(matrix, g.negated(), a.negated(), b.negated());
            push_three(matrix, g, a.negated(), b);
            push_three(matrix, g, a, b.negated());
            assert(matrix_of(matrix@) =~= start + gate_clauses(op, g, args@));
        },
        GateOp::Ite => {
            let (c, t, e) = (args[0], args[1], args[2]);
            push_three(matrix, g.negated(), c.negated(), t);
            push_three(matrix, g.negated(), c, e);
            push_three(matrix, g, c.negated(), t.negated());
            push_three(matrix, g, c, e.negated());
            assert(matrix_of(matrix@) =~= start + gate_clauses(op, g, args@));
        },
    }
}

pub(crate) fn push_three(matrix: &mut Vec<Vec<Lit>>, l: Lit, m: Lit, n: Lit)
    ensures
        matrix_of(final(matrix)@) == matrix_of(old(matrix)@).push(seq![l, m, n]),
{
    let clause: Vec<Lit> = vec![l, m, n];
    assert(clause@ =~= seq![l, m, n]);
    push_clause(matrix, clause);
}

/// The clauses of all gates.
pub fn all_clauses(parsed: &Vec<Parsed>, Ghost(table): Ghost<Seq<Seq<char>>>) -> (matrix: Vec<Vec<Lit>>)
    requires
        stated(table, parsed@),
        table.len() <= NAME_LIMIT,
    ensures
        matrix_of(matrix@) == circuit_clauses(table, meanings(table, parsed@)),
{
    let ghost all = meanings(table, parsed@);
    let mut matrix: Vec<Vec<Lit>> = Vec::new();
    let mut k: usize = 0;
    proof {
        assert(all.take(0) =~= Seq::<Statement>::empty());
        assert(matrix_of(matrix@) =~= circuit_clauses(table, all.take(0)));
    }
    while k < parsed.len()
        invariant
            k <= parsed.len(),
            all == meanings(table, parsed@),
            stated(table, parsed@),
            table.len() <= NAME_LIMIT,
            matrix_of(matrix@) == circuit_clauses(table, all.take(k as int)),
        decreases parsed.len() - k,
    {
        let ghost held = matrix_of(matrix@);
        proof {
            lemma_taken(table, parsed@, k as int);
            assert(in_table(table.len(), parsed@[k as int]));
        }
        match &parsed[k] {
            Parsed::Gate(id, op, args) => {
                let g = literal(*id, true, Ghost(table));
                let mut lits: Vec<Lit> = Vec::new();
                let mut j: usize = 0;
                while j < args.len()
                    invariant
                        j <= args.len(),
                        no_repeats(table),
                        table.len() <= NAME_LIMIT,
                        forall|i: int| 0 <= i < args@.len() ==> (#[trigger] args@[i]).0 < table.len(),
                        lits.len() == j,
                        forall|i: int|
                            0 <= i < j ==> #[trigger] lits@[i] == output_lit(
                                table,
                                (Term { name: table[args@[i].0 as int], positive: args@[i].1 }),
                            ),
                    decreases args.len() - j,
                {
                    lits.push(literal(args[j].0, args[j].1, Ghost(table)));
                    j += 1;
                }
                assert(lits@ =~= term_lits(table, numbered_terms(table, args@)));
                push_gate(&mut matrix, *op, g, &lits);
            },
            _ => {
                assert(held + statement_clauses(table, meaning(table, parsed@[k as int])) =~= held);
            },
        }
        k += 1;
    }
    assert(all.take(all.len() as int) =~= all);
    matrix
}

} // verus!
