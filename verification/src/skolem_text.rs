//! What the SMT-LIB definitions of a model mean.
use crate::defined::{
    defines_all, internal, lemma_call_text, lemma_called, lemma_definition_text, lemma_internal, lemma_signed, signed, told_apart,
};
use crate::incdet::circuit::{circuit_value, in_chain, in_region, in_regions, listed, listed_chain, listed_lits, listed_regions, value_or_false};
use crate::incdet::model::{
    chain_values, clause_fires, commit, function_fires, region_values, Function, Region, SkolemModel,
};
use crate::incdet::smtlib::{chain_refs, first_on, helpers, premises, Scope};
use crate::incdet::{certifies, circuit_satisfies};
use crate::literal::{Lit, Var};
use crate::qcnf::assignment_of;
use crate::sat::consistent;
use crate::semantics::{clause_mentions, cube_true, lit_true, matrix_true, Assignment, Matrix, Prefix};
use crate::smt::{
    apply, arguments, defined_at, eval, lemma_and, lemma_arguments, lemma_defined_at, lemma_or, lemma_write_all, lemma_write_definitions,
    write_definitions, write_model, written, Definition, Term,
};
use crate::strategy_check::{env_of, input_values};
use crate::text::{call, decimal, definition, has_name, join, name_of, nary, negated, parameter, parameters};
use vstd::prelude::*;
use vstd::string::*;

verus! {

broadcast use crate::literal::group_literal;

/// A variable as a term.
spec fn var_term(scope: Scope, refs: Map<Var, u64>, x: Var) -> Term {
    if scope.universals.contains(x) {
        Term::Name(parameter(scope.names, x))
    } else if refs.contains_key(x) {
        Term::Call("_f"@ + decimal(refs[x] as nat), arguments(parameters(scope.names, scope.universals)))
    } else {
        Term::Truth(false)
    }
}

spec fn ref_term(scope: Scope, refs: Map<Var, u64>, l: Lit) -> Term {
    signed(l.pos(), var_term(scope, refs, l.v()))
}

spec fn ref_terms(scope: Scope, refs: Map<Var, u64>, lits: Seq<Lit>) -> Seq<Term> {
    Seq::new(lits.len(), |i: int| ref_term(scope, refs, lits[i]))
}

/// All of the terms.
spec fn all_of(terms: Seq<Term>) -> Term {
    if terms.len() == 0 {
        Term::Truth(true)
    } else if terms.len() == 1 {
        terms[0]
    } else {
        Term::And(terms)
    }
}

/// One of the terms.
spec fn one_of(terms: Seq<Term>) -> Term {
    if terms.len() == 0 {
        Term::Truth(false)
    } else if terms.len() == 1 {
        terms[0]
    } else {
        Term::Or(terms)
    }
}

proof fn lemma_var_text(scope: Scope, refs: Map<Var, u64>, x: Var)
    ensures
        written(var_term(scope, refs, x)) == (if scope.universals.contains(x) {
            parameter(scope.names, x)
        } else if refs.contains_key(x) {
            scope.helper(refs[x])
        } else {
            "false"@
        }),
{
    if !scope.universals.contains(x) && refs.contains_key(x) {
        lemma_call_text("_f"@ + decimal(refs[x] as nat), parameters(scope.names, scope.universals));
    }
}

proof fn lemma_ref_text(scope: Scope, refs: Map<Var, u64>, l: Lit)
    ensures
        written(ref_term(scope, refs, l)) == scope.reference(refs, l),
{
    lemma_var_text(scope, refs, l.v());
    lemma_signed(l.pos(), var_term(scope, refs, l.v()), written(var_term(scope, refs, l.v())));
}

#[verifier::rlimit(40)]
proof fn lemma_all_text(terms: Seq<Term>, parts: Seq<Seq<char>>)
    requires
        parts.len() == terms.len(),
        forall|i: int| 0 <= i < terms.len() ==> #[trigger] parts[i] == written(terms[i]),
    ensures
        written(all_of(terms)) == nary("and"@, "true"@, parts),
        written(one_of(terms)) == nary("or"@, "false"@, parts),
{
    if terms.len() > 1 {
        lemma_write_all(terms, parts, terms.len());
        reveal_strlit("(and");
        reveal_strlit("and");
        reveal_strlit("(or");
        reveal_strlit("or");
        reveal_strlit("(");
        assert("("@ + "and"@ =~= "(and"@);
        assert("("@ + "or"@ =~= "(or"@);
        assert(written(Term::And(terms)) =~= "("@ + "and"@ + " "@ + join(parts) + ")"@);
        assert(written(Term::Or(terms)) =~= "("@ + "or"@ + " "@ + join(parts) + ")"@);
    } else if terms.len() == 1 {
        assert(parts[0] == written(terms[0]));
    }
}

proof fn lemma_refs_text(scope: Scope, refs: Map<Var, u64>, lits: Seq<Lit>)
    ensures
        written(all_of(ref_terms(scope, refs, lits))) == nary("and"@, "true"@, scope.references(refs, lits)),
{
    let terms = ref_terms(scope, refs, lits);
    let parts = scope.references(refs, lits);
    assert forall|i: int| 0 <= i < terms.len() implies #[trigger] parts[i] == written(terms[i]) by {
        lemma_ref_text(scope, refs, lits[i]);
    }
    lemma_all_text(terms, parts);
}

spec fn firing_term(scope: Scope, refs: Map<Var, u64>, lit: Lit, clause: Seq<Lit>) -> Term {
    all_of(ref_terms(scope, refs, premises(lit, clause)))
}

spec fn firing_terms(scope: Scope, refs: Map<Var, u64>, lit: Lit, clauses: Seq<Vec<Lit>>) -> Seq<Term> {
    Seq::new(clauses.len(), |i: int| firing_term(scope, refs, lit, clauses[i]@))
}

/// The condition of a function as a term.
spec fn function_term(scope: Scope, refs: Map<Var, u64>, lit: Lit, function: Function) -> Term {
    match function {
        Function::Constant => Term::Truth(true),
        Function::Implications(clauses) => one_of(firing_terms(scope, refs, lit, clauses@)),
    }
}

proof fn lemma_function_text(scope: Scope, refs: Map<Var, u64>, lit: Lit, function: Function)
    ensures
        written(function_term(scope, refs, lit, function)) == scope.function(refs, lit, function),
{
    match function {
        Function::Constant => {},
        Function::Implications(clauses) => {
            let terms = firing_terms(scope, refs, lit, clauses@);
            let parts = Seq::new(clauses@.len(), |i: int| scope.firing(refs, lit, clauses@[i]@));
            assert forall|i: int| 0 <= i < terms.len() implies #[trigger] parts[i] == written(terms[i]) by {
                lemma_refs_text(scope, refs, premises(lit, clauses@[i]@));
            }
            lemma_all_text(terms, parts);
        },
    }
}

/// The bodies of the helpers of a chain.
spec fn chain_bodies(scope: Scope, start: u64, chain: Seq<(Lit, Function)>) -> Seq<Term>
    decreases chain.len(),
{
    if chain.len() == 0 {
        Seq::empty()
    } else {
        let before = chain.drop_last();
        let (lit, function) = chain.last();
        chain_bodies(scope, start, before).push(signed(lit.pos(), function_term(scope, chain_refs(start, before), lit, function)))
    }
}

/// The bodies of the helpers of regions.
spec fn region_bodies(scope: Scope, start: u64, regions: Seq<Region>) -> Seq<Term>
    decreases regions.len(),
{
    if regions.len() == 0 {
        Seq::empty()
    } else {
        let before = regions.drop_last();
        region_bodies(scope, start, before) + match regions.last() {
            Region::Response { cube, response } => Seq::empty(),
            Region::Closed { cube, chain } => chain_bodies(scope, (start + helpers(before)) as u64, chain@),
        }
    }
}

/// Helpers, numbered from a number on.
spec fn numbered_from(scope: Scope, start: int, bodies: Seq<Term>) -> Seq<Definition> {
    Seq::new(
        bodies.len(),
        |i: int|
            Definition {
                name: "_f"@ + decimal((start + i) as nat),
                params: parameters(scope.names, scope.universals),
                body: bodies[i],
            },
    )
}

proof fn lemma_chain_len(scope: Scope, start: u64, chain: Seq<(Lit, Function)>)
    ensures
        chain_bodies(scope, start, chain).len() == chain.len(),
    decreases chain.len(),
{
    if chain.len() > 0 {
        lemma_chain_len(scope, start, chain.drop_last());
    }
}

proof fn lemma_region_len(scope: Scope, start: u64, regions: Seq<Region>)
    ensures
        region_bodies(scope, start, regions).len() == helpers(regions),
    decreases regions.len(),
{
    if regions.len() > 0 {
        let before = regions.drop_last();
        lemma_region_len(scope, start, before);
        match regions.last() {
            Region::Response { cube, response } => {},
            Region::Closed { cube, chain } => {
                lemma_chain_len(scope, (start + helpers(before)) as u64, chain@);
            },
        }
    }
}

proof fn lemma_chain_text(scope: Scope, start: u64, chain: Seq<(Lit, Function)>)
    ensures
        write_definitions(numbered_from(scope, start as int, chain_bodies(scope, start, chain))) == scope.chain(start, chain),
    decreases chain.len(),
{
    let bodies = chain_bodies(scope, start, chain);
    let defs = numbered_from(scope, start as int, bodies);
    lemma_chain_len(scope, start, chain);
    if chain.len() > 0 {
        let before = chain.drop_last();
        let (lit, function) = chain.last();
        let refs = chain_refs(start, before);
        lemma_chain_text(scope, start, before);
        lemma_chain_len(scope, start, before);
        assert(defs.drop_last() =~= numbered_from(scope, start as int, chain_bodies(scope, start, before)));
        lemma_function_text(scope, refs, lit, function);
        lemma_signed(lit.pos(), function_term(scope, refs, lit, function), scope.function(refs, lit, function));
        lemma_definition_text(
            scope.names,
            scope.universals,
            "_f"@ + decimal((start + before.len()) as nat),
            bodies.last(),
            negated(lit.pos(), scope.function(refs, lit, function)),
        );
        assert(defs.last() == (Definition {
            name: "_f"@ + decimal((start + before.len()) as nat),
            params: parameters(scope.names, scope.universals),
            body: bodies.last(),
        }));
    }
}

proof fn lemma_regions_text(scope: Scope, start: u64, regions: Seq<Region>)
    requires
        start + helpers(regions) <= u64::MAX,
    ensures
        write_definitions(numbered_from(scope, start as int, region_bodies(scope, start, regions))) == scope.regions(start, regions),
    decreases regions.len(),
{
    if regions.len() > 0 {
        let before = regions.drop_last();
        lemma_regions_text(scope, start, before);
        lemma_region_len(scope, start, before);
        let first = region_bodies(scope, start, before);
        match regions.last() {
            Region::Response { cube, response } => {
                assert(region_bodies(scope, start, regions) =~= first);
                assert(scope.regions(start, regions) =~= scope.regions(start, before));
            },
            Region::Closed { cube, chain } => {
                let at = (start + helpers(before)) as u64;
                let second = chain_bodies(scope, at, chain@);
                lemma_chain_text(scope, at, chain@);
                assert(numbered_from(scope, start as int, first + second) =~= numbered_from(scope, start as int, first) + numbered_from(
                    scope,
                    at as int,
                    second,
                ));
                lemma_write_definitions(numbered_from(scope, start as int, first), numbered_from(scope, at as int, second));
            },
        }
    }
}

/// The value of a variable in a region, as a term.
spec fn region_term(scope: Scope, start: u64, region: Region, x: Var, base: Term) -> Term {
    match region {
        Region::Response { cube, response } => match first_on(response@, x) {
            Some(positive) => Term::Truth(positive),
            None => base,
        },
        Region::Closed { cube, chain } => {
            let refs = chain_refs(start, chain@);
            if refs.contains_key(x) {
                var_term(scope, refs, x)
            } else {
                base
            }
        },
    }
}

/// The value of a variable from a region on, as a term.
spec fn body_term(scope: Scope, refs: Map<Var, u64>, start: u64, regions: Seq<Region>, from: int, x: Var) -> Term
    decreases regions.len() - from,
{
    let base = var_term(scope, refs, x);
    if from < 0 || from >= regions.len() {
        base
    } else {
        Term::Ite(
            Box::new(all_of(ref_terms(scope, refs, regions[from].spec_cube()))),
            Box::new(region_term(scope, (start + helpers(regions.take(from))) as u64, regions[from], x, base)),
            Box::new(body_term(scope, refs, start, regions, from + 1, x)),
        )
    }
}

proof fn lemma_body_text(scope: Scope, refs: Map<Var, u64>, start: u64, regions: Seq<Region>, from: int, x: Var)
    requires
        !scope.universals.contains(x),
        0 <= from,
    ensures
        written(body_term(scope, refs, start, regions, from, x)) == scope.body(refs, start, regions, from, x),
    decreases regions.len() - from,
{
    lemma_var_text(scope, refs, x);
    if from < regions.len() {
        let base = var_term(scope, refs, x);
        let region = regions[from];
        let at = (start + helpers(regions.take(from))) as u64;
        lemma_refs_text(scope, refs, region.spec_cube());
        lemma_body_text(scope, refs, start, regions, from + 1, x);
        match region {
            Region::Response { cube, response } => {},
            Region::Closed { cube, chain } => {
                lemma_var_text(scope, chain_refs(at, chain@), x);
            },
        }
        let value = region_term(scope, at, region, x, base);
        assert(written(value) == scope.region_value(at, region, x, written(base)));
    }
}

/// The definitions of the named variables.
spec fn public_program(scope: Scope, refs: Map<Var, u64>, start: u64, regions: Seq<Region>, vars: Seq<Var>) -> Seq<Definition>
    decreases vars.len(),
{
    if vars.len() == 0 {
        Seq::empty()
    } else {
        let x = vars.last();
        let before = public_program(scope, refs, start, regions, vars.drop_last());
        if has_name(scope.names, x) {
            before.push(
                Definition {
                    name: name_of(scope.names, x),
                    params: parameters(scope.names, scope.universals),
                    body: body_term(scope, refs, start, regions, 0, x),
                },
            )
        } else {
            before
        }
    }
}

proof fn lemma_public_text(scope: Scope, refs: Map<Var, u64>, start: u64, regions: Seq<Region>, vars: Seq<Var>)
    requires
        forall|i: int| 0 <= i < vars.len() ==> !scope.universals.contains(#[trigger] vars[i]),
    ensures
        write_definitions(public_program(scope, refs, start, regions, vars)) == scope.public(refs, start, regions, vars),
    decreases vars.len(),
{
    if vars.len() > 0 {
        let few = vars.drop_last();
        let x = vars.last();
        assert forall|i: int| 0 <= i < few.len() implies !scope.universals.contains(#[trigger] few[i]) by {
            assert(few[i] == vars[i]);
        }
        lemma_public_text(scope, refs, start, regions, few);
        assert(!scope.universals.contains(vars[vars.len() - 1]));
        let before = public_program(scope, refs, start, regions, few);
        if has_name(scope.names, x) {
            let body = body_term(scope, refs, start, regions, 0, x);
            let all = public_program(scope, refs, start, regions, vars);
            assert(all.drop_last() =~= before);
            lemma_body_text(scope, refs, start, regions, 0, x);
            lemma_definition_text(
                scope.names,
                scope.universals,
                name_of(scope.names, x),
                body,
                scope.body(refs, start, regions, 0, x),
            );
        } else {
            assert(scope.public(refs, start, regions, vars) =~= scope.public(refs, start, regions, few));
        }
    }
}

/// All definitions of a model.
spec fn model_program(scope: Scope, model: SkolemModel) -> Seq<Definition> {
    let chain = model.final_chain@;
    let start = chain.len() as u64;
    numbered_from(scope, 0, helper_bodies(scope, model)) + public_program(
        scope,
        chain_refs(0, chain),
        start,
        model.regions@,
        model.spec_defined_vars(),
    )
}

spec fn helper_bodies(scope: Scope, model: SkolemModel) -> Seq<Term> {
    chain_bodies(scope, 0, model.final_chain@) + region_bodies(scope, model.final_chain@.len() as u64, model.regions@)
}

/// The first definitions are helpers over the parameters, and a helper is
/// told apart from all others.
spec fn orderly(program: Seq<Definition>, params: Seq<Seq<char>>, bodies: Seq<Term>) -> bool {
    &&& bodies.len() <= program.len()
    &&& forall|k: int|
        0 <= k < bodies.len() ==> (#[trigger] program[k]) == (Definition { name: "_f"@ + decimal(k as nat), params, body: bodies[k] })
    &&& forall|k: int, j: int|
        0 <= k < bodies.len() && 0 <= j < program.len() && j != k ==> (#[trigger] program[k]).name != (#[trigger] program[j]).name
}

/// Variables as terms have the values of the assignment.
spec fn refs_mean(program: Seq<Definition>, count: nat, scope: Scope, env: Seq<bool>, refs: Map<Var, u64>, a: Assignment) -> bool {
    forall|x: Var|
        eval(program, count, parameters(scope.names, scope.universals), env, #[trigger] var_term(scope, refs, x)) == a(x)
}

proof fn lemma_ref_value(program: Seq<Definition>, count: nat, scope: Scope, env: Seq<bool>, refs: Map<Var, u64>, a: Assignment, l: Lit)
    requires
        refs_mean(program, count, scope, env, refs, a),
    ensures
        eval(program, count, parameters(scope.names, scope.universals), env, ref_term(scope, refs, l)) == lit_true(a, l),
{
    assert(eval(program, count, parameters(scope.names, scope.universals), env, var_term(scope, refs, l.v())) == a(l.v()));
}

/// References to all literals hold where the literals do.
proof fn lemma_refs_value(program: Seq<Definition>, count: nat, scope: Scope, env: Seq<bool>, refs: Map<Var, u64>, a: Assignment, lits: Seq<Lit>)
    requires
        refs_mean(program, count, scope, env, refs, a),
    ensures
        eval(program, count, parameters(scope.names, scope.universals), env, all_of(ref_terms(scope, refs, lits))) == cube_true(a, lits),
{
    let params = parameters(scope.names, scope.universals);
    let terms = ref_terms(scope, refs, lits);
    assert forall|i: int| 0 <= i < lits.len() implies eval(program, count, params, env, #[trigger] terms[i]) == lit_true(a, lits[i]) by {
        lemma_ref_value(program, count, scope, env, refs, a, lits[i]);
    }
    lemma_and(program, count, params, env, terms);
    if cube_true(a, lits) {
        assert forall|i: int| 0 <= i < terms.len() implies eval(program, count, params, env, #[trigger] terms[i]) by {
            assert(lit_true(a, lits[i]));
        }
    }
    if forall|i: int| 0 <= i < terms.len() ==> eval(program, count, params, env, #[trigger] terms[i]) {
        assert forall|i: int| 0 <= i < lits.len() implies lit_true(a, #[trigger] lits[i]) by {
            assert(eval(program, count, params, env, terms[i]));
        }
    }
    if terms.len() == 1 {
        assert(eval(program, count, params, env, terms[0]) == lit_true(a, lits[0]));
    }
}

proof fn lemma_premises(a: Assignment, lit: Lit, clause: Seq<Lit>)
    ensures
        cube_true(a, premises(lit, clause)) == clause_fires(a, lit, clause),
    decreases clause.len(),
{
    if clause.len() > 0 {
        let few = clause.drop_last();
        let last = clause.last();
        let before = premises(lit, few);
        let all = premises(lit, clause);
        lemma_premises(a, lit, few);
        assert(clause[clause.len() - 1] == last);
        if clause_fires(a, lit, clause) {
            assert forall|j: int| 0 <= j < few.len() && (#[trigger] few[j]).v() != lit.v() implies !lit_true(a, few[j]) by {
                assert(few[j] == clause[j]);
            }
            assert forall|i: int| 0 <= i < all.len() implies lit_true(a, #[trigger] all[i]) by {
                if i < before.len() {
                    assert(all[i] == before[i]);
                } else {
                    assert(!lit_true(a, last));
                }
            }
        }
        if cube_true(a, all) {
            assert forall|i: int| 0 <= i < before.len() implies lit_true(a, #[trigger] before[i]) by {
                assert(all[i] == before[i]);
            }
            if last.v() != lit.v() {
                assert(lit_true(a, all[before.len() as int]));
            }
            assert forall|j: int| 0 <= j < clause.len() && (#[trigger] clause[j]).v() != lit.v() implies !lit_true(a, clause[j]) by {
                if j < few.len() {
                    assert(few[j] == clause[j]);
                }
            }
        }
    }
}

/// The condition of a function is met where it makes its literal true.
proof fn lemma_function_value(
    program: Seq<Definition>,
    count: nat,
    scope: Scope,
    env: Seq<bool>,
    refs: Map<Var, u64>,
    a: Assignment,
    lit: Lit,
    function: Function,
)
    requires
        refs_mean(program, count, scope, env, refs, a),
    ensures
        eval(program, count, parameters(scope.names, scope.universals), env, function_term(scope, refs, lit, function)) == function_fires(
            a,
            lit,
            function,
        ),
{
    let params = parameters(scope.names, scope.universals);
    match function {
        Function::Constant => {},
        Function::Implications(clauses) => {
            let terms = firing_terms(scope, refs, lit, clauses@);
            assert forall|i: int| 0 <= i < terms.len() implies eval(program, count, params, env, #[trigger] terms[i]) == clause_fires(
                a,
                lit,
                clauses@[i]@,
            ) by {
                lemma_refs_value(program, count, scope, env, refs, a, premises(lit, clauses@[i]@));
                lemma_premises(a, lit, clauses@[i]@);
            }
            lemma_or(program, count, params, env, terms);
            if function_fires(a, lit, function) {
                let i = choose|i: int| 0 <= i < clauses@.len() && clause_fires(a, lit, (#[trigger] clauses@[i])@);
                assert(eval(program, count, params, env, terms[i]));
            }
            if exists|i: int| 0 <= i < terms.len() && eval(program, count, params, env, #[trigger] terms[i]) {
                let i = choose|i: int| 0 <= i < terms.len() && eval(program, count, params, env, #[trigger] terms[i]);
                assert(clause_fires(a, lit, clauses@[i]@));
            }
            if terms.len() == 1 {
                assert(eval(program, count, params, env, terms[0]) == clause_fires(a, lit, clauses@[0]@));
            }
        },
    }
}

/// The parameters have the values of the universal variables.
proof fn lemma_parameters(program: Seq<Definition>, count: nat, scope: Scope, env: Seq<bool>)
    requires
        parameters(scope.names, scope.universals).no_duplicates(),
        env.len() == scope.universals.len(),
    ensures
        refs_mean(program, count, scope, env, Map::empty(), assignment_of(input_values(scope.universals, env))),
{
    let us = scope.universals;
    let params = parameters(scope.names, us);
    let a = assignment_of(input_values(us, env));
    lemma_arguments(program, count, params, env);
    assert forall|x: Var| eval(program, count, params, env, #[trigger] var_term(scope, Map::empty(), x)) == a(x) by {
        if us.contains(x) {
            let i = choose|i: int| 0 <= i < us.len() && us[i] == x;
            assert(params[i] == parameter(scope.names, x));
            assert(us.no_duplicates()) by {
                assert forall|j: int, k: int| 0 <= j < us.len() && 0 <= k < us.len() && j != k implies us[j] != us[k] by {
                    if us[j] == us[k] {
                        assert(params[j] == params[k]);
                    }
                }
            }
            lemma_input_value(us, env, i);
        } else {
            lemma_input_missing(us, env, x);
        }
    }
}

proof fn lemma_input_value(us: Seq<Var>, env: Seq<bool>, i: int)
    requires
        us.no_duplicates(),
        0 <= i < us.len() <= env.len(),
    ensures
        input_values(us, env).contains_key(us[i]),
        input_values(us, env)[us[i]] == env[i],
    decreases us.len(),
{
    if i < us.len() - 1 {
        let few = us.drop_last();
        assert(few[i] == us[i]);
        assert forall|j: int, k: int| 0 <= j < few.len() && 0 <= k < few.len() && j != k implies few[j] != few[k] by {
            assert(us[j] != us[k]);
        }
        lemma_input_value(few, env, i);
        assert(us[i] != us[us.len() - 1]);
    }
}

proof fn lemma_input_missing(us: Seq<Var>, env: Seq<bool>, x: Var)
    requires
        !us.contains(x),
    ensures
        !input_values(us, env).contains_key(x),
    decreases us.len(),
{
    if us.len() > 0 {
        let few = us.drop_last();
        assert(!few.contains(x)) by {
            if few.contains(x) {
                let i = choose|i: int| 0 <= i < few.len() && few[i] == x;
                assert(us[i] == x);
            }
        }
        assert(us[us.len() - 1] != x);
        lemma_input_missing(few, env, x);
    }
}

proof fn lemma_refs_domain(start: u64, chain: Seq<(Lit, Function)>, universal: Map<Var, bool>, x: Var)
    ensures
        chain_values(chain, universal).contains_key(x) == (universal.contains_key(x) || chain_refs(start, chain).contains_key(x)),
        chain_refs(start, chain).contains_key(x) == in_chain(chain, x),
    decreases chain.len(),
{
    if chain.len() > 0 {
        let few = chain.drop_last();
        lemma_refs_domain(start, few, universal, x);
        if in_chain(few, x) {
            let i = choose|i: int| 0 <= i < few.len() && (#[trigger] few[i]).0.v() == x;
            assert(chain[i] == few[i]);
        }
        if chain.last().0.v() == x {
            assert(chain[chain.len() - 1].0.v() == x);
        }
        if in_chain(chain, x) {
            let i = choose|i: int| 0 <= i < chain.len() && (#[trigger] chain[i]).0.v() == x;
            if i < few.len() {
                assert(few[i] == chain[i]);
            }
        }
    }
}

/// The helpers of a chain have the values of the chain.
#[verifier::rlimit(40)]
proof fn lemma_chain_value(
    program: Seq<Definition>,
    bodies: Seq<Term>,
    scope: Scope,
    env: Seq<bool>,
    start: u64,
    chain: Seq<(Lit, Function)>,
    count: nat,
)
    requires
        parameters(scope.names, scope.universals).no_duplicates(),
        env.len() == scope.universals.len(),
        orderly(program, parameters(scope.names, scope.universals), bodies),
        start + chain.len() <= bodies.len() <= u64::MAX,
        forall|i: int| 0 <= i < chain.len() ==> bodies[start + i] == #[trigger] chain_bodies(scope, start, chain)[i],
        forall|x: Var| #[trigger] in_chain(chain, x) ==> !scope.universals.contains(x),
        start + chain.len() <= count <= program.len(),
    ensures
        refs_mean(program, count, scope, env, chain_refs(start, chain), assignment_of(chain_values(chain, input_values(scope.universals, env)))),
    decreases chain.len(),
{
    let us = scope.universals;
    let params = parameters(scope.names, us);
    let universal = input_values(us, env);
    if chain.len() == 0 {
        lemma_parameters(program, count, scope, env);
    } else {
        let few = chain.drop_last();
        let (lit, function) = chain.last();
        let k = start + few.len();
        lemma_chain_len(scope, start, few);
        assert forall|i: int| 0 <= i < few.len() implies bodies[start + i] == #[trigger] chain_bodies(scope, start, few)[i] by {
            assert(chain_bodies(scope, start, chain)[i] == chain_bodies(scope, start, few)[i]);
        }
        assert forall|x: Var| #[trigger] in_chain(few, x) implies !us.contains(x) by {
            let i = choose|i: int| 0 <= i < few.len() && (#[trigger] few[i]).0.v() == x;
            assert(chain[i] == few[i]);
            assert(in_chain(chain, x));
        }
        lemma_chain_value(program, bodies, scope, env, start, few, count);
        lemma_chain_value(program, bodies, scope, env, start, few, k as nat);
        let refs = chain_refs(start, few);
        let before = chain_values(few, universal);
        let now = chain_refs(start, chain);
        let after = chain_values(chain, universal);
        lemma_function_value(program, k as nat, scope, env, refs, assignment_of(before), lit, function);
        let body = signed(lit.pos(), function_term(scope, refs, lit, function));
        assert(chain_bodies(scope, start, chain)[few.len() as int] == body);
        assert(bodies[start + few.len()] == body);
        assert(program[k].body == body);
        assert(eval(program, k as nat, params, env, body) == (function_fires(assignment_of(before), lit, function) == lit.pos()));
        assert(chain[chain.len() - 1].0.v() == lit.v());
        assert(in_chain(chain, lit.v()));
        assert forall|x: Var| eval(program, count, params, env, #[trigger] var_term(scope, now, x)) == assignment_of(after)(x) by {
            if x == lit.v() {
                assert(now[x] == k);
                assert forall|j: int| 0 <= j < count && j != k implies (#[trigger] program[j]).name != program[k].name by {}
                lemma_called(program, count, params, env, k);
                assert(program[k].name == "_f"@ + decimal(k as nat));
            } else {
                assert(var_term(scope, now, x) == var_term(scope, refs, x));
                assert(eval(program, count, params, env, var_term(scope, refs, x)) == assignment_of(before)(x));
            }
        }
    }
}

/// Which literal a response has on a variable.
proof fn lemma_first_on(lits: Seq<Lit>, x: Var)
    ensures
        match first_on(lits, x) {
            Some(positive) => exists|i: int| 0 <= i < lits.len() && (#[trigger] lits[i]).v() == x && lits[i].pos() == positive,
            None => forall|i: int| 0 <= i < lits.len() ==> (#[trigger] lits[i]).v() != x,
        },
    decreases lits.len(),
{
    if lits.len() > 0 && lits[0].v() != x {
        let rest = lits.drop_first();
        lemma_first_on(rest, x);
        match first_on(rest, x) {
            Some(positive) => {
                let i = choose|i: int| 0 <= i < rest.len() && (#[trigger] rest[i]).v() == x && rest[i].pos() == positive;
                assert(lits[i + 1] == rest[i]);
            },
            None => {
                assert forall|i: int| 0 <= i < lits.len() implies (#[trigger] lits[i]).v() != x by {
                    if i > 0 {
                        assert(rest[i - 1] == lits[i]);
                    }
                }
            },
        }
    }
}

proof fn lemma_committed(values: Map<Var, bool>, lits: Seq<Lit>, x: Var)
    requires
        consistent(lits),
    ensures
        forall|i: int|
            0 <= i < lits.len() && (#[trigger] lits[i]).v() == x ==> commit(values, lits).contains_key(x) && commit(values, lits)[x]
                == lits[i].pos(),
        (forall|i: int| 0 <= i < lits.len() ==> (#[trigger] lits[i]).v() != x) ==> commit(values, lits).contains_key(x)
            == values.contains_key(x) && (values.contains_key(x) ==> commit(values, lits)[x] == values[x]),
    decreases lits.len(),
{
    if lits.len() > 0 {
        let few = lits.drop_last();
        let n = lits.len() - 1;
        assert(consistent(few)) by {
            assert forall|i: int, j: int| 0 <= i < few.len() && 0 <= j < few.len() && #[trigger] few[i].v() == #[trigger] few[j].v() implies few[i].pos()
                == few[j].pos() by {
                assert(lits[i].v() == lits[j].v());
            }
        }
        lemma_committed(values, few, x);
        assert(lits[n] == lits.last());
        assert forall|i: int| 0 <= i < lits.len() && (#[trigger] lits[i]).v() == x implies commit(values, lits).contains_key(x) && commit(
            values,
            lits,
        )[x] == lits[i].pos() by {
            if lits[n].v() == x {
                assert(lits[i].v() == lits[n].v());
            } else {
                assert(few[i] == lits[i]);
            }
        }
        if forall|i: int| 0 <= i < lits.len() ==> (#[trigger] lits[i]).v() != x {
            assert forall|i: int| 0 <= i < few.len() implies (#[trigger] few[i]).v() != x by {
                assert(few[i] == lits[i]);
            }
            assert(lits[n].v() != x);
        }
    }
}

/// No response has both literals of a variable.
pub open spec fn responses_agree(model: SkolemModel) -> bool {
    forall|i: int| 0 <= i < model.regions@.len() ==> region_agrees(#[trigger] model.regions@[i])
}

pub open spec fn region_agrees(region: Region) -> bool {
    match region {
        Region::Response { cube, response } => consistent(response@),
        Region::Closed { cube, chain } => true,
    }
}

/// The helpers of a region are where its number says.
proof fn lemma_region_bodies(scope: Scope, start: u64, regions: Seq<Region>, k: int, i: int)
    requires
        start + helpers(regions) <= u64::MAX,
        0 <= k < regions.len(),
        regions[k] matches Region::Closed { cube, chain } && 0 <= i < chain@.len(),
    ensures
        ({
            let at = (start + helpers(regions.take(k))) as u64;
            let chain = regions[k]->chain@;
            &&& helpers(regions.take(k)) + chain.len() <= helpers(regions)
            &&& region_bodies(scope, start, regions)[helpers(regions.take(k)) + i] == chain_bodies(scope, at, chain)[i]
        }),
    decreases regions.len(),
{
    let before = regions.drop_last();
    lemma_region_len(scope, start, before);
    lemma_region_len(scope, start, regions);
    let chain = regions[k]->chain@;
    if k < before.len() {
        assert(before[k] == regions[k]);
        assert(before.take(k) =~= regions.take(k));
        lemma_region_bodies(scope, start, before, k, i);
    } else {
        assert(before =~= regions.take(k));
        lemma_chain_len(scope, (start + helpers(before)) as u64, chain);
    }
}

proof fn lemma_region_room(regions: Seq<Region>, k: int)
    requires
        0 <= k < regions.len(),
    ensures
        helpers(regions.take(k)) + (match regions[k] {
            Region::Response { cube, response } => 0,
            Region::Closed { cube, chain } => chain@.len(),
        }) <= helpers(regions),
    decreases regions.len(),
{
    let before = regions.drop_last();
    if k < before.len() {
        assert(before[k] == regions[k]);
        assert(before.take(k) =~= regions.take(k));
        lemma_region_room(before, k);
    } else {
        assert(before =~= regions.take(k));
    }
}

/// What the regions from one on give the variable.
spec fn value_from(model: SkolemModel, universal: Map<Var, bool>, from: int, x: Var) -> bool {
    let last = chain_values(model.final_chain@, universal);
    let values = region_values(model.regions@, from, universal, last);
    if values.contains_key(x) {
        values[x]
    } else {
        value_or_false(last, x)
    }
}

/// The body of a definition has the value of the variable.
#[verifier::rlimit(40)]
proof fn lemma_body_value(program: Seq<Definition>, scope: Scope, env: Seq<bool>, model: SkolemModel, count: nat, from: int, x: Var)
    requires
        scope.universals == model.spec_universals(),
        parameters(scope.names, scope.universals).no_duplicates(),
        env.len() == scope.universals.len(),
        orderly(program, parameters(scope.names, scope.universals), helper_bodies(scope, model)),
        model.final_chain@.len() + helpers(model.regions@) <= u64::MAX,
        responses_agree(model),
        forall|y: Var| #[trigger] model.defines(y) ==> !scope.universals.contains(y),
        !scope.universals.contains(x),
        helper_bodies(scope, model).len() <= count <= program.len(),
        0 <= from <= model.regions@.len(),
    ensures
        eval(
            program,
            count,
            parameters(scope.names, scope.universals),
            env,
            body_term(scope, chain_refs(0, model.final_chain@), model.final_chain@.len() as u64, model.regions@, from, x),
        ) == value_from(model, input_values(scope.universals, env), from, x),
    decreases model.regions@.len() - from,
{
    let us = scope.universals;
    let params = parameters(scope.names, us);
    let universal = input_values(us, env);
    let chain = model.final_chain@;
    let regions = model.regions@;
    let bodies = helper_bodies(scope, model);
    let start = chain.len() as u64;
    let refs = chain_refs(0, chain);
    let last = chain_values(chain, universal);
    lemma_chain_len(scope, 0, chain);
    lemma_region_len(scope, start, regions);
    assert forall|y: Var| #[trigger] in_chain(chain, y) implies !us.contains(y) by {
        assert(model.defines(y));
    }
    assert forall|i: int| 0 <= i < chain.len() implies bodies[0u64 + i] == #[trigger] chain_bodies(scope, 0, chain)[i] by {}
    lemma_chain_value(program, bodies, scope, env, 0, chain, count);
    let base = var_term(scope, refs, x);
    assert(eval(program, count, params, env, base) == assignment_of(last)(x));
    assert(assignment_of(last)(x) == value_or_false(last, x));
    if from < regions.len() {
        let region = regions[from];
        let at = (start + helpers(regions.take(from))) as u64;
        lemma_refs_value(program, count, scope, env, refs, assignment_of(last), region.spec_cube());
        lemma_body_value(program, scope, env, model, count, from + 1, x);
        let value = region_term(scope, at, region, x, base);
        let played = region.play(universal, last);
        assert(eval(program, count, params, env, value) == (if played.contains_key(x) {
            played[x]
        } else {
            value_or_false(last, x)
        })) by {
            match region {
                Region::Response { cube, response } => {
                    assert(region_agrees(regions[from]));
                    lemma_first_on(response@, x);
                    lemma_committed(last, response@, x);
                },
                Region::Closed { cube, chain: inner } => {
                    let own = chain_refs(at, inner@);
                    lemma_region_room(regions, from);
                    lemma_refs_domain(at, inner@, universal, x);
                    lemma_input_missing(us, env, x);
                    lemma_chain_len(scope, at, inner@);
                    assert forall|i: int| 0 <= i < inner@.len() implies bodies[at + i] == #[trigger] chain_bodies(scope, at, inner@)[i] by {
                        lemma_region_bodies(scope, start, regions, from, i);
                    }
                    assert forall|y: Var| #[trigger] in_chain(inner@, y) implies !us.contains(y) by {
                        assert(in_region(regions[from], y));
                        assert(model.defines(y));
                    }
                    lemma_chain_value(program, bodies, scope, env, at, inner@, count);
                    assert(eval(program, count, params, env, var_term(scope, own, x)) == assignment_of(chain_values(inner@, universal))(x));
                },
            }
        }
    }
}

/// Where the definition of a named variable stands, and that the other
/// public ones have other names.
proof fn lemma_public_at(scope: Scope, refs: Map<Var, u64>, start: u64, regions: Seq<Region>, vars: Seq<Var>, k: int) -> (at: int)
    requires
        0 <= k < vars.len(),
        has_name(scope.names, vars[k]),
        forall|i: int, j: int|
            0 <= i < j < vars.len() && has_name(scope.names, #[trigger] vars[i]) && has_name(scope.names, #[trigger] vars[j]) ==> name_of(
                scope.names,
                vars[i],
            ) != name_of(scope.names, vars[j]),
    ensures
        0 <= at < public_program(scope, refs, start, regions, vars).len(),
        public_program(scope, refs, start, regions, vars)[at] == (Definition {
            name: name_of(scope.names, vars[k]),
            params: parameters(scope.names, scope.universals),
            body: body_term(scope, refs, start, regions, 0, vars[k]),
        }),
        forall|j: int|
            0 <= j < public_program(scope, refs, start, regions, vars).len() && j != at ==> (#[trigger] public_program(
                scope,
                refs,
                start,
                regions,
                vars,
            )[j]).name != name_of(scope.names, vars[k]),
    decreases vars.len(),
{
    let few = vars.drop_last();
    let before = public_program(scope, refs, start, regions, few);
    let all = public_program(scope, refs, start, regions, vars);
    let name = name_of(scope.names, vars[k]);
    if k < few.len() {
        assert forall|i: int, j: int|
            0 <= i < j < few.len() && has_name(scope.names, #[trigger] few[i]) && has_name(scope.names, #[trigger] few[j]) implies name_of(
            scope.names,
            few[i],
        ) != name_of(scope.names, few[j]) by {
            assert(few[i] == vars[i] && few[j] == vars[j]);
        }
        assert(few[k] == vars[k]);
        let at = lemma_public_at(scope, refs, start, regions, few, k);
        assert(all[at] == before[at]);
        assert forall|j: int| 0 <= j < all.len() && j != at implies (#[trigger] all[j]).name != name by {
            if j < before.len() {
                assert(all[j] == before[j]);
            } else {
                let n = vars.len() - 1;
                assert(has_name(scope.names, vars[k]) && has_name(scope.names, vars[n]));
            }
        }
        at
    } else {
        let at = before.len() as int;
        assert forall|j: int| 0 <= j < all.len() && j != at implies (#[trigger] all[j]).name != name by {
            assert(all[j] == before[j]);
            let i = lemma_public_from(scope, refs, start, regions, few, j);
            assert(few[i] == vars[i]);
        }
        at
    }
}

proof fn lemma_public_from(scope: Scope, refs: Map<Var, u64>, start: u64, regions: Seq<Region>, vars: Seq<Var>, j: int) -> (i: int)
    requires
        0 <= j < public_program(scope, refs, start, regions, vars).len(),
    ensures
        0 <= i < vars.len(),
        has_name(scope.names, vars[i]),
        public_program(scope, refs, start, regions, vars)[j].name == name_of(scope.names, vars[i]),
    decreases vars.len(),
{
    let few = vars.drop_last();
    let before = public_program(scope, refs, start, regions, few);
    if j < before.len() {
        let i = lemma_public_from(scope, refs, start, regions, few, j);
        assert(few[i] == vars[i]);
        i
    } else {
        vars.len() - 1
    }
}

/// The helpers of a model can be told apart.
proof fn lemma_orderly(scope: Scope, model: SkolemModel)
    requires
        told_apart(scope.names, scope.universals, model.spec_defined_vars(), "_f"@),
    ensures
        orderly(model_program(scope, model), parameters(scope.names, scope.universals), helper_bodies(scope, model)),
{
    let program = model_program(scope, model);
    let bodies = helper_bodies(scope, model);
    let vars = model.spec_defined_vars();
    let n = bodies.len() as int;
    let refs = chain_refs(0, model.final_chain@);
    let start = model.final_chain@.len() as u64;
    let public = public_program(scope, refs, start, model.regions@, vars);
    assert forall|k: int, j: int| 0 <= k < n && 0 <= j < program.len() && j != k implies (#[trigger] program[k]).name != (#[trigger] program[j]).name by {
        assert(program[k].name == "_f"@ + decimal(k as nat));
        if j < n {
            assert(program[j].name == "_f"@ + decimal(j as nat));
            if program[k].name == program[j].name {
                lemma_internal("_f"@, k as nat, j as nat);
            }
        } else {
            let i = lemma_public_from(scope, refs, start, model.regions@, vars, j - n);
            assert(program[j] == public[j - n]);
            assert(!internal("_f"@, name_of(scope.names, vars[i])));
        }
    }
}

proof fn lemma_listed(vars: Seq<Var>, x: Var, y: Var)
    ensures
        listed(vars, x).contains(y) == (vars.contains(y) || y == x),
{
    crate::datastructure::lemma_push_contains(vars, x, y);
}

proof fn lemma_listed_chain(vars: Seq<Var>, chain: Seq<(Lit, Function)>, y: Var)
    ensures
        listed_chain(vars, chain).contains(y) == (vars.contains(y) || in_chain(chain, y)),
    decreases chain.len(),
{
    if chain.len() > 0 {
        let few = chain.drop_last();
        lemma_listed_chain(vars, few, y);
        lemma_listed(listed_chain(vars, few), chain.last().0.v(), y);
        lemma_refs_domain(0, chain, Map::empty(), y);
        lemma_refs_domain(0, few, Map::empty(), y);
    }
}

proof fn lemma_listed_lits(vars: Seq<Var>, lits: Seq<Lit>, y: Var)
    ensures
        listed_lits(vars, lits).contains(y) == (vars.contains(y) || clause_mentions(lits, y)),
    decreases lits.len(),
{
    if lits.len() > 0 {
        let few = lits.drop_last();
        lemma_listed_lits(vars, few, y);
        lemma_listed(listed_lits(vars, few), lits.last().v(), y);
        if clause_mentions(few, y) {
            let i = choose|i: int| 0 <= i < few.len() && (#[trigger] few[i]).v() == y;
            assert(lits[i] == few[i]);
        }
        if lits.last().v() == y {
            assert(lits[lits.len() - 1].v() == y);
        }
        if clause_mentions(lits, y) {
            let i = choose|i: int| 0 <= i < lits.len() && (#[trigger] lits[i]).v() == y;
            if i < few.len() {
                assert(few[i] == lits[i]);
            }
        }
    }
}

proof fn lemma_listed_regions(vars: Seq<Var>, regions: Seq<Region>, y: Var)
    ensures
        listed_regions(vars, regions).contains(y) == (vars.contains(y) || in_regions(regions, y)),
    decreases regions.len(),
{
    if regions.len() > 0 {
        let few = regions.drop_last();
        let last = regions.last();
        let before = listed_regions(vars, few);
        lemma_listed_regions(vars, few, y);
        match last {
            Region::Response { cube, response } => lemma_listed_lits(before, response@, y),
            Region::Closed { cube, chain } => lemma_listed_chain(before, chain@, y),
        }
        if in_regions(few, y) {
            let i = choose|i: int| 0 <= i < few.len() && in_region(#[trigger] few[i], y);
            assert(regions[i] == few[i]);
        }
        if in_region(last, y) {
            assert(in_region(regions[regions.len() - 1], y));
        }
        if in_regions(regions, y) {
            let i = choose|i: int| 0 <= i < regions.len() && in_region(#[trigger] regions[i], y);
            if i < few.len() {
                assert(few[i] == regions[i]);
            }
        }
    }
}

/// The listed variables are those that the model defines.
pub(crate) proof fn lemma_defined_vars(model: SkolemModel, y: Var)
    ensures
        model.spec_defined_vars().contains(y) == model.defines(y),
{
    let first = listed_chain(Seq::empty(), model.final_chain@);
    lemma_listed_chain(Seq::empty(), model.final_chain@, y);
    lemma_listed_regions(first, model.regions@, y);
}

/// The SMT-LIB text of a model consists of definitions such that the
/// function of a named variable has the value that the model gives the
/// variable, for all values of the parameters, as long as the names can be
/// told apart, the model defines no universal variable, and no response has
/// both literals of a variable.
#[verifier::rlimit(40)]
pub proof fn law_written_models_are_defined(model: SkolemModel, names: Map<i32, String>, text: Seq<char>)
    requires
        text == model.smtlib(names),
        model.final_chain@.len() + helpers(model.regions@) <= u64::MAX,
        told_apart(names, model.spec_universals(), model.spec_defined_vars(), "_f"@),
        forall|x: Var| #[trigger] model.defines(x) ==> !model.spec_universals().contains(x),
        responses_agree(model),
    ensures
        exists|program: Seq<Definition>| #[trigger]
            write_model(program) == text && defines_all(
                program,
                names,
                model.spec_universals(),
                model.spec_defined_vars(),
                |env: Seq<bool>, x: Var| circuit_value(model, input_values(model.spec_universals(), env), x),
            ),
{
    let us = model.spec_universals();
    let vars = model.spec_defined_vars();
    let scope = Scope { names, universals: us };
    let params = parameters(names, us);
    let program = model_program(scope, model);
    let bodies = helper_bodies(scope, model);
    let chain = model.final_chain@;
    let start = chain.len() as u64;
    let refs = chain_refs(0, chain);
    let public = public_program(scope, refs, start, model.regions@, vars);
    let value = |env: Seq<bool>, x: Var| circuit_value(model, input_values(us, env), x);
    let n = bodies.len() as int;
    assert forall|i: int| 0 <= i < vars.len() implies !us.contains(#[trigger] vars[i]) by {
        assert(vars.contains(vars[i]));
        lemma_defined_vars(model, vars[i]);
        assert(model.defines(vars[i]));
    }
    lemma_chain_text(scope, 0, chain);
    lemma_regions_text(scope, start, model.regions@);
    lemma_public_text(scope, refs, start, model.regions@, vars);
    lemma_chain_len(scope, 0, chain);
    let (first, second) = (chain_bodies(scope, 0, chain), region_bodies(scope, start, model.regions@));
    assert(numbered_from(scope, 0, bodies) =~= numbered_from(scope, 0, first) + numbered_from(scope, start as int, second));
    lemma_write_definitions(numbered_from(scope, 0, first), numbered_from(scope, start as int, second));
    lemma_write_definitions(numbered_from(scope, 0, bodies), public);
    assert(write_model(program) =~= text);
    lemma_orderly(scope, model);
    assert forall|env: Seq<bool>, i: int|
        #![trigger value(env, vars[i])]
        env.len() == us.len() && 0 <= i < vars.len() && has_name(names, vars[i]) implies apply(program, name_of(names, vars[i]), env) == value(
        env,
        vars[i],
    ) by {
        let k = lemma_public_at(scope, refs, start, model.regions@, vars, i);
        let at = n + k;
        assert(program[at] == public[k]);
        assert forall|j: int| 0 <= j < program.len() && j != at implies (#[trigger] program[j]).name != program[at].name by {
            if j < n {
                assert(program[j].name != program[at].name);
            } else {
                assert(program[j] == public[j - n]);
            }
        }
        lemma_defined_at(program, program.len(), at);
        lemma_body_value(program, scope, env, model, at as nat, 0, vars[i]);
    }
}

/// The definitions of a certified model whose variables all have names
/// satisfy every clause: an assignment in which every defined variable has
/// the value of its function at the universal ones satisfies the clauses.
pub proof fn law_written_definitions_satisfy_the_clauses(
    model: SkolemModel,
    names: Map<i32, String>,
    text: Seq<char>,
    p: Prefix,
    m: Matrix,
)
    requires
        certifies(p, m, model),
        text == model.smtlib(names),
        model.final_chain@.len() + helpers(model.regions@) <= u64::MAX,
        told_apart(names, model.spec_universals(), model.spec_defined_vars(), "_f"@),
        forall|x: Var| #[trigger] model.defines(x) ==> has_name(names, x),
        responses_agree(model),
    ensures
        exists|program: Seq<Definition>| #[trigger]
            write_model(program) == text && forall|a: Assignment|
                (forall|x: Var| #[trigger] model.defines(x) ==> a(x) == apply(program, name_of(names, x), env_of(model.spec_universals(), a)))
                    ==> #[trigger] matrix_true(a, m),
{
    let us = model.spec_universals();
    let vars = model.spec_defined_vars();
    law_written_models_are_defined(model, names, text);
    let value = |env: Seq<bool>, x: Var| circuit_value(model, input_values(us, env), x);
    let program = choose|program: Seq<Definition>| #[trigger] write_model(program) == text && defines_all(program, names, us, vars, value);
    crate::laws::law_certified_models_have_winning_circuits(model, p, m);
    assert(us.no_duplicates()) by {
        let params = parameters(names, us);
        assert forall|j: int, k: int| 0 <= j < us.len() && 0 <= k < us.len() && j != k implies us[j] != us[k] by {
            if us[j] == us[k] {
                assert(params[j] == params[k]);
            }
        }
    }
    assert forall|a: Assignment|
        (forall|x: Var| #[trigger] model.defines(x) ==> a(x) == apply(program, name_of(names, x), env_of(us, a))) implies #[trigger] matrix_true(
        a,
        m,
    ) by {
        let env = env_of(us, a);
        let universal = Map::new(|u: Var| us.contains(u), |u: Var| a(u));
        assert(input_values(us, env) =~= universal) by {
            let found = input_values(us, env);
            assert forall|x: Var|
                #![trigger found.contains_key(x)]
                #![trigger found[x]]
                found.contains_key(x) == us.contains(x) && (us.contains(x) ==> found[x] == a(x)) by {
                if us.contains(x) {
                    let i = choose|i: int| 0 <= i < us.len() && us[i] == x;
                    lemma_input_value(us, env, i);
                } else {
                    lemma_input_missing(us, env, x);
                }
            }
        }
        assert forall|x: Var| #[trigger] model.defines(x) implies a(x) == circuit_value(model, universal, x) by {
            lemma_defined_vars(model, x);
            let i = choose|i: int| 0 <= i < vars.len() && vars[i] == x;
            assert(has_name(names, vars[i]));
            assert(value(env, vars[i]) == circuit_value(model, universal, x));
        }
    }
}

} // verus!
