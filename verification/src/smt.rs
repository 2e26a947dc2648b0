//! The meaning of SMT-LIB definitions.
//!
//! Definitions of Boolean functions, as terms: how they are written, and
//! what they evaluate to. A name stands for a parameter, and a call for the
//! last definition of the name before.
use crate::text::join;
use vstd::prelude::*;
use vstd::string::*;

verus! {

/// A Boolean term.
pub ghost enum Term {
    Truth(bool),
    Name(Seq<char>),
    Not(Box<Term>),
    And(Seq<Term>),
    Or(Seq<Term>),
    Ite(Box<Term>, Box<Term>, Box<Term>),
    Call(Seq<char>, Seq<Term>),
}

/// A definition of a Boolean function.
pub ghost struct Definition {
    pub name: Seq<char>,
    pub params: Seq<Seq<char>>,
    pub body: Term,
}

/// A term as text.
pub open spec fn written(term: Term) -> Seq<char>
    decreases term, 0nat,
{
    match term {
        Term::Truth(value) => if value {
            "true"@
        } else {
            "false"@
        },
        Term::Name(name) => name,
        Term::Not(inner) => "(not "@ + written(*inner) + ")"@,
        Term::And(terms) => "(and"@ + write_all(terms, terms.len()) + ")"@,
        Term::Or(terms) => "(or"@ + write_all(terms, terms.len()) + ")"@,
        Term::Ite(cond, yes, no) => "(ite "@ + written(*cond) + " "@ + written(*yes) + " "@ + written(*no) + ")"@,
        Term::Call(name, args) => if args.len() == 0 {
            name
        } else {
            "("@ + name + write_all(args, args.len()) + ")"@
        },
    }
}

/// The first terms as text, each behind a blank.
pub open spec fn write_all(terms: Seq<Term>, count: nat) -> Seq<char>
    decreases terms, count,
{
    if count == 0 || count > terms.len() {
        Seq::empty()
    } else {
        write_all(terms, (count - 1) as nat) + " "@ + written(terms[count - 1])
    }
}

/// A definition as text.
pub open spec fn write_definition(definition: Definition) -> Seq<char> {
    "  (define-fun "@ + definition.name + " ("@ + join(
        Seq::new(definition.params.len(), |i: int| "("@ + definition.params[i] + " Bool)"@),
    ) + ") Bool "@ + written(definition.body) + ")\n"@
}

/// Definitions as text.
pub open spec fn write_definitions(program: Seq<Definition>) -> Seq<char>
    decreases program.len(),
{
    if program.len() == 0 {
        Seq::empty()
    } else {
        write_definitions(program.drop_last()) + write_definition(program.last())
    }
}

/// A model as text: definitions in parentheses.
pub open spec fn write_model(program: Seq<Definition>) -> Seq<char> {
    "(\n"@ + write_definitions(program) + ")\n"@
}

/// The last definition of the name among the first ones, or -1.
pub open spec fn defined_at(program: Seq<Definition>, count: nat, name: Seq<char>) -> int
    decreases count,
{
    if count == 0 || count > program.len() {
        -1
    } else if program[count - 1].name == name {
        count - 1
    } else {
        defined_at(program, (count - 1) as nat, name)
    }
}

/// The value of a term behind the first definitions, with values for the
/// parameters.
pub open spec fn eval(program: Seq<Definition>, count: nat, params: Seq<Seq<char>>, env: Seq<bool>, term: Term) -> bool
    decreases count, term, 0nat,
{
    match term {
        Term::Truth(value) => value,
        Term::Name(name) => params.contains(name) && env[params.index_of(name)],
        Term::Not(inner) => !eval(program, count, params, env, *inner),
        Term::And(terms) => !eval_all(program, count, params, env, terms, terms.len()).contains(false),
        Term::Or(terms) => eval_all(program, count, params, env, terms, terms.len()).contains(true),
        Term::Ite(cond, yes, no) => if eval(program, count, params, env, *cond) {
            eval(program, count, params, env, *yes)
        } else {
            eval(program, count, params, env, *no)
        },
        Term::Call(name, args) => {
            let at = defined_at(program, count, name);
            if 0 <= at < count {
                eval(
                    program,
                    at as nat,
                    program[at].params,
                    eval_all(program, count, params, env, args, args.len()),
                    program[at].body,
                )
            } else {
                false
            }
        },
    }
}

/// The values of the first terms.
pub open spec fn eval_all(
    program: Seq<Definition>,
    count: nat,
    params: Seq<Seq<char>>,
    env: Seq<bool>,
    terms: Seq<Term>,
    first: nat,
) -> Seq<bool>
    decreases count, terms, first,
{
    if first == 0 || first > terms.len() {
        Seq::empty()
    } else {
        eval_all(program, count, params, env, terms, (first - 1) as nat).push(eval(program, count, params, env, terms[first - 1]))
    }
}

/// The value of the function of the given name, applied to values.
pub open spec fn apply(program: Seq<Definition>, name: Seq<char>, env: Seq<bool>) -> bool {
    let at = defined_at(program, program.len(), name);
    0 <= at < program.len() && eval(program, at as nat, program[at].params, env, program[at].body)
}

pub proof fn lemma_eval_all(program: Seq<Definition>, count: nat, params: Seq<Seq<char>>, env: Seq<bool>, terms: Seq<Term>, first: nat)
    requires
        first <= terms.len(),
    ensures
        eval_all(program, count, params, env, terms, first).len() == first,
        forall|i: int|
            0 <= i < first ==> #[trigger] eval_all(program, count, params, env, terms, first)[i] == eval(program, count, params, env, terms[i]),
    decreases first,
{
    if first > 0 {
        lemma_eval_all(program, count, params, env, terms, (first - 1) as nat);
    }
}

/// A conjunction holds where all its parts do.
pub proof fn lemma_and(program: Seq<Definition>, count: nat, params: Seq<Seq<char>>, env: Seq<bool>, terms: Seq<Term>)
    ensures
        eval(program, count, params, env, Term::And(terms)) == forall|i: int|
            0 <= i < terms.len() ==> eval(program, count, params, env, #[trigger] terms[i]),
{
    let all = eval_all(program, count, params, env, terms, terms.len());
    lemma_eval_all(program, count, params, env, terms, terms.len());
    if all.contains(false) {
        let i = choose|i: int| 0 <= i < all.len() && all[i] == false;
        assert(!eval(program, count, params, env, terms[i]));
    } else {
        assert forall|i: int| 0 <= i < terms.len() implies eval(program, count, params, env, #[trigger] terms[i]) by {
            if !all[i] {
                assert(all.contains(all[i]));
            }
        }
    }
}

/// A disjunction holds where one of its parts does.
pub proof fn lemma_or(program: Seq<Definition>, count: nat, params: Seq<Seq<char>>, env: Seq<bool>, terms: Seq<Term>)
    ensures
        eval(program, count, params, env, Term::Or(terms)) == exists|i: int|
            0 <= i < terms.len() && eval(program, count, params, env, #[trigger] terms[i]),
{
    let all = eval_all(program, count, params, env, terms, terms.len());
    lemma_eval_all(program, count, params, env, terms, terms.len());
    if all.contains(true) {
        let i = choose|i: int| 0 <= i < all.len() && all[i] == true;
        assert(eval(program, count, params, env, terms[i]));
    }
    if exists|i: int| 0 <= i < terms.len() && eval(program, count, params, env, #[trigger] terms[i]) {
        let i = choose|i: int| 0 <= i < terms.len() && eval(program, count, params, env, #[trigger] terms[i]);
        assert(all[i]);
        assert(all.contains(all[i]));
    }
}

/// Terms behind blanks are terms separated by blanks.
pub proof fn lemma_write_all(terms: Seq<Term>, parts: Seq<Seq<char>>, count: nat)
    requires
        0 < count <= terms.len(),
        parts.len() == count,
        forall|i: int| 0 <= i < count ==> #[trigger] parts[i] == written(terms[i]),
    ensures
        write_all(terms, count) == " "@ + join(parts),
    decreases count,
{
    if count == 1 {
        assert(write_all(terms, 0) =~= Seq::<char>::empty());
        assert(write_all(terms, count) =~= " "@ + join(parts));
    } else {
        let few = parts.drop_last();
        assert forall|i: int| 0 <= i < few.len() implies #[trigger] few[i] == written(terms[i]) by {
            assert(few[i] == parts[i]);
        }
        lemma_write_all(terms, few, (count - 1) as nat);
        assert(parts[count - 1] == written(terms[count - 1]));
        assert(write_all(terms, count) =~= " "@ + join(parts));
    }
}

pub proof fn lemma_write_definitions(first: Seq<Definition>, second: Seq<Definition>)
    ensures
        write_definitions(first + second) == write_definitions(first) + write_definitions(second),
    decreases second.len(),
{
    if second.len() == 0 {
        assert(first + second =~= first);
        assert(write_definitions(first) + write_definitions(second) =~= write_definitions(first));
    } else {
        assert((first + second).drop_last() =~= first + second.drop_last());
        lemma_write_definitions(first, second.drop_last());
        assert(write_definitions(first + second) =~= write_definitions(first) + write_definitions(second));
    }
}

/// The parameters as terms.
pub open spec fn arguments(params: Seq<Seq<char>>) -> Seq<Term> {
    Seq::new(params.len(), |i: int| Term::Name(params[i]))
}

/// Parameters with different names evaluate to their values.
pub proof fn lemma_arguments(program: Seq<Definition>, count: nat, params: Seq<Seq<char>>, env: Seq<bool>)
    requires
        params.no_duplicates(),
        env.len() == params.len(),
    ensures
        eval_all(program, count, params, env, arguments(params), params.len()) == env,
        forall|i: int| 0 <= i < params.len() ==> eval(program, count, params, env, Term::Name(#[trigger] params[i])) == env[i],
{
    assert forall|i: int| 0 <= i < params.len() implies eval(program, count, params, env, Term::Name(#[trigger] params[i])) == env[i] by {
        assert(params.contains(params[i]));
        let k = params.index_of(params[i]);
        assert(0 <= k < params.len() && params[k] == params[i]);
    }
    lemma_eval_all(program, count, params, env, arguments(params), params.len());
    let all = eval_all(program, count, params, env, arguments(params), params.len());
    assert forall|i: int| 0 <= i < env.len() implies all[i] == env[i] by {
        assert(arguments(params)[i] == Term::Name(params[i]));
    }
    assert(all =~= env);
}

/// The definition of a name that no other has is the last one.
pub proof fn lemma_defined_at(program: Seq<Definition>, count: nat, at: int)
    requires
        0 <= at < count <= program.len(),
        forall|j: int| 0 <= j < count && j != at ==> (#[trigger] program[j]).name != program[at].name,
    ensures
        defined_at(program, count, program[at].name) == at,
    decreases count,
{
    if at != count - 1 {
        assert(program[count - 1].name != program[at].name);
        lemma_defined_at(program, (count - 1) as nat, at);
    }
}

} // verus!
