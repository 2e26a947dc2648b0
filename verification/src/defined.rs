//! What the written SMT-LIB definitions mean.
//!
//! The text of a model or a strategy is a list of definitions. The one of a
//! named variable evaluates to the value that the model or the strategy
//! gives the variable, for all values of the parameters.
use crate::incdet::aig::{wire, MAX_GRAPH};
use crate::literal::Var;
use crate::render::{gate_definitions, graph_ok, output_definitions, output_values, outputs_inside, smt_text, strategy_circuit, term};
use crate::smt::{
    apply, arguments, defined_at, eval, eval_all, lemma_and, lemma_arguments, lemma_defined_at, lemma_write_all, lemma_write_definitions, written,
    write_all, write_definition, write_definitions, write_model, Definition, Term,
};
use crate::strategy::Strategy;
use crate::strategy_check::input_values;
use crate::text::{call, decimal, declarations, definition, has_name, join, name_of, negated, parameter, parameters};
use vstd::prelude::*;
use vstd::string::*;

verus! {

broadcast use crate::literal::group_literal;

/// A term or its negation.
pub open spec fn signed(positive: bool, term: Term) -> Term {
    if positive {
        term
    } else {
        Term::Not(Box::new(term))
    }
}

/// The name is a prefix and a number.
pub open spec fn internal(prefix: Seq<char>, name: Seq<char>) -> bool {
    exists|n: nat| name == prefix + #[trigger] decimal(n)
}

/// The names can be told apart: the parameters from each other, the public
/// definitions from each other and from the internal ones.
pub open spec fn told_apart(names: Map<i32, String>, us: Seq<Var>, vars: Seq<Var>, prefix: Seq<char>) -> bool {
    &&& parameters(names, us).no_duplicates()
    &&& forall|i: int| 0 <= i < us.len() ==> !internal(prefix, parameter(names, #[trigger] us[i]))
    &&& forall|i: int| 0 <= i < vars.len() && has_name(names, #[trigger] vars[i]) ==> !internal(prefix, name_of(names, vars[i]))
    &&& forall|i: int, j: int|
        0 <= i < j < vars.len() && has_name(names, #[trigger] vars[i]) && has_name(names, #[trigger] vars[j]) ==> name_of(names, vars[i])
            != name_of(names, vars[j])
}

/// Different numbers are written differently.
pub(crate) proof fn lemma_internal(prefix: Seq<char>, m: nat, n: nat)
    requires
        prefix + decimal(m) == prefix + decimal(n),
    ensures
        m == n,
{
    assert((prefix + decimal(m)).skip(prefix.len() as int) =~= decimal(m));
    assert((prefix + decimal(n)).skip(prefix.len() as int) =~= decimal(n));
    crate::aiger::listing::lemma_decimal(m);
    crate::aiger::listing::lemma_decimal(n);
}

pub(crate) proof fn lemma_signed(positive: bool, t: Term, text: Seq<char>)
    requires
        written(t) == text,
    ensures
        written(signed(positive, t)) == negated(positive, text),
{
}

pub(crate) proof fn lemma_call_text(name: Seq<char>, params: Seq<Seq<char>>)
    ensures
        written(Term::Call(name, arguments(params))) == call(name, params),
{
    let args = arguments(params);
    if params.len() > 0 {
        assert forall|i: int| 0 <= i < args.len() implies #[trigger] params[i] == written(args[i]) by {}
        lemma_write_all(args, params, args.len());
        assert(written(Term::Call(name, args)) =~= call(name, params));
    }
}

pub(crate) proof fn lemma_definition_text(names: Map<i32, String>, us: Seq<Var>, name: Seq<char>, body: Term, text: Seq<char>)
    requires
        written(body) == text,
    ensures
        write_definition(Definition { name, params: parameters(names, us), body }) == definition(name, join(declarations(names, us)), text),
{
    let params = parameters(names, us);
    assert(Seq::new(params.len(), |i: int| "("@ + params[i] + " Bool)"@) =~= declarations(names, us));
}

/// A call of a definition that can be told apart is its value.
pub(crate) proof fn lemma_called(program: Seq<Definition>, count: nat, params: Seq<Seq<char>>, env: Seq<bool>, at: int)
    requires
        0 <= at < count <= program.len(),
        program[at].params == params,
        params.no_duplicates(),
        env.len() == params.len(),
        forall|j: int| 0 <= j < count && j != at ==> (#[trigger] program[j]).name != program[at].name,
    ensures
        eval(program, count, params, env, Term::Call(program[at].name, arguments(params))) == eval(
            program,
            at as nat,
            params,
            env,
            program[at].body,
        ),
{
    lemma_defined_at(program, count, at);
    lemma_arguments(program, count, params, env);
}

/// A literal of a graph as a term.
spec fn lit_term(names: Map<i32, String>, us: Seq<Var>, lit: u64) -> Term {
    if lit == 0 {
        Term::Truth(false)
    } else if lit == 1 {
        Term::Truth(true)
    } else {
        let var = lit as int / 2;
        signed(
            lit % 2 == 0,
            if var - 1 < us.len() {
                Term::Name(parameter(names, us[var - 1]))
            } else {
                Term::Call("_g"@ + decimal(var as nat), arguments(parameters(names, us)))
            },
        )
    }
}

proof fn lemma_lit_text(names: Map<i32, String>, us: Seq<Var>, lit: u64)
    ensures
        written(lit_term(names, us, lit)) == term(names, us, lit),
{
    if lit > 1 {
        let var = lit as int / 2;
        lemma_call_text("_g"@ + decimal(var as nat), parameters(names, us));
        if var - 1 < us.len() {
            lemma_signed(lit % 2 == 0, Term::Name(parameter(names, us[var - 1])), parameter(names, us[var - 1]));
        } else {
            lemma_signed(
                lit % 2 == 0,
                Term::Call("_g"@ + decimal(var as nat), arguments(parameters(names, us))),
                call("_g"@ + decimal(var as nat), parameters(names, us)),
            );
        }
    }
}

/// The definition of a gate.
spec fn gate_definition(names: Map<i32, String>, us: Seq<Var>, gate: (u64, u64, u64)) -> Definition {
    Definition {
        name: "_g"@ + decimal((gate.0 / 2) as nat),
        params: parameters(names, us),
        body: Term::And(seq![lit_term(names, us, gate.1), lit_term(names, us, gate.2)]),
    }
}

spec fn gate_program(names: Map<i32, String>, us: Seq<Var>, gates: Seq<(u64, u64, u64)>) -> Seq<Definition> {
    Seq::new(gates.len(), |i: int| gate_definition(names, us, gates[i]))
}

proof fn lemma_gate_text(names: Map<i32, String>, us: Seq<Var>, gates: Seq<(u64, u64, u64)>)
    ensures
        write_definitions(gate_program(names, us, gates)) == gate_definitions(names, us, gates),
    decreases gates.len(),
{
    if gates.len() > 0 {
        let few = gates.drop_last();
        let gate = gates.last();
        lemma_gate_text(names, us, few);
        assert(gate_program(names, us, gates).drop_last() =~= gate_program(names, us, few));
        let d = gate_definition(names, us, gate);
        assert(gate_program(names, us, gates).last() == d);
        lemma_lit_text(names, us, gate.1);
        lemma_lit_text(names, us, gate.2);
        let (l, r) = (term(names, us, gate.1), term(names, us, gate.2));
        let terms = seq![lit_term(names, us, gate.1), lit_term(names, us, gate.2)];
        let parts = seq![l, r];
        assert forall|i: int| 0 <= i < 2 implies #[trigger] parts[i] == written(terms[i]) by {}
        lemma_write_all(terms, parts, 2);
        assert(parts.drop_last() =~= seq![l]);
        assert(join(seq![l]) == l);
        assert(join(parts) == join(parts.drop_last()) + " "@ + parts.last());
        assert(join(parts) =~= l + " "@ + r);
        reveal_strlit("(and ");
        reveal_strlit("(and");
        reveal_strlit(" ");
        assert("(and"@ + " "@ =~= "(and "@);
        let text = "(and "@ + l + " "@ + r + ")"@;
        assert(written(d.body) =~= "(and"@ + (" "@ + join(parts)) + ")"@);
        assert("(and"@ + (" "@ + join(parts)) + ")"@ =~= ("(and"@ + " "@) + l + " "@ + r + ")"@);
        lemma_definition_text(names, us, d.name, d.body, text);
    }
}

/// The definitions of the named outputs.
spec fn output_program(names: Map<i32, String>, us: Seq<Var>, outputs: Seq<(Var, u64)>) -> Seq<Definition>
    decreases outputs.len(),
{
    if outputs.len() == 0 {
        Seq::empty()
    } else {
        let (var, lit) = outputs.last();
        let before = output_program(names, us, outputs.drop_last());
        if has_name(names, var) {
            before.push(Definition { name: name_of(names, var), params: parameters(names, us), body: lit_term(names, us, lit) })
        } else {
            before
        }
    }
}

proof fn lemma_output_text(names: Map<i32, String>, us: Seq<Var>, outputs: Seq<(Var, u64)>)
    ensures
        write_definitions(output_program(names, us, outputs)) == output_definitions(names, us, outputs),
    decreases outputs.len(),
{
    if outputs.len() > 0 {
        let few = outputs.drop_last();
        let (var, lit) = outputs.last();
        lemma_output_text(names, us, few);
        if has_name(names, var) {
            let d = Definition { name: name_of(names, var), params: parameters(names, us), body: lit_term(names, us, lit) };
            let before = output_program(names, us, few);
            assert(before.push(d).drop_last() =~= before);
            lemma_lit_text(names, us, lit);
            lemma_definition_text(names, us, d.name, d.body, term(names, us, lit));
        } else {
            assert(output_definitions(names, us, outputs) =~= output_definitions(names, us, few));
        }
    }
}

/// Where the definition of a named output stands, and that the others have
/// other names.
proof fn lemma_output_at(names: Map<i32, String>, us: Seq<Var>, outputs: Seq<(Var, u64)>, k: int) -> (at: int)
    requires
        0 <= k < outputs.len(),
        has_name(names, outputs[k].0),
        forall|i: int, j: int|
            0 <= i < j < outputs.len() && has_name(names, (#[trigger] outputs[i]).0) && has_name(names, (#[trigger] outputs[j]).0)
                ==> name_of(names, outputs[i].0) != name_of(names, outputs[j].0),
    ensures
        0 <= at < output_program(names, us, outputs).len(),
        output_program(names, us, outputs)[at] == (Definition {
            name: name_of(names, outputs[k].0),
            params: parameters(names, us),
            body: lit_term(names, us, outputs[k].1),
        }),
        forall|j: int|
            0 <= j < output_program(names, us, outputs).len() && j != at ==> (#[trigger] output_program(names, us, outputs)[j]).name != name_of(
                names,
                outputs[k].0,
            ),
    decreases outputs.len(),
{
    let few = outputs.drop_last();
    let before = output_program(names, us, few);
    let all = output_program(names, us, outputs);
    let name = name_of(names, outputs[k].0);
    if k < few.len() {
        assert forall|i: int, j: int|
            0 <= i < j < few.len() && has_name(names, (#[trigger] few[i]).0) && has_name(names, (#[trigger] few[j]).0) implies name_of(
            names,
            few[i].0,
        ) != name_of(names, few[j].0) by {
            assert(few[i] == outputs[i] && few[j] == outputs[j]);
        }
        assert(few[k] == outputs[k]);
        let at = lemma_output_at(names, us, few, k);
        assert(all[at] == before[at]);
        assert forall|j: int| 0 <= j < all.len() && j != at implies (#[trigger] all[j]).name != name by {
            if j < before.len() {
                assert(all[j] == before[j]);
            } else {
                let n = outputs.len() - 1;
                assert(has_name(names, outputs[k].0) && has_name(names, outputs[n].0));
            }
        }
        at
    } else {
        let at = before.len() as int;
        assert forall|j: int| 0 <= j < all.len() && j != at implies (#[trigger] all[j]).name != name by {
            assert(all[j] == before[j]);
            let i = lemma_output_from(names, us, few, j);
            assert(few[i] == outputs[i]);
        }
        at
    }
}

/// Every definition is that of a named output.
proof fn lemma_output_from(names: Map<i32, String>, us: Seq<Var>, outputs: Seq<(Var, u64)>, j: int) -> (i: int)
    requires
        0 <= j < output_program(names, us, outputs).len(),
    ensures
        0 <= i < outputs.len(),
        has_name(names, outputs[i].0),
        output_program(names, us, outputs)[j].name == name_of(names, outputs[i].0),
        output_program(names, us, outputs)[j].params == parameters(names, us),
    decreases outputs.len(),
{
    let few = outputs.drop_last();
    let before = output_program(names, us, few);
    if j < before.len() {
        let i = lemma_output_from(names, us, few, j);
        assert(few[i] == outputs[i]);
        i
    } else {
        outputs.len() - 1
    }
}

/// The definitions of a circuit.
spec fn circuit_program(names: Map<i32, String>, us: Seq<Var>, gates: Seq<(u64, u64, u64)>, outputs: Seq<(Var, u64)>) -> Seq<Definition> {
    gate_program(names, us, gates) + output_program(names, us, outputs)
}

/// The definition of a gate can be told apart.
proof fn lemma_gate_apart(
    names: Map<i32, String>,
    us: Seq<Var>,
    gates: Seq<(u64, u64, u64)>,
    outputs: Seq<(Var, u64)>,
    g: int,
    j: int,
)
    requires
        graph_ok(gates, us.len()),
        us.len() + gates.len() < MAX_GRAPH,
        forall|i: int| 0 <= i < outputs.len() && has_name(names, (#[trigger] outputs[i]).0) ==> !internal("_g"@, name_of(names, outputs[i].0)),
        0 <= g < gates.len(),
        0 <= j < circuit_program(names, us, gates, outputs).len(),
        j != g,
    ensures
        circuit_program(names, us, gates, outputs)[j].name != circuit_program(names, us, gates, outputs)[g].name,
{
    let program = circuit_program(names, us, gates, outputs);
    let n = gates.len() as int;
    let m = (gates[g].0 / 2) as nat;
    assert(program[g].name == "_g"@ + decimal(m));
    if j < n {
        let k = (gates[j].0 / 2) as nat;
        assert(gates[g].0 == 2 * (us.len() + 1 + g));
        assert(gates[j].0 == 2 * (us.len() + 1 + j));
        if program[j].name == program[g].name {
            lemma_internal("_g"@, k, m);
        }
    } else {
        let i = lemma_output_from(names, us, outputs, j - n);
        assert(program[j] == output_program(names, us, outputs)[j - n]);
        assert(!internal("_g"@, name_of(names, outputs[i].0)));
    }
}

/// A literal as a term has the value of its wire.
proof fn lemma_lit_value(
    names: Map<i32, String>,
    us: Seq<Var>,
    gates: Seq<(u64, u64, u64)>,
    outputs: Seq<(Var, u64)>,
    count: nat,
    env: Seq<bool>,
    lit: u64,
)
    requires
        graph_ok(gates, us.len()),
        us.len() + gates.len() < MAX_GRAPH,
        forall|i: int| 0 <= i < outputs.len() && has_name(names, (#[trigger] outputs[i]).0) ==> !internal("_g"@, name_of(names, outputs[i].0)),
        parameters(names, us).no_duplicates(),
        env.len() == us.len(),
        count <= circuit_program(names, us, gates, outputs).len(),
        lit as int / 2 <= us.len() + gates.len(),
        lit as int / 2 <= us.len() + count,
    ensures
        eval(circuit_program(names, us, gates, outputs), count, parameters(names, us), env, lit_term(names, us, lit)) == wire(
            gates,
            env,
            lit as int,
        ),
    decreases lit as int / 2,
{
    let program = circuit_program(names, us, gates, outputs);
    let params = parameters(names, us);
    let var = lit as int / 2;
    if lit > 1 {
        let plain = if var - 1 < us.len() {
            Term::Name(parameter(names, us[var - 1]))
        } else {
            Term::Call("_g"@ + decimal(var as nat), arguments(params))
        };
        let value = eval(program, count, params, env, plain);
        assert(eval(program, count, params, env, lit_term(names, us, lit)) == (value == (lit % 2 == 0)));
        if var - 1 < us.len() {
            lemma_arguments(program, count, params, env);
            assert(params[var - 1] == parameter(names, us[var - 1]));
            assert(value == env[var - 1]);
        } else {
            let g = var - us.len() - 1;
            assert(gates[g].0 == 2 * (us.len() + 1 + g));
            assert(program[g] == gate_definition(names, us, gates[g]));
            assert((gates[g].0 / 2) as nat == var as nat);
            assert forall|j: int| 0 <= j < count && j != g implies (#[trigger] program[j]).name != program[g].name by {
                lemma_gate_apart(names, us, gates, outputs, g, j);
            }
            lemma_called(program, count, params, env, g);
            let terms = seq![lit_term(names, us, gates[g].1), lit_term(names, us, gates[g].2)];
            lemma_and(program, g as nat, params, env, terms);
            lemma_lit_value(names, us, gates, outputs, g as nat, env, gates[g].1);
            lemma_lit_value(names, us, gates, outputs, g as nat, env, gates[g].2);
            assert(terms[0] == lit_term(names, us, gates[g].1) && terms[1] == lit_term(names, us, gates[g].2));
            assert(value == (wire(gates, env, gates[g].1 as int) && wire(gates, env, gates[g].2 as int)));
        }
    }
}

proof fn lemma_output_value(gates: Seq<(u64, u64, u64)>, env: Seq<bool>, outputs: Seq<(Var, u64)>, k: int)
    requires
        0 <= k < outputs.len(),
        forall|i: int, j: int| 0 <= i < j < outputs.len() ==> (#[trigger] outputs[i]).0.id() < (#[trigger] outputs[j]).0.id(),
    ensures
        output_values(gates, env, outputs).contains_key(outputs[k].0),
        output_values(gates, env, outputs)[outputs[k].0] == wire(gates, env, outputs[k].1 as int),
    decreases outputs.len(),
{
    let few = outputs.drop_last();
    if k < few.len() {
        assert forall|i: int, j: int| 0 <= i < j < few.len() implies (#[trigger] few[i]).0.id() < (#[trigger] few[j]).0.id() by {
            assert(few[i] == outputs[i] && few[j] == outputs[j]);
        }
        lemma_output_value(gates, env, few, k);
        assert(few[k] == outputs[k]);
        assert(outputs[k].0.id() < outputs[outputs.len() - 1].0.id());
    }
}

/// The definitions give every named variable of the list the values of the
/// function.
pub open spec fn defines_all(program: Seq<Definition>, names: Map<i32, String>, us: Seq<Var>, vars: Seq<Var>, value: spec_fn(Seq<bool>, Var) -> bool) -> bool {
    forall|env: Seq<bool>, i: int|
        #![trigger value(env, vars[i])]
        env.len() == us.len() && 0 <= i < vars.len() && has_name(names, vars[i]) ==> apply(program, name_of(names, vars[i]), env) == value(
            env,
            vars[i],
        )
}

/// The SMT-LIB text of a strategy consists of definitions such that the
/// function of a named variable has the value that the strategy gives the
/// variable, for all values of the parameters, as long as the names can be
/// told apart.
pub proof fn law_written_strategies_are_defined(
    strategy: Strategy,
    us: Seq<Var>,
    names: Map<i32, String>,
    gates: Seq<(u64, u64, u64)>,
    outputs: Seq<(Var, u64)>,
    text: Seq<char>,
)
    requires
        strategy_circuit(strategy, us, gates, outputs),
        text == smt_text(names, us, gates, outputs),
        us.len() + gates.len() + 1 < MAX_GRAPH,
        told_apart(names, us, Seq::new(outputs.len(), |i: int| outputs[i].0), "_g"@),
    ensures
        exists|program: Seq<Definition>| #[trigger]
            write_model(program) == text && defines_all(
                program,
                names,
                us,
                Seq::new(outputs.len(), |i: int| outputs[i].0),
                |env: Seq<bool>, x: Var| strategy.circuit(input_values(us, env), Map::empty())[x],
            ),
{
    let vars = Seq::new(outputs.len(), |i: int| outputs[i].0);
    let program = circuit_program(names, us, gates, outputs);
    let params = parameters(names, us);
    let value = |env: Seq<bool>, x: Var| strategy.circuit(input_values(us, env), Map::empty())[x];
    lemma_gate_text(names, us, gates);
    lemma_output_text(names, us, outputs);
    lemma_write_definitions(gate_program(names, us, gates), output_program(names, us, outputs));
    assert(write_model(program) =~= text);
    assert forall|i: int| 0 <= i < outputs.len() && has_name(names, (#[trigger] outputs[i]).0) implies !internal(
        "_g"@,
        name_of(names, outputs[i].0),
    ) by {
        assert(has_name(names, vars[i]));
    }
    assert forall|i: int, j: int|
        0 <= i < j < outputs.len() && has_name(names, (#[trigger] outputs[i]).0) && has_name(names, (#[trigger] outputs[j]).0) implies name_of(
        names,
        outputs[i].0,
    ) != name_of(names, outputs[j].0) by {
        assert(has_name(names, vars[i]) && has_name(names, vars[j]));
    }
    assert forall|env: Seq<bool>, i: int|
        #![trigger value(env, vars[i])]
        env.len() == us.len() && 0 <= i < vars.len() && has_name(names, vars[i]) implies apply(program, name_of(names, vars[i]), env) == value(
        env,
        vars[i],
    ) by {
        let n = gates.len() as int;
        let k = lemma_output_at(names, us, outputs, i);
        let at = n + k;
        assert(program[at] == output_program(names, us, outputs)[k]);
        assert forall|j: int| 0 <= j < program.len() && j != at implies (#[trigger] program[j]).name != program[at].name by {
            if j < n {
                assert(program[j] == gate_definition(names, us, gates[j]));
                assert(!internal("_g"@, name_of(names, outputs[i].0)));
            } else {
                assert(program[j] == output_program(names, us, outputs)[j - n]);
            }
        }
        lemma_defined_at(program, program.len(), at);
        assert(outputs[i].1 as int / 2 <= us.len() + gates.len());
        lemma_lit_value(names, us, gates, outputs, at as nat, env, outputs[i].1);
        lemma_output_value(gates, env, outputs, i);
        assert(output_values(gates, env, outputs) == strategy.circuit(input_values(us, env), Map::empty()));
    }
}

} // verus!
