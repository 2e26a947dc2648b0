//! Strategies as text: ASCII AIGER circuits and SMT-LIB definitions.
use crate::datastructure::VarMap;
use crate::incdet::aig::{wire, AigBuilder, MAX_GRAPH};
use crate::incdet::circuit::{circuit_value, point, wires_ok};
use crate::incdet::model::SkolemModel;
use crate::literal::Var;
use crate::strategy::Strategy;
use crate::strategy_check::{input_values, names_within};
use crate::text::{
    call, call_text, decimal, declarations, declare, definition, has_name, join, label, lookup_name, name_of, negated,
    parameter, parameter_names, parameters, push_decimal, push_definition, push_label, push_negated, texts,
};
use std::collections::HashMap;
use vstd::prelude::*;
use vstd::string::*;

verus! {

broadcast use crate::literal::group_literal;

/// Lines of text.
pub open spec fn lines(n: nat, line: spec_fn(int) -> Seq<char>) -> Seq<char>
    decreases n,
{
    if n == 0 {
        Seq::empty()
    } else {
        lines((n - 1) as nat, line) + line(n - 1) + "\n"@
    }
}

/// The first line of an AIGER file without latches.
pub open spec fn aag_header(inputs: nat, outputs: nat, gates: nat) -> Seq<char> {
    "aag "@ + decimal(inputs + gates) + " "@ + decimal(inputs) + " 0 "@ + decimal(outputs) + " "@ + decimal(gates) + "\n"@
}

/// A gate of an AIGER file.
pub open spec fn gate_line(gate: (u64, u64, u64)) -> Seq<char> {
    decimal(gate.0 as nat) + " "@ + decimal(gate.1 as nat) + " "@ + decimal(gate.2 as nat)
}

/// An entry of the symbol table of an AIGER file.
pub open spec fn symbol_line(kind: Seq<char>, position: int, name: Seq<char>) -> Seq<char> {
    kind + decimal(position as nat) + " "@ + name
}

/// An ASCII AIGER file: the header, the inputs, the outputs, the gates, and
/// the symbol table of inputs and outputs.
pub open spec fn aag_text(gates: Seq<(u64, u64, u64)>, outputs: Seq<(Var, u64)>, universals: Seq<Var>, names: Map<i32, String>) -> Seq<char> {
    aag_header(universals.len(), outputs.len(), gates.len()) + lines(
        universals.len(),
        |i: int| decimal((2 * (i + 1)) as nat),
    ) + lines(outputs.len(), |i: int| decimal(outputs[i].1 as nat)) + lines(gates.len(), |i: int| gate_line(gates[i]))
        + lines(universals.len(), |i: int| symbol_line("i"@, i, label(names, universals[i]))) + lines(
        outputs.len(),
        |i: int| symbol_line("o"@, i, label(names, outputs[i].0)),
    )
}

fn push_header(out: &mut String, inputs: usize, outputs: usize, gates: usize)
    requires
        inputs + gates < MAX_GRAPH,
    ensures
        final(out)@ == old(out)@ + aag_header(inputs as nat, outputs as nat, gates as nat),
{
    let ghost start = out@;
    out.append("aag ");
    push_decimal(out, inputs as u64 + gates as u64);
    out.append(" ");
    push_decimal(out, inputs as u64);
    out.append(" 0 ");
    push_decimal(out, outputs as u64);
    out.append(" ");
    push_decimal(out, gates as u64);
    out.append("\n");
    assert(out@ =~= start + aag_header(inputs as nat, outputs as nat, gates as nat));
}

fn push_symbol(out: &mut String, kind: &str, position: usize, names: &HashMap<i32, String>, var: Var)
    ensures
        final(out)@ == old(out)@ + symbol_line(kind@, position as int, label(names@, var)) + "\n"@,
{
    let ghost start = out@;
    out.append(kind);
    push_decimal(out, position as u64);
    out.append(" ");
    push_label(out, names, var);
    out.append("\n");
    assert(out@ =~= start + symbol_line(kind@, position as int, label(names@, var)) + "\n"@);
}

/// Renders a graph with named outputs as ASCII AIGER.
pub(crate) fn render(aig: &AigBuilder, outputs: &Vec<(Var, u64)>, universals: &Vec<Var>, names: &HashMap<i32, String>) -> (text: String)
    requires
        aig.wf(),
        aig.spec_inputs() == universals@.len(),
    ensures
        text@ == aag_text(aig.spec_gates(), outputs@, universals@, names@),
{
    let ghost gates = aig.spec_gates();
    let ghost us = universals@;
    let ghost os = outputs@;
    let ghost input_line = |i: int| decimal((2 * (i + 1)) as nat);
    let ghost output_line = |i: int| decimal(os[i].1 as nat);
    let ghost and_line = |i: int| gate_line(gates[i]);
    let ghost input_symbol = |i: int| symbol_line("i"@, i, label(names@, us[i]));
    let ghost output_symbol = |i: int| symbol_line("o"@, i, label(names@, os[i].0));
    proof {
        aig.lemma_wf();
    }
    let mut out = String::new();
    push_header(&mut out, universals.len(), outputs.len(), aig.gates().len());
    let ghost s0 = out@;
    assert(s0 =~= aag_header(us.len(), os.len(), gates.len()));
    let mut k: usize = 0;
    assert(s0 + lines(0, input_line) =~= s0);
    while k < universals.len()
        invariant
            k <= us.len(),
            us == universals@,
            us.len() < MAX_GRAPH,
            input_line == (|i: int| decimal((2 * (i + 1)) as nat)),
            out@ == s0 + lines(k as nat, input_line),
        decreases us.len() - k,
    {
        let ghost before = out@;
        push_decimal(&mut out, AigBuilder::input(k));
        out.append("\n");
        assert(out@ =~= s0 + lines((k + 1) as nat, input_line));
        k += 1;
    }
    let ghost s1 = out@;
    let mut k: usize = 0;
    assert(s1 + lines(0, output_line) =~= s1);
    while k < outputs.len()
        invariant
            k <= os.len(),
            os == outputs@,
            output_line == (|i: int| decimal(os[i].1 as nat)),
            out@ == s1 + lines(k as nat, output_line),
        decreases os.len() - k,
    {
        let ghost before = out@;
        push_decimal(&mut out, outputs[k].1);
        out.append("\n");
        assert(out@ =~= s1 + lines((k + 1) as nat, output_line));
        k += 1;
    }
    let ghost s2 = out@;
    let mut k: usize = 0;
    assert(s2 + lines(0, and_line) =~= s2);
    while k < aig.gates().len()
        invariant
            k <= gates.len(),
            gates == aig.spec_gates(),
            and_line == (|i: int| gate_line(gates[i])),
            out@ == s2 + lines(k as nat, and_line),
        decreases gates.len() - k,
    {
        let ghost before = out@;
        let (lhs, rhs0, rhs1) = aig.gates()[k];
        push_decimal(&mut out, lhs);
        out.append(" ");
        push_decimal(&mut out, rhs0);
        out.append(" ");
        push_decimal(&mut out, rhs1);
        out.append("\n");
        assert(gates[k as int] == (lhs, rhs0, rhs1));
        assert(out@ =~= s2 + lines((k + 1) as nat, and_line));
        k += 1;
    }
    let ghost s3 = out@;
    let mut k: usize = 0;
    assert(s3 + lines(0, input_symbol) =~= s3);
    while k < universals.len()
        invariant
            k <= us.len(),
            us == universals@,
            input_symbol == (|i: int| symbol_line("i"@, i, label(names@, us[i]))),
            out@ == s3 + lines(k as nat, input_symbol),
        decreases us.len() - k,
    {
        let ghost before = out@;
        push_symbol(&mut out, "i", k, names, universals[k]);
        assert(out@ =~= s3 + lines((k + 1) as nat, input_symbol));
        k += 1;
    }
    let ghost s4 = out@;
    let mut k: usize = 0;
    assert(s4 + lines(0, output_symbol) =~= s4);
    while k < outputs.len()
        invariant
            k <= os.len(),
            os == outputs@,
            output_symbol == (|i: int| symbol_line("o"@, i, label(names@, os[i].0))),
            out@ == s4 + lines(k as nat, output_symbol),
        decreases os.len() - k,
    {
        let ghost before = out@;
        push_symbol(&mut out, "o", k, names, outputs[k].0);
        assert(out@ =~= s4 + lines((k + 1) as nat, output_symbol));
        k += 1;
    }
    out
}

/// The gates are those of a graph over the inputs in which every gate
/// refers to earlier ones.
pub open spec fn graph_ok(gates: Seq<(u64, u64, u64)>, inputs: nat) -> bool {
    forall|i: int|
        0 <= i < gates.len() ==> (#[trigger] gates[i]).0 == 2 * (inputs + 1 + i) && gates[i].1 < gates[i].0 && gates[i].2
            < gates[i].0
}

/// The outputs are literals of the constant and of variables up to the
/// given one.
pub open spec fn outputs_inside(outputs: Seq<(Var, u64)>, last: nat) -> bool {
    forall|i: int| 0 <= i < outputs.len() ==> (#[trigger] outputs[i]).1 as int / 2 <= last
}

/// The text is an AIGER file whose outputs are the variables that the
/// model defines and compute its functions. A circuit beyond the numbering
/// may compute anything.
pub open spec fn model_circuit(model: SkolemModel, names: Map<i32, String>, text: Seq<char>, gates: Seq<(u64, u64, u64)>, outputs: Seq<(Var, u64)>) -> bool {
    let us = model.spec_universals();
    &&& text == aag_text(gates, outputs, us, names)
    &&& graph_ok(gates, us.len())
    &&& gates.len() <= model.gate_bound()
    &&& outputs_inside(outputs, us.len() + gates.len())
    &&& outputs.len() == model.spec_defined_vars().len()
    &&& forall|i: int| 0 <= i < outputs.len() ==> (#[trigger] outputs[i]).0 == model.spec_defined_vars()[i]
    &&& us.len() + gates.len() + 1 < MAX_GRAPH ==> forall|env: Seq<bool>, i: int|
        #![trigger wire(gates, env, outputs[i].1 as int)]
        env.len() == us.len() && 0 <= i < outputs.len() ==> wire(gates, env, outputs[i].1 as int) == circuit_value(
            model,
            input_values(us, env),
            outputs[i].0,
        )
}

impl SkolemModel {
    /// Renders the model as a strategy circuit in ASCII AIGER format: the
    /// universal variables are the circuit inputs and every variable the
    /// model defines is an output computing its Skolem function. `names`
    /// maps DIMACS variables to their surface names; unnamed variables are
    /// labeled with their DIMACS number.
    pub fn to_aiger(&self, names: &HashMap<i32, String>) -> (text: String)
        requires
            self.spec_universals().len() < MAX_GRAPH,
        ensures
            exists|gates: Seq<(u64, u64, u64)>, outputs: Seq<(Var, u64)>| #[trigger]
                model_circuit(*self, names@, text@, gates, outputs),
    {
        let ghost us = self.universals@;
        let mut aig = AigBuilder::new(self.universals.len());
        let inputs = input_wires(&self.universals, &aig);
        let ghost start = aig;
        let outputs = self.build_into(&mut aig, &inputs);
        let text = render(&aig, &outputs, &self.universals, names);
        proof {
            aig.lemma_wf();
            let gates = aig.spec_gates();
            if us.len() + gates.len() + 1 < MAX_GRAPH {
                aig.lemma_not_full();
                assert forall|env: Seq<bool>, i: int|
                    #![trigger wire(gates, env, outputs@[i].1 as int)]
                    env.len() == us.len() && 0 <= i < outputs@.len() implies wire(gates, env, outputs@[i].1 as int)
                    == circuit_value(*self, input_values(us, env), outputs@[i].0) by {
                    crate::incdet::circuit::lemma_point_grows(&start, &aig, inputs@, env);
                    assert(point(start.spec_gates(), env, inputs@) == input_values(us, env));
                }
            }
            assert(model_circuit(*self, names@, text@, gates, outputs@));
        }
        text
    }
}

/// The wires of the inputs.
pub(crate) fn input_wires(universals: &Vec<Var>, aig: &AigBuilder) -> (inputs: VarMap<u64>)
    requires
        universals@.len() < MAX_GRAPH,
        aig.wf(),
        aig.spec_inputs() == universals@.len(),
        aig.spec_gates() == Seq::<(u64, u64, u64)>::empty(),
    ensures
        wires_ok(aig, inputs@),
        forall|env: Seq<bool>|
            env.len() == universals@.len() ==> #[trigger] point(aig.spec_gates(), env, inputs@) == input_values(universals@, env),
{
    let mut inputs: VarMap<u64> = VarMap::new();
    let mut k: usize = 0;
    let ghost gates = aig.spec_gates();
    assert(universals@.take(0) =~= Seq::<Var>::empty());
    proof {
        assert forall|env: Seq<bool>| #[trigger] point(gates, env, inputs@) == Map::<Var, bool>::empty() by {
            assert(point(gates, env, inputs@) =~= Map::empty());
        }
    }
    while k < universals.len()
        invariant
            k <= universals@.len(),
            universals@.len() < MAX_GRAPH,
            aig.wf(),
            aig.spec_inputs() == universals@.len(),
            gates == aig.spec_gates(),
            wires_ok(aig, inputs@),
            forall|env: Seq<bool>|
                env.len() == universals@.len() ==> #[trigger] point(gates, env, inputs@) == input_values(
                    universals@.take(k as int),
                    env,
                ),
        decreases universals.len() - k,
    {
        let var = universals[k];
        let lit = AigBuilder::input(k);
        let ghost before = inputs@;
        inputs.insert(var, lit);
        proof {
            let part = universals@.take(k as int);
            let next = universals@.take(k as int + 1);
            assert(next.drop_last() =~= part);
            assert(next.last() == var);
            assert forall|env: Seq<bool>| env.len() == universals@.len() implies #[trigger] point(gates, env, inputs@)
                == input_values(next, env) by {
                assert(point(gates, env, before) == input_values(part, env));
                assert(wire(gates, env, lit as int) == env[k as int]);
                assert(point(gates, env, inputs@) =~= point(gates, env, before).insert(var, env[k as int]));
            }
            assert forall|x: Var| #[trigger] inputs@.contains_key(x) implies aig.has(inputs@[x]) by {
                if x != var {
                    assert(before.contains_key(x));
                }
            }
        }
        k += 1;
    }
    assert(universals@.take(universals@.len() as int) =~= universals@);
    inputs
}

/// The text is an AIGER file whose outputs are the variables that the
/// strategy determines, in order, and compute their values, with gates
/// only where the strategy has something to select. A circuit beyond the
/// numbering may compute anything.
pub open spec fn strategy_circuit(strategy: Strategy, us: Seq<Var>, gates: Seq<(u64, u64, u64)>, outputs: Seq<(Var, u64)>) -> bool {
    &&& graph_ok(gates, us.len())
    &&& outputs_inside(outputs, us.len() + gates.len())
    &&& forall|set: Set<Var>| #[trigger] names_within(strategy, set) ==> gates.len() <= strategy.gate_bound(set.len())
    &&& forall|i: int, j: int| 0 <= i < j < outputs.len() ==> (#[trigger] outputs[i]).0.id() < (#[trigger] outputs[j]).0.id()
    &&& us.len() + gates.len() + 1 < MAX_GRAPH ==> forall|env: Seq<bool>|
        env.len() == us.len() ==> #[trigger] output_values(gates, env, outputs) == strategy.circuit(input_values(us, env), Map::empty())
}

/// The values of the outputs.
pub open spec fn output_values(gates: Seq<(u64, u64, u64)>, env: Seq<bool>, outputs: Seq<(Var, u64)>) -> Map<Var, bool>
    decreases outputs.len(),
{
    if outputs.len() == 0 {
        Map::empty()
    } else {
        output_values(gates, env, outputs.drop_last()).insert(outputs.last().0, wire(gates, env, outputs.last().1 as int))
    }
}

/// The outputs of a strategy circuit, by increasing variable.
pub(crate) fn sorted_outputs(values: &VarMap<u64>) -> (outputs: Vec<(Var, u64)>)
    ensures
        forall|i: int, j: int| 0 <= i < j < outputs@.len() ==> (#[trigger] outputs@[i]).0.id() < (#[trigger] outputs@[j]).0.id(),
        forall|gates: Seq<(u64, u64, u64)>, env: Seq<bool>| #[trigger]
            output_values(gates, env, outputs@) == point(gates, env, values@),
        forall|i: int| 0 <= i < outputs@.len() ==> values@.contains_key((#[trigger] outputs@[i]).0) && values@[outputs@[i].0]
            == outputs@[i].1,
{
    let keys = values.keys();
    let mut outputs: Vec<(Var, u64)> = Vec::new();
    let mut k: usize = 0;
    while k < keys.len()
        invariant
            k <= keys@.len(),
            outputs@.len() == k,
            forall|i: int| 0 <= i < keys@.len() ==> values@.contains_key(#[trigger] keys@[i]),
            forall|i: int, j: int| 0 <= i < j < keys@.len() ==> (#[trigger] keys@[i]).id() < (#[trigger] keys@[j]).id(),
            forall|i: int| 0 <= i < k ==> (#[trigger] outputs@[i]).0 == keys@[i] && outputs@[i].1 == values@[keys@[i]],
            forall|gates: Seq<(u64, u64, u64)>, env: Seq<bool>, x: Var|
                #![trigger output_values(gates, env, outputs@).contains_key(x)]
                output_values(gates, env, outputs@).contains_key(x) <==> keys@.take(k as int).contains(x),
            forall|gates: Seq<(u64, u64, u64)>, env: Seq<bool>, x: Var|
                #![trigger output_values(gates, env, outputs@)[x]]
                keys@.take(k as int).contains(x) ==> output_values(gates, env, outputs@)[x] == wire(gates, env, values@[x] as int),
        decreases keys.len() - k,
    {
        let var = keys[k];
        let ghost before = outputs@;
        assert(keys@.take(k as int + 1) =~= keys@.take(k as int).push(var));
        match values.get(var) {
            Some(wire_of) => {
                outputs.push((var, wire_of));
            },
            None => {
                outputs.push((var, 0));
            },
        }
        proof {
            assert(values@.contains_key(keys@[k as int]));
            assert(outputs@.drop_last() =~= before);
            assert(outputs@.last() == (var, values@[var]));
            assert forall|gates: Seq<(u64, u64, u64)>, env: Seq<bool>, x: Var|
                #![trigger output_values(gates, env, outputs@).contains_key(x)]
                output_values(gates, env, outputs@).contains_key(x) <==> keys@.take(k as int + 1).contains(x) by {
                crate::datastructure::lemma_push_contains(keys@.take(k as int), var, x);
                assert(output_values(gates, env, before).contains_key(x) <==> keys@.take(k as int).contains(x));
            }
            assert forall|gates: Seq<(u64, u64, u64)>, env: Seq<bool>, x: Var|
                #![trigger output_values(gates, env, outputs@)[x]]
                keys@.take(k as int + 1).contains(x) implies output_values(gates, env, outputs@)[x] == wire(
                gates,
                env,
                values@[x] as int,
            ) by {
                crate::datastructure::lemma_push_contains(keys@.take(k as int), var, x);
                if x != var {
                    assert(output_values(gates, env, before)[x] == wire(gates, env, values@[x] as int));
                }
            }
        }
        k += 1;
    }
    proof {
        assert(keys@.take(keys@.len() as int) =~= keys@);
        assert forall|gates: Seq<(u64, u64, u64)>, env: Seq<bool>| #[trigger]
            output_values(gates, env, outputs@) == point(gates, env, values@) by {
            let left = output_values(gates, env, outputs@);
            let right = point(gates, env, values@);
            assert forall|x: Var| left.contains_key(x) == right.contains_key(x) by {
                assert(values@.contains_key(x) <==> keys@.contains(x));
            }
            assert forall|x: Var| left.contains_key(x) implies left[x] == right[x] by {
                assert(keys@.contains(x));
            }
            assert(left =~= right);
        }
    }
    outputs
}

/// A literal of a graph as an SMT-LIB term: constants, inputs by their
/// parameter name, gates by a call of their helper.
pub open spec fn term(names: Map<i32, String>, universals: Seq<Var>, lit: u64) -> Seq<char> {
    if lit == 0 {
        "false"@
    } else if lit == 1 {
        "true"@
    } else {
        let var = lit as int / 2;
        negated(
            lit % 2 == 0,
            if var - 1 < universals.len() {
                parameter(names, universals[var - 1])
            } else {
                call("_g"@ + decimal(var as nat), parameters(names, universals))
            },
        )
    }
}

/// The helper definitions of the gates.
pub open spec fn gate_definitions(names: Map<i32, String>, universals: Seq<Var>, gates: Seq<(u64, u64, u64)>) -> Seq<char>
    decreases gates.len(),
{
    if gates.len() == 0 {
        Seq::empty()
    } else {
        let gate = gates.last();
        gate_definitions(names, universals, gates.drop_last()) + definition(
            "_g"@ + decimal((gate.0 / 2) as nat),
            join(declarations(names, universals)),
            "(and "@ + term(names, universals, gate.1) + " "@ + term(names, universals, gate.2) + ")"@,
        )
    }
}

/// The definitions of the named outputs.
pub open spec fn output_definitions(names: Map<i32, String>, universals: Seq<Var>, outputs: Seq<(Var, u64)>) -> Seq<char>
    decreases outputs.len(),
{
    if outputs.len() == 0 {
        Seq::empty()
    } else {
        let (var, lit) = outputs.last();
        output_definitions(names, universals, outputs.drop_last()) + if has_name(names, var) {
            definition(name_of(names, var), join(declarations(names, universals)), term(names, universals, lit))
        } else {
            Seq::empty()
        }
    }
}

/// The SMT-LIB rendering of a circuit.
pub open spec fn smt_text(names: Map<i32, String>, universals: Seq<Var>, gates: Seq<(u64, u64, u64)>, outputs: Seq<(Var, u64)>) -> Seq<char> {
    "(\n"@ + gate_definitions(names, universals, gates) + output_definitions(names, universals, outputs) + ")\n"@
}

fn term_text(lit: u64, params: &Vec<String>, names: &HashMap<i32, String>, universals: &Vec<Var>) -> (text: String)
    requires
        texts(params@) == parameters(names@, universals@),
    ensures
        text@ == term(names@, universals@, lit),
{
    let mut text = String::new();
    if lit == 0 {
        text.append("false");
        assert(text@ =~= "false"@);
        return text;
    }
    if lit == 1 {
        text.append("true");
        assert(text@ =~= "true"@);
        return text;
    }
    let var = lit / 2;
    let positive = lit % 2 == 0;
    proof {
        assert(texts(params@).len() == universals@.len());
        assert(parameters(names@, universals@).len() == universals@.len());
    }
    if var - 1 < params.len() as u64 {
        let position = (var - 1) as usize;
        proof {
            assert(texts(params@)[position as int] == params@[position as int]@);
            assert(parameters(names@, universals@)[position as int] == parameter(names@, universals@[position as int]));
        }
        push_negated(&mut text, positive, params[position].as_str());
    } else {
        let base = call_text("_g", var, params);
        push_negated(&mut text, positive, base.as_str());
    }
    assert(text@ =~= term(names@, universals@, lit));
    text
}

/// Renders a circuit as SMT-LIB definitions.
fn smt_circuit(aig: &AigBuilder, outputs: &Vec<(Var, u64)>, universals: &Vec<Var>, names: &HashMap<i32, String>) -> (text: String)
    ensures
        text@ == smt_text(names@, universals@, aig.spec_gates(), outputs@),
{
    let ghost gates = aig.spec_gates();
    let ghost us = universals@;
    let ghost os = outputs@;
    let params = parameter_names(names, universals);
    let decl = declare(&params, names, universals);
    let mut out = String::new();
    out.append("(\n");
    let ghost s0 = out@;
    assert(s0 =~= "(\n"@);
    let mut k: usize = 0;
    assert(gates.take(0) =~= Seq::<(u64, u64, u64)>::empty());
    assert(s0 + gate_definitions(names@, us, gates.take(0)) =~= s0);
    while k < aig.gates().len()
        invariant
            k <= gates.len(),
            gates == aig.spec_gates(),
            us == universals@,
            texts(params@) == parameters(names@, universals@),
            decl@ == join(declarations(names@, us)),
            out@ == s0 + gate_definitions(names@, us, gates.take(k as int)),
        decreases gates.len() - k,
    {
        let (lhs, rhs0, rhs1) = aig.gates()[k];
        let mut name = String::new();
        name.append("_g");
        push_decimal(&mut name, lhs / 2);
        let left = term_text(rhs0, &params, names, universals);
        let right = term_text(rhs1, &params, names, universals);
        let mut body = String::new();
        body.append("(and ");
        body.append(left.as_str());
        body.append(" ");
        body.append(right.as_str());
        body.append(")");
        let ghost before = out@;
        push_definition(&mut out, name.as_str(), decl.as_str(), body.as_str());
        proof {
            let next = gates.take(k as int + 1);
            assert(next.drop_last() =~= gates.take(k as int));
            assert(next.last() == (lhs, rhs0, rhs1));
            assert(name@ =~= "_g"@ + decimal((lhs / 2) as nat));
            assert(body@ =~= "(and "@ + term(names@, us, rhs0) + " "@ + term(names@, us, rhs1) + ")"@);
            assert(out@ =~= s0 + gate_definitions(names@, us, next));
        }
        k += 1;
    }
    assert(gates.take(gates.len() as int) =~= gates);
    let ghost s1 = out@;
    let mut k: usize = 0;
    assert(os.take(0) =~= Seq::<(Var, u64)>::empty());
    assert(s1 + output_definitions(names@, us, os.take(0)) =~= s1);
    while k < outputs.len()
        invariant
            k <= os.len(),
            os == outputs@,
            us == universals@,
            texts(params@) == parameters(names@, universals@),
            decl@ == join(declarations(names@, us)),
            out@ == s1 + output_definitions(names@, us, os.take(k as int)),
        decreases os.len() - k,
    {
        let (var, lit) = outputs[k];
        let ghost before = out@;
        proof {
            let next = os.take(k as int + 1);
            assert(next.drop_last() =~= os.take(k as int));
            assert(next.last() == (var, lit));
        }
        match lookup_name(names, var) {
            Some(public) => {
                let body = term_text(lit, &params, names, universals);
                push_definition(&mut out, public.as_str(), decl.as_str(), body.as_str());
            },
            None => {},
        }
        assert(out@ =~= s1 + output_definitions(names@, us, os.take(k as int + 1)));
        k += 1;
    }
    assert(os.take(os.len() as int) =~= os);
    out.append(")\n");
    assert(out@ =~= smt_text(names@, us, gates, os));
    out
}

impl Strategy {
    /// Renders the strategy as a strategy circuit in ASCII AIGER format
    /// over the given universal variables (one input each, in order).
    pub fn to_aiger(&self, universals: &Vec<Var>, names: &HashMap<i32, String>) -> (text: String)
        requires
            universals@.len() < MAX_GRAPH,
        ensures
            exists|gates: Seq<(u64, u64, u64)>, outputs: Seq<(Var, u64)>| #[trigger]
                strategy_circuit(*self, universals@, gates, outputs) && text@ == aag_text(gates, outputs, universals@, names@),
    {
        let (aig, values) = self.build(universals);
        let outputs = sorted_outputs(&values);
        let text = render(&aig, &outputs, universals, names);
        proof {
            lemma_strategy_circuit(*self, universals@, &aig, values@, outputs@);
        }
        text
    }

    /// Renders the strategy as SMT-LIB `define-fun`s over the universal
    /// variables, through the same circuit: each gate becomes an internal
    /// definition, each determined variable with a name a public one.
    pub fn to_smtlib(&self, universals: &Vec<Var>, names: &HashMap<i32, String>) -> (text: String)
        requires
            universals@.len() < MAX_GRAPH,
        ensures
            exists|gates: Seq<(u64, u64, u64)>, outputs: Seq<(Var, u64)>| #[trigger]
                strategy_circuit(*self, universals@, gates, outputs) && text@ == smt_text(names@, universals@, gates, outputs),
    {
        let (aig, values) = self.build(universals);
        let outputs = sorted_outputs(&values);
        let text = smt_circuit(&aig, &outputs, universals, names);
        proof {
            lemma_strategy_circuit(*self, universals@, &aig, values@, outputs@);
        }
        text
    }
}

pub(crate) proof fn lemma_strategy_circuit(strategy: Strategy, us: Seq<Var>, aig: &AigBuilder, values: Map<Var, u64>, outputs: Seq<(Var, u64)>)
    requires
        aig.wf(),
        aig.spec_inputs() == us.len(),
        !aig.spec_full() ==> forall|env: Seq<bool>|
            env.len() == us.len() ==> #[trigger] point(aig.spec_gates(), env, values) == strategy.circuit(
                input_values(us, env),
                Map::empty(),
            ),
        wires_ok(aig, values),
        forall|i: int| 0 <= i < outputs.len() ==> values.contains_key((#[trigger] outputs[i]).0) && values[outputs[i].0] == outputs[i].1,
        forall|set: Set<Var>| #[trigger] names_within(strategy, set) ==> aig.spec_gates().len() <= strategy.gate_bound(set.len()),
        forall|i: int, j: int| 0 <= i < j < outputs.len() ==> (#[trigger] outputs[i]).0.id() < (#[trigger] outputs[j]).0.id(),
        forall|gates: Seq<(u64, u64, u64)>, env: Seq<bool>| #[trigger] output_values(gates, env, outputs) == point(gates, env, values),
    ensures
        strategy_circuit(strategy, us, aig.spec_gates(), outputs),
{
    aig.lemma_wf();
    let gates = aig.spec_gates();
    if us.len() + gates.len() + 1 < MAX_GRAPH {
        aig.lemma_not_full();
        assert forall|env: Seq<bool>| env.len() == us.len() implies #[trigger] output_values(gates, env, outputs) == strategy.circuit(
            input_values(us, env),
            Map::empty(),
        ) by {
            assert(output_values(gates, env, outputs) == point(gates, env, values));
        }
    }
}

} // verus!
