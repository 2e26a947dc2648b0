//! Building text.
use crate::literal::Var;
use std::collections::HashMap;
use vstd::prelude::*;
use vstd::string::*;

verus! {

broadcast use {crate::literal::group_literal, vstd::std_specs::hash::group_hash_axioms};

/// A decimal digit.
pub open spec fn digit(d: int) -> Seq<char> {
    if d == 0 {
        "0"@
    } else if d == 1 {
        "1"@
    } else if d == 2 {
        "2"@
    } else if d == 3 {
        "3"@
    } else if d == 4 {
        "4"@
    } else if d == 5 {
        "5"@
    } else if d == 6 {
        "6"@
    } else if d == 7 {
        "7"@
    } else if d == 8 {
        "8"@
    } else {
        "9"@
    }
}

/// A number in decimal.
pub open spec fn decimal(n: nat) -> Seq<char>
    decreases n,
{
    if n < 10 {
        digit(n as int)
    } else {
        decimal(n / 10) + digit((n % 10) as int)
    }
}

/// Appends a number in decimal.
pub(crate) fn push_decimal(out: &mut String, n: u64)
    ensures
        final(out)@ == old(out)@ + decimal(n as nat),
    decreases n,
{
    if n >= 10 {
        push_decimal(out, n / 10);
    }
    let d = n % 10;
    let text = if d == 0 {
        "0"
    } else if d == 1 {
        "1"
    } else if d == 2 {
        "2"
    } else if d == 3 {
        "3"
    } else if d == 4 {
        "4"
    } else if d == 5 {
        "5"
    } else if d == 6 {
        "6"
    } else if d == 7 {
        "7"
    } else if d == 8 {
        "8"
    } else {
        "9"
    };
    let ghost before = out@;
    out.append(text);
    proof {
        assert(text@ == digit(d as int));
        if n >= 10 {
            assert(old(out)@ + decimal((n / 10) as nat) + digit(d as int) =~= old(out)@ + (decimal((n / 10) as nat) + digit(
                d as int,
            )));
        } else {
            assert(n % 10 == n);
        }
    }
}

/// Parts separated by a blank.
pub open spec fn join(parts: Seq<Seq<char>>) -> Seq<char>
    decreases parts.len(),
{
    if parts.len() == 0 {
        Seq::empty()
    } else if parts.len() == 1 {
        parts[0]
    } else {
        join(parts.drop_last()) + " "@ + parts.last()
    }
}

/// The texts of strings.
pub open spec fn texts(parts: Seq<String>) -> Seq<Seq<char>> {
    Seq::new(parts.len(), |i: int| parts[i]@)
}

/// Appends the parts separated by a blank.
pub(crate) fn push_joined(out: &mut String, parts: &Vec<String>)
    ensures
        final(out)@ == old(out)@ + join(texts(parts@)),
{
    let ghost start = out@;
    let ghost all = texts(parts@);
    let mut k: usize = 0;
    assert(start + join(all.take(0)) =~= start);
    while k < parts.len()
        invariant
            k <= parts@.len(),
            all == texts(parts@),
            out@ == start + join(all.take(k as int)),
        decreases parts.len() - k,
    {
        let ghost before = out@;
        if k > 0 {
            out.append(" ");
        }
        out.append(parts[k].as_str());
        proof {
            let next = all.take(k as int + 1);
            assert(next.drop_last() =~= all.take(k as int));
            assert(next.last() == parts@[k as int]@);
            if k == 0 {
                assert(all.take(0) =~= Seq::empty());
                assert(join(all.take(0)) =~= Seq::<char>::empty());
                assert(out@ =~= start + join(next));
            } else {
                assert(out@ =~= start + join(next));
            }
        }
        k += 1;
    }
    assert(all.take(all.len() as int) =~= all);
}

/// An operator applied to parts: nothing stands for its neutral element,
/// one part for itself.
pub open spec fn nary(op: Seq<char>, neutral: Seq<char>, parts: Seq<Seq<char>>) -> Seq<char> {
    if parts.len() == 0 {
        neutral
    } else if parts.len() == 1 {
        parts[0]
    } else {
        "("@ + op + " "@ + join(parts) + ")"@
    }
}

/// Appends an operator applied to parts.
pub(crate) fn push_nary(out: &mut String, op: &str, neutral: &str, parts: &Vec<String>)
    ensures
        final(out)@ == old(out)@ + nary(op@, neutral@, texts(parts@)),
{
    let ghost start = out@;
    if parts.len() == 0 {
        out.append(neutral);
    } else if parts.len() == 1 {
        out.append(parts[0].as_str());
    } else {
        out.append("(");
        out.append(op);
        out.append(" ");
        push_joined(out, parts);
        out.append(")");
        assert(out@ =~= start + ("("@ + op@ + " "@ + join(texts(parts@)) + ")"@));
    }
}

/// The negation of a term.
pub open spec fn negated(positive: bool, base: Seq<char>) -> Seq<char> {
    if positive {
        base
    } else {
        "(not "@ + base + ")"@
    }
}

/// Appends a term or its negation.
pub(crate) fn push_negated(out: &mut String, positive: bool, base: &str)
    ensures
        final(out)@ == old(out)@ + negated(positive, base@),
{
    let ghost start = out@;
    if positive {
        out.append(base);
    } else {
        out.append("(not ");
        out.append(base);
        out.append(")");
        assert(out@ =~= start + ("(not "@ + base@ + ")"@));
    }
}

/// The given name of a variable, if it has one.
pub open spec fn has_name(names: Map<i32, String>, x: Var) -> bool {
    x.dimacs() <= i32::MAX && names.contains_key(x.dimacs() as i32)
}

/// The given name of a variable.
pub open spec fn name_of(names: Map<i32, String>, x: Var) -> Seq<char> {
    names[x.dimacs() as i32]@
}

/// The given name of a variable, or its DIMACS number.
pub open spec fn label(names: Map<i32, String>, x: Var) -> Seq<char> {
    if has_name(names, x) {
        name_of(names, x)
    } else {
        decimal(x.dimacs() as nat)
    }
}

/// The parameter name of a universal variable.
pub open spec fn parameter(names: Map<i32, String>, x: Var) -> Seq<char> {
    if has_name(names, x) {
        name_of(names, x)
    } else {
        "_u"@ + decimal(x.dimacs() as nat)
    }
}

/// The given name of a variable.
pub(crate) fn lookup_name<'a>(names: &'a HashMap<i32, String>, var: Var) -> (name: Option<&'a String>)
    ensures
        match name {
            Some(name) => has_name(names@, var) && name@ == name_of(names@, var),
            None => !has_name(names@, var),
        },
{
    names.get(&var.to_dimacs())
}

/// Appends the label of a variable.
pub(crate) fn push_label(out: &mut String, names: &HashMap<i32, String>, var: Var)
    ensures
        final(out)@ == old(out)@ + label(names@, var),
{
    match lookup_name(names, var) {
        Some(name) => {
            out.append(name.as_str());
        },
        None => {
            let number = var.to_dimacs();
            push_decimal(out, number as u64);
        },
    }
}

/// The parameter names of the universal variables.
pub open spec fn parameters(names: Map<i32, String>, universals: Seq<Var>) -> Seq<Seq<char>> {
    Seq::new(universals.len(), |i: int| parameter(names, universals[i]))
}

/// The parameter declarations of the universal variables.
pub open spec fn declarations(names: Map<i32, String>, universals: Seq<Var>) -> Seq<Seq<char>> {
    Seq::new(universals.len(), |i: int| "("@ + parameter(names, universals[i]) + " Bool)"@)
}

/// The parameter names of the universal variables.
pub(crate) fn parameter_names(names: &HashMap<i32, String>, universals: &Vec<Var>) -> (params: Vec<String>)
    ensures
        texts(params@) == parameters(names@, universals@),
{
    let mut params: Vec<String> = Vec::new();
    let mut k: usize = 0;
    while k < universals.len()
        invariant
            k <= universals@.len(),
            params@.len() == k,
            forall|i: int| 0 <= i < k ==> (#[trigger] params@[i])@ == parameter(names@, universals@[i]),
        decreases universals.len() - k,
    {
        let var = universals[k];
        let mut text = String::new();
        match lookup_name(names, var) {
            Some(name) => {
                text.append(name.as_str());
                assert(text@ =~= name@);
            },
            None => {
                let number = var.to_dimacs();
                text.append("_u");
                push_decimal(&mut text, number as u64);
                assert(text@ =~= "_u"@ + decimal(number as nat));
            },
        }
        params.push(text);
        k += 1;
    }
    assert(texts(params@) =~= parameters(names@, universals@));
    params
}

/// The declarations of the parameters, separated by a blank.
pub(crate) fn declare(params: &Vec<String>, names: &HashMap<i32, String>, universals: &Vec<Var>) -> (text: String)
    requires
        texts(params@) == parameters(names@, universals@),
    ensures
        text@ == join(declarations(names@, universals@)),
{
    let mut parts: Vec<String> = Vec::new();
    let mut k: usize = 0;
    while k < params.len()
        invariant
            k <= params@.len(),
            texts(params@) == parameters(names@, universals@),
            parts@.len() == k,
            forall|i: int| 0 <= i < k ==> (#[trigger] parts@[i])@ == "("@ + parameter(names@, universals@[i]) + " Bool)"@,
        decreases params.len() - k,
    {
        let mut part = String::new();
        part.append("(");
        part.append(params[k].as_str());
        part.append(" Bool)");
        proof {
            assert(parameters(names@, universals@).len() == texts(params@).len());
            assert(parameters(names@, universals@)[k as int] == texts(params@)[k as int]);
            assert(part@ =~= "("@ + parameter(names@, universals@[k as int]) + " Bool)"@);
        }
        parts.push(part);
        k += 1;
    }
    proof {
        assert(texts(params@).len() == universals@.len());
        assert(texts(parts@) =~= declarations(names@, universals@));
    }
    let mut text = String::new();
    push_joined(&mut text, &parts);
    assert(text@ =~= join(declarations(names@, universals@)));
    text
}

/// A call of a helper with all parameters.
pub open spec fn call(name: Seq<char>, params: Seq<Seq<char>>) -> Seq<char> {
    if params.len() == 0 {
        name
    } else {
        "("@ + name + " "@ + join(params) + ")"@
    }
}

/// A call of a helper, named by a prefix and a number.
pub(crate) fn call_text(prefix: &str, number: u64, params: &Vec<String>) -> (text: String)
    ensures
        text@ == call(prefix@ + decimal(number as nat), texts(params@)),
{
    let mut text = String::new();
    if params.len() == 0 {
        text.append(prefix);
        push_decimal(&mut text, number);
        assert(text@ =~= prefix@ + decimal(number as nat));
    } else {
        text.append("(");
        text.append(prefix);
        push_decimal(&mut text, number);
        text.append(" ");
        push_joined(&mut text, params);
        text.append(")");
        assert(text@ =~= "("@ + (prefix@ + decimal(number as nat)) + " "@ + join(texts(params@)) + ")"@);
    }
    text
}

/// A definition of a function.
pub open spec fn definition(name: Seq<char>, decl: Seq<char>, body: Seq<char>) -> Seq<char> {
    "  (define-fun "@ + name + " ("@ + decl + ") Bool "@ + body + ")\n"@
}

/// Appends a definition of a function.
pub(crate) fn push_definition(out: &mut String, name: &str, decl: &str, body: &str)
    ensures
        final(out)@ == old(out)@ + definition(name@, decl@, body@),
{
    let ghost start = out@;
    out.append("  (define-fun ");
    out.append(name);
    out.append(" (");
    out.append(decl);
    out.append(") Bool ");
    out.append(body);
    out.append(")\n");
    assert(out@ =~= start + definition(name@, decl@, body@));
}

} // verus!
