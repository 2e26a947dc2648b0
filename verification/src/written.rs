//! Reading back what is written as ASCII AIGER.
//!
//! The circuit of a model or a strategy is written as a file. Reading the
//! file gives the graph again, and the values of its outputs are those that
//! the model or the strategy gives the variables they are labelled with.
use crate::aiger::listing::{
    decimals, is_line, law_listings_read_back, lemma_decimal, lemma_lines, lemma_number, lemma_sheet_concat, sheet, Listing,
};
use crate::aiger::parse::{first_space, held_name, names_ok, reads_as, symbol, symbol_at, table_end, Aiger, ParseError};
use crate::incdet::aig::{flip, wire, MAX_GRAPH};
use crate::incdet::circuit::circuit_value;
use crate::incdet::model::SkolemModel;
use crate::literal::Var;
use crate::render::{aag_header, aag_text, gate_line, graph_ok, lines, model_circuit, output_values, outputs_inside, strategy_circuit, symbol_line};
use crate::scan::number;
use crate::strategy::Strategy;
use crate::strategy_check::{input_values, names_within};
use crate::text::{decimal, join, label};
use vstd::prelude::*;
use vstd::string::*;

verus! {

/// The values are those of the literals of a file without latches whose
/// inputs have the given values: zero is false, flipping the lowest bit
/// negates, and gates are conjunctions.
pub open spec fn valuation(aiger: Aiger, env: Seq<bool>, val: spec_fn(u64) -> bool) -> bool {
    &&& aiger.latches@.len() == 0
    &&& aiger.inputs@.len() == env.len()
    &&& !val(0)
    &&& forall|l: u64| val(#[trigger] flip(l)) == !val(l)
    &&& forall|i: int| 0 <= i < env.len() ==> val(#[trigger] aiger.inputs@[i]) == env[i]
    &&& forall|i: int|
        0 <= i < aiger.ands@.len() ==> val((#[trigger] aiger.ands@[i]).lhs) == (val(aiger.ands@[i].rhs0) && val(aiger.ands@[i].rhs1))
}

/// The file of a graph.
pub open spec fn listing_of(gates: Seq<(u64, u64, u64)>, outputs: Seq<(Var, u64)>, us: Seq<Var>) -> Listing {
    Listing {
        max_var: (us.len() + gates.len()) as u64,
        inputs: Seq::new(us.len(), |i: int| (2 * (i + 1)) as u64),
        latches: Seq::empty(),
        outputs: Seq::new(outputs.len(), |i: int| outputs[i].1),
        bad: None,
        ands: gates,
    }
}

/// The lines of the symbol table.
pub open spec fn symbol_rows(outputs: Seq<(Var, u64)>, us: Seq<Var>, names: Map<i32, String>) -> Seq<Seq<char>> {
    Seq::new(
        us.len() + outputs.len(),
        |i: int|
            if i < us.len() {
                symbol_line("i"@, i, label(names, us[i]))
            } else {
                symbol_line("o"@, i - us.len(), label(names, outputs[i - us.len()].0))
            },
    )
}

proof fn lemma_render_lines(n: nat, f: spec_fn(int) -> Seq<char>)
    ensures
        lines(n, f) == sheet(Seq::new(n, f)),
    decreases n,
{
    if n > 0 {
        lemma_render_lines((n - 1) as nat, f);
        assert(Seq::new(n, f).drop_last() =~= Seq::new((n - 1) as nat, f));
    }
}

proof fn lemma_join_push(parts: Seq<Seq<char>>, last: Seq<char>)
    requires
        parts.len() > 0,
    ensures
        join(parts.push(last)) == join(parts) + " "@ + last,
{
    assert(parts.push(last).drop_last() =~= parts);
}

proof fn lemma_three(a: Seq<char>, b: Seq<char>, c: Seq<char>)
    ensures
        join(seq![a, b, c]) == a + " "@ + b + " "@ + c,
{
    assert(seq![a, b, c] =~= seq![a].push(b).push(c));
    lemma_join_push(seq![a], b);
    lemma_join_push(seq![a].push(b), c);
}

#[verifier::rlimit(40)]
proof fn lemma_header_row(f: Listing)
    requires
        f.valid(),
        f.latches.len() == 0,
        f.bad is None,
        f.max_var == f.inputs.len() + f.ands.len(),
    ensures
        f.rows()[0] + "\n"@ == aag_header(f.inputs.len(), f.outputs.len(), f.ands.len()),
{
    let ns = f.counts();
    let all = seq!["aag"@] + decimals(ns);
    let (a, b, c, d, e) = (
        decimal(ns[0] as nat),
        decimal(ns[1] as nat),
        decimal(ns[2] as nat),
        decimal(ns[3] as nat),
        decimal(ns[4] as nat),
    );
    let first = seq!["aag"@];
    assert(all =~= first.push(a).push(b).push(c).push(d).push(e));
    lemma_join_push(first, a);
    lemma_join_push(first.push(a), b);
    lemma_join_push(first.push(a).push(b), c);
    lemma_join_push(first.push(a).push(b).push(c), d);
    lemma_join_push(first.push(a).push(b).push(c).push(d), e);
    assert(c == "0"@);
    assert(join(all) == "aag"@ + " "@ + a + " "@ + b + " "@ + "0"@ + " "@ + d + " "@ + e);
    reveal_strlit("aag ");
    reveal_strlit("aag");
    reveal_strlit(" ");
    reveal_strlit(" 0 ");
    reveal_strlit("0");
    assert("aag"@ + " "@ =~= "aag "@);
    assert(" "@ + "0"@ + " "@ =~= " 0 "@);
    assert("aag"@ + " "@ + a + " "@ + b + " "@ + "0"@ + " "@ + d + " "@ + e + "\n"@ =~= ("aag"@ + " "@) + a + " "@ + b + (" "@ + "0"@ + " "@) + d
        + " "@ + e + "\n"@);
    assert(f.rows()[0] == join(all));
}

/// The text of a graph is its listing, and the symbol table.
#[verifier::rlimit(40)]
proof fn lemma_aag_text(gates: Seq<(u64, u64, u64)>, outputs: Seq<(Var, u64)>, us: Seq<Var>, names: Map<i32, String>)
    requires
        listing_of(gates, outputs, us).valid(),
        us.len() + gates.len() <= u64::MAX,
        2 * us.len() <= u64::MAX,
    ensures
        aag_text(gates, outputs, us, names) == sheet(listing_of(gates, outputs, us).rows()) + sheet(symbol_rows(outputs, us, names)),
{
    let f = listing_of(gates, outputs, us);
    let rows = f.rows();
    let input_line = |i: int| decimal((2 * (i + 1)) as nat);
    let output_line = |i: int| decimal(outputs[i].1 as nat);
    let and_line = |i: int| gate_line(gates[i]);
    let input_symbol = |i: int| symbol_line("i"@, i, label(names, us[i]));
    let output_symbol = |i: int| symbol_line("o"@, i, label(names, outputs[i].0));
    let (a, b, c) = (Seq::new(us.len(), input_line), Seq::new(outputs.len(), output_line), Seq::new(gates.len(), and_line));
    let (d, e) = (Seq::new(us.len(), input_symbol), Seq::new(outputs.len(), output_symbol));
    lemma_render_lines(us.len(), input_line);
    lemma_render_lines(outputs.len(), output_line);
    lemma_render_lines(gates.len(), and_line);
    lemma_render_lines(us.len(), input_symbol);
    lemma_render_lines(outputs.len(), output_symbol);
    let head = seq![rows[0]];
    let whole = head + a + b + c;
    assert forall|i: int| 0 <= i < rows.len() implies rows[i] == #[trigger] whole[i] by {
        if i > 0 {
            let n = i - 1;
            let entry = f.entry(n);
            if n < us.len() {
                assert(entry =~= seq![f.inputs[n]]);
                assert(decimals(entry) =~= seq![decimal((2 * (n + 1)) as nat)]);
                assert(whole[i] == a[n]);
            } else if n < us.len() + outputs.len() {
                let k = n - us.len();
                assert(entry =~= seq![outputs[k].1]);
                assert(decimals(entry) =~= seq![decimal(outputs[k].1 as nat)]);
                assert(whole[i] == b[k]);
            } else {
                let k = n - us.len() - outputs.len();
                assert(entry =~= seq![gates[k].0, gates[k].1, gates[k].2]);
                assert(decimals(entry) =~= seq![decimal(gates[k].0 as nat), decimal(gates[k].1 as nat), decimal(gates[k].2 as nat)]);
                lemma_three(decimal(gates[k].0 as nat), decimal(gates[k].1 as nat), decimal(gates[k].2 as nat));
                assert(whole[i] == c[k]);
            }
        }
    }
    assert(rows =~= whole);
    lemma_sheet_concat(head + a + b, c);
    lemma_sheet_concat(head + a, b);
    lemma_sheet_concat(head, a);
    assert(sheet(head) =~= rows[0] + "\n"@) by {
        assert(head.drop_last() =~= Seq::<Seq<char>>::empty());
        assert(sheet(Seq::<Seq<char>>::empty()) =~= Seq::<char>::empty());
    }
    lemma_header_row(f);
    let symbols = symbol_rows(outputs, us, names);
    assert(symbols =~= d + e);
    lemma_sheet_concat(d, e);
    assert(aag_text(gates, outputs, us, names) =~= sheet(rows) + sheet(symbols));
}

/// The values of a file are those of the wires of its graph.
proof fn lemma_wires(gates: Seq<(u64, u64, u64)>, f: Listing, aiger: Aiger, env: Seq<bool>, val: spec_fn(u64) -> bool, lit: u64)
    requires
        f.is_held(aiger),
        f.ands == gates,
        f.inputs.len() == env.len(),
        forall|i: int| 0 <= i < env.len() ==> #[trigger] f.inputs[i] == 2 * (i + 1),
        graph_ok(gates, env.len()),
        valuation(aiger, env, val),
        lit as int / 2 <= env.len() + gates.len(),
    ensures
        val(lit) == wire(gates, env, lit as int),
    decreases lit,
{
    let var = lit as int / 2;
    if lit % 2 == 1 {
        let even = (lit - 1) as u64;
        lemma_wires(gates, f, aiger, env, val, even);
        assert(flip(even) == lit);
        assert(even as int / 2 == var);
        reveal_with_fuel(wire, 2);
    } else if var == 0 {
        assert(lit == 0);
    } else if var <= env.len() {
        assert(f.inputs[var - 1] == lit);
        assert(aiger.inputs@[var - 1] == lit);
    } else {
        let g = var - env.len() - 1;
        assert(gates[g].0 == 2 * (env.len() + 1 + g));
        assert(gates[g].0 == lit);
        assert(aiger.ands@[g].lhs == lit);
        lemma_wires(gates, f, aiger, env, val, gates[g].1);
        lemma_wires(gates, f, aiger, env, val, gates[g].2);
    }
}

/// The wires of a graph are values of its file.
proof fn lemma_wires_are_values(gates: Seq<(u64, u64, u64)>, f: Listing, aiger: Aiger, env: Seq<bool>)
    requires
        f.is_held(aiger),
        f.ands == gates,
        f.latches.len() == 0,
        f.inputs.len() == env.len(),
        forall|i: int| 0 <= i < env.len() ==> #[trigger] f.inputs[i] == 2 * (i + 1),
        graph_ok(gates, env.len()),
    ensures
        valuation(aiger, env, |l: u64| wire(gates, env, l as int)),
{
    let val = |l: u64| wire(gates, env, l as int);
    assert forall|l: u64| val(#[trigger] flip(l)) == !val(l) by {
        assert(flip(l) as int / 2 == l as int / 2);
    }
    assert forall|i: int| 0 <= i < env.len() implies val(#[trigger] aiger.inputs@[i]) == env[i] by {
        assert(f.inputs[i] == 2 * (i + 1));
    }
    assert forall|i: int| 0 <= i < aiger.ands@.len() implies val((#[trigger] aiger.ands@[i]).lhs) == (val(aiger.ands@[i].rhs0) && val(
        aiger.ands@[i].rhs1,
    )) by {
        assert(gates[i].0 == 2 * (env.len() + 1 + i));
    }
}

proof fn lemma_first_space(digits: Seq<char>, name: Seq<char>)
    requires
        crate::aiger::listing::all_digits(digits),
    ensures
        first_space(digits + " "@ + name) == Some(digits.len()),
    decreases digits.len(),
{
    reveal_strlit(" ");
    let s = digits + " "@ + name;
    if digits.len() == 0 {
        assert(s[0] == ' ');
    } else {
        let rest = digits.drop_first();
        assert('0' <= digits[0] <= '9');
        assert forall|i: int| 0 <= i < rest.len() implies '0' <= #[trigger] rest[i] <= '9' by {
            assert('0' <= digits[i + 1] <= '9');
        }
        lemma_first_space(rest, name);
        assert(s[0] == digits[0]);
        assert(s.drop_first() =~= rest + " "@ + name);
    }
}

/// A line of the symbol table names its position, and no other.
pub(crate) proof fn lemma_symbol_line(kind: Seq<char>, at: u64, name: Seq<char>, c: char, position: u64)
    requires
        kind.len() == 1,
    ensures
        symbol_at(symbol_line(kind, at as int, name), c, position as int) == (if c == kind[0] && position == at {
            Some(name)
        } else {
            None
        }),
        is_line(name) && kind[0] != '\n' ==> is_line(symbol_line(kind, at as int, name)),
        symbol_line(kind, at as int, name).len() > 0,
        symbol_line(kind, at as int, name)[0] == kind[0],
{
    reveal_strlit(" ");
    let digits = decimal(at as nat);
    let line = symbol_line(kind, at as int, name);
    let rest = digits + " "@ + name;
    lemma_decimal(at as nat);
    lemma_number(at);
    lemma_first_space(digits, name);
    assert(line.drop_first() =~= rest);
    assert(rest.take(digits.len() as int) =~= digits);
    assert(rest.skip(digits.len() as int + 1) =~= name);
    if is_line(name) && kind[0] != '\n' {
        assert forall|i: int| 0 <= i < line.len() implies #[trigger] line[i] != '\n' by {
            let n = digits.len();
            if i == 0 {
            } else if i < 1 + n {
                assert(line[i] == digits[i - 1]);
                assert('0' <= digits[i - 1] <= '9');
            } else if i == 1 + n {
                assert(line[i] == ' ');
            } else {
                assert(line[i] == name[i - 2 - n]);
            }
        }
        if name.len() == 0 {
            assert(line.last() == ' ');
        } else {
            assert(line.last() == name.last());
        }
    }
}

pub(crate) proof fn lemma_table_end(ls: Seq<Seq<char>>, from: int)
    requires
        0 <= from <= ls.len(),
        forall|i: int| from <= i < ls.len() ==> !((#[trigger] ls[i]).len() > 0 && ls[i][0] == 'c'),
    ensures
        table_end(ls, from) == ls.len(),
    decreases ls.len() - from,
{
    if from < ls.len() {
        assert(!(ls[from].len() > 0 && ls[from][0] == 'c'));
        lemma_table_end(ls, from + 1);
    }
}

pub(crate) proof fn lemma_symbol_found(ls: Seq<Seq<char>>, from: int, end: int, kind: char, position: int, at: int, name: Seq<char>)
    requires
        from <= at < end,
        symbol_at(ls[at], kind, position) == Some(name),
        forall|j: int| at < j < end ==> symbol_at(#[trigger] ls[j], kind, position) is None,
    ensures
        symbol(ls, from, end, kind, position) == Some(name),
    decreases end - at,
{
    if at < end - 1 {
        assert(symbol_at(ls[end - 1], kind, position) is None);
        lemma_symbol_found(ls, from, end - 1, kind, position, at, name);
    }
}

/// The labels can stand in a symbol table.
pub open spec fn labels_fit(outputs: Seq<(Var, u64)>, us: Seq<Var>, names: Map<i32, String>) -> bool {
    &&& forall|i: int| 0 <= i < us.len() ==> is_line(label(names, #[trigger] us[i]))
    &&& forall|i: int| 0 <= i < outputs.len() ==> is_line(label(names, (#[trigger] outputs[i]).0))
}

/// The file has the labels.
pub open spec fn labelled(aiger: Aiger, outputs: Seq<(Var, u64)>, us: Seq<Var>, names: Map<i32, String>) -> bool {
    &&& aiger.input_names@.len() == us.len()
    &&& aiger.output_names@.len() == outputs.len()
    &&& forall|i: int| 0 <= i < us.len() ==> held_name(#[trigger] aiger.input_names@[i]) == Some(label(names, us[i]))
    &&& forall|i: int| 0 <= i < outputs.len() ==> held_name(#[trigger] aiger.output_names@[i]) == Some(label(names, outputs[i].0))
}

proof fn lemma_symbol_row(outputs: Seq<(Var, u64)>, us: Seq<Var>, names: Map<i32, String>, j: int, c: char, position: u64)
    requires
        labels_fit(outputs, us, names),
        us.len() + outputs.len() <= u64::MAX,
        0 <= j < us.len() + outputs.len(),
    ensures
        ({
            let row = symbol_rows(outputs, us, names)[j];
            &&& is_line(row)
            &&& row.len() > 0
            &&& row[0] != 'c'
            &&& symbol_at(row, c, position as int) == (if j < us.len() {
                if c == 'i' && position == j {
                    Some(label(names, us[j]))
                } else {
                    None
                }
            } else {
                if c == 'o' && position == j - us.len() {
                    Some(label(names, outputs[j - us.len()].0))
                } else {
                    None
                }
            })
        }),
{
    reveal_strlit("i");
    reveal_strlit("o");
    if j < us.len() {
        assert(is_line(label(names, us[j])));
        lemma_symbol_line("i"@, j as u64, label(names, us[j]), c, position);
    } else {
        let k = j - us.len();
        assert(is_line(label(names, outputs[k].0)));
        lemma_symbol_line("o"@, k as u64, label(names, outputs[k].0), c, position);
    }
}

/// The symbol table is read as it was written.
#[verifier::rlimit(40)]
proof fn lemma_labels(f: Listing, outputs: Seq<(Var, u64)>, us: Seq<Var>, names: Map<i32, String>, aiger: Aiger)
    requires
        f.valid(),
        f.inputs.len() == us.len(),
        f.outputs.len() == outputs.len(),
        f.bad is None,
        labels_fit(outputs, us, names),
        us.len() + outputs.len() <= u64::MAX,
        f.is_held(aiger),
        reads_as(sheet(f.rows()) + sheet(symbol_rows(outputs, us, names)), Ok(aiger)),
    ensures
        labelled(aiger, outputs, us, names),
{
    let rows = f.rows();
    let symbols = symbol_rows(outputs, us, names);
    let all = rows + symbols;
    let text = sheet(rows) + sheet(symbols);
    let n = us.len() as int;
    let from = rows.len() as int;
    lemma_sheet_concat(rows, symbols);
    assert(text =~= sheet(all) + Seq::<char>::empty());
    assert forall|i: int| 0 <= i < all.len() implies is_line(#[trigger] all[i]) by {
        if i < from {
            crate::aiger::listing::lemma_rows_are_lines(f, i);
            assert(all[i] == rows[i]);
        } else {
            lemma_symbol_row(outputs, us, names, i - from, 'i', 0);
            assert(all[i] == symbols[i - from]);
        }
    }
    lemma_lines(all, Seq::empty());
    let ls = crate::scan::lines(text);
    assert(ls == all);
    assert forall|i: int| from <= i < ls.len() implies !((#[trigger] ls[i]).len() > 0 && ls[i][0] == 'c') by {
        lemma_symbol_row(outputs, us, names, i - from, 'i', 0);
        assert(ls[i] == symbols[i - from]);
    }
    lemma_table_end(ls, from);
    crate::aiger::listing::lemma_header_total(f, ls);
    let end = ls.len() as int;
    assert(names_ok(aiger.input_names@, ls, from, end, 'i'));
    assert(names_ok(aiger.output_names@, ls, from, end, 'o'));
    assert forall|i: int| 0 <= i < us.len() implies held_name(#[trigger] aiger.input_names@[i]) == Some(label(names, us[i])) by {
        let at = from + i;
        assert forall|j: int| from <= j < end implies symbol_at(#[trigger] ls[j], 'i', i) == (if j == at {
            Some(label(names, us[i]))
        } else {
            None
        }) by {
            lemma_symbol_row(outputs, us, names, j - from, 'i', i as u64);
            assert(ls[j] == symbols[j - from]);
        }
        lemma_symbol_found(ls, from, end, 'i', i, at, label(names, us[i]));
    }
    assert forall|i: int| 0 <= i < outputs.len() implies held_name(#[trigger] aiger.output_names@[i]) == Some(label(names, outputs[i].0)) by {
        let at = from + n + i;
        assert forall|j: int| from <= j < end implies symbol_at(#[trigger] ls[j], 'o', i) == (if j == at {
            Some(label(names, outputs[i].0))
        } else {
            None
        }) by {
            lemma_symbol_row(outputs, us, names, j - from, 'o', i as u64);
            assert(ls[j] == symbols[j - from]);
        }
        lemma_symbol_found(ls, from, end, 'o', i, at, label(names, outputs[i].0));
    }
}

/// The graph is read back: the file has its inputs, outputs and gates, its
/// values are those of the wires, and it has the labels where they can
/// stand in a symbol table.
proof fn lemma_graph_read_back(
    gates: Seq<(u64, u64, u64)>,
    outputs: Seq<(Var, u64)>,
    us: Seq<Var>,
    names: Map<i32, String>,
    result: Result<Aiger, ParseError>,
)
    requires
        graph_ok(gates, us.len()),
        outputs_inside(outputs, us.len() + gates.len()),
        us.len() + gates.len() < MAX_GRAPH,
        outputs.len() < MAX_GRAPH,
        reads_as(aag_text(gates, outputs, us, names), result),
    ensures
        result matches Ok(aiger) && reads_graph(aiger, gates, outputs, us, names),
{
    let f = listing_of(gates, outputs, us);
    assert forall|i: int| 0 <= i < f.inputs.len() implies #[trigger] f.inputs[i] % 2 == 0 && f.inputs[i] >= 2 by {}
    assert forall|i: int| 0 <= i < f.ands.len() implies (#[trigger] f.ands[i]).0 % 2 == 0 && f.ands[i].0 >= 2 by {
        assert(gates[i].0 == 2 * (us.len() + 1 + i));
    }
    assert(f.valid());
    lemma_aag_text(gates, outputs, us, names);
    law_listings_read_back(f, sheet(symbol_rows(outputs, us, names)), result);
    let aiger = result->Ok_0;
    assert(aiger.outputs@ =~= f.outputs);
    assert forall|env: Seq<bool>, val: spec_fn(u64) -> bool, i: int|
        #![trigger valuation(aiger, env, val), aiger.outputs@[i]]
        valuation(aiger, env, val) && 0 <= i < outputs.len() implies val(aiger.outputs@[i]) == wire(gates, env, outputs[i].1 as int) by {
        assert(outputs[i].1 as int / 2 <= us.len() + gates.len());
        lemma_wires(gates, f, aiger, env, val, outputs[i].1);
    }
    assert forall|env: Seq<bool>| env.len() == us.len() implies #[trigger] has_valuation(aiger, env) by {
        lemma_wires_are_values(gates, f, aiger, env);
    }
    if labels_fit(outputs, us, names) {
        lemma_labels(f, outputs, us, names, aiger);
    }
}

/// The literals of the file have values for the inputs.
pub open spec fn has_valuation(aiger: Aiger, env: Seq<bool>) -> bool {
    exists|val: spec_fn(u64) -> bool| #[trigger] valuation(aiger, env, val)
}

spec fn reads_graph(aiger: Aiger, gates: Seq<(u64, u64, u64)>, outputs: Seq<(Var, u64)>, us: Seq<Var>, names: Map<i32, String>) -> bool {
    &&& aiger.inputs@.len() == us.len()
    &&& aiger.latches@.len() == 0
    &&& aiger.outputs@.len() == outputs.len()
    &&& forall|env: Seq<bool>, val: spec_fn(u64) -> bool, i: int|
        #![trigger valuation(aiger, env, val), aiger.outputs@[i]]
        valuation(aiger, env, val) && 0 <= i < outputs.len() ==> val(aiger.outputs@[i]) == wire(gates, env, outputs[i].1 as int)
    &&& forall|env: Seq<bool>| env.len() == us.len() ==> #[trigger] has_valuation(aiger, env)
    &&& labels_fit(outputs, us, names) ==> labelled(aiger, outputs, us, names)
}

/// The file computes the model: it has an input for every universal
/// variable and an output for every variable that the model defines, in
/// order; for all values of the inputs its literals have values, and an
/// output then has that of its variable.
pub open spec fn computes_model(aiger: Aiger, model: SkolemModel) -> bool {
    let us = model.spec_universals();
    &&& aiger.inputs@.len() == us.len()
    &&& aiger.latches@.len() == 0
    &&& aiger.outputs@.len() == model.spec_defined_vars().len()
    &&& forall|x: Var| #[trigger] model.spec_defined_vars().contains(x) <==> model.defines(x)
    &&& forall|env: Seq<bool>| env.len() == us.len() ==> #[trigger] has_valuation(aiger, env)
    &&& forall|env: Seq<bool>, val: spec_fn(u64) -> bool, i: int|
        #![trigger valuation(aiger, env, val), aiger.outputs@[i]]
        valuation(aiger, env, val) && 0 <= i < aiger.outputs@.len() ==> val(aiger.outputs@[i]) == circuit_value(
            model,
            input_values(us, env),
            model.spec_defined_vars()[i],
        )
}

/// The inputs and outputs of the file have the labels of the variables.
pub open spec fn labelled_as(aiger: Aiger, us: Seq<Var>, vars: Seq<Var>, names: Map<i32, String>) -> bool {
    &&& aiger.input_names@.len() == us.len()
    &&& aiger.output_names@.len() == vars.len()
    &&& forall|i: int| 0 <= i < us.len() ==> held_name(#[trigger] aiger.input_names@[i]) == Some(label(names, us[i]))
    &&& forall|i: int| 0 <= i < vars.len() ==> held_name(#[trigger] aiger.output_names@[i]) == Some(label(names, vars[i]))
}

/// The labels of the variables can stand in a symbol table.
pub open spec fn printable(vars: Seq<Var>, names: Map<i32, String>) -> bool {
    forall|i: int| 0 <= i < vars.len() ==> is_line(label(names, #[trigger] vars[i]))
}

/// Reading the text of a model gives a file that computes the model, with
/// its inputs and outputs labelled where the labels are lines.
pub proof fn law_written_models_read_back(
    model: SkolemModel,
    names: Map<i32, String>,
    text: Seq<char>,
    result: Result<Aiger, ParseError>,
)
    requires
        exists|gates: Seq<(u64, u64, u64)>, outputs: Seq<(Var, u64)>| #[trigger] model_circuit(model, names, text, gates, outputs),
        model.spec_universals().len() + model.gate_bound() + 1 < MAX_GRAPH,
        model.spec_defined_vars().len() < MAX_GRAPH,
        reads_as(text, result),
    ensures
        result matches Ok(aiger) && computes_model(aiger, model) && (printable(model.spec_universals(), names) && printable(
            model.spec_defined_vars(),
            names,
        ) ==> labelled_as(aiger, model.spec_universals(), model.spec_defined_vars(), names)),
{
    let us = model.spec_universals();
    let vars = model.spec_defined_vars();
    let (gates, outputs) = choose|gates: Seq<(u64, u64, u64)>, outputs: Seq<(Var, u64)>| #[trigger]
        model_circuit(model, names, text, gates, outputs);
    lemma_graph_read_back(gates, outputs, us, names, result);
    let aiger = result->Ok_0;
    assert forall|x: Var| #[trigger] vars.contains(x) <==> model.defines(x) by {
        crate::skolem_text::lemma_defined_vars(model, x);
    }
    assert forall|env: Seq<bool>, val: spec_fn(u64) -> bool, i: int|
        #![trigger valuation(aiger, env, val), aiger.outputs@[i]]
        valuation(aiger, env, val) && 0 <= i < aiger.outputs@.len() implies val(aiger.outputs@[i]) == circuit_value(
        model,
        input_values(us, env),
        vars[i],
    ) by {
        assert(outputs[i].0 == vars[i]);
        assert(val(aiger.outputs@[i]) == wire(gates, env, outputs[i].1 as int));
    }
    if printable(us, names) && printable(vars, names) {
        assert forall|i: int| 0 <= i < outputs.len() implies is_line(label(names, (#[trigger] outputs[i]).0)) by {
            assert(outputs[i].0 == vars[i]);
        }
        assert(labels_fit(outputs, us, names));
        assert forall|i: int| 0 <= i < vars.len() implies held_name(#[trigger] aiger.output_names@[i]) == Some(label(names, vars[i])) by {
            assert(outputs[i].0 == vars[i]);
        }
    }
}

/// The values of the variables of the outputs.
pub open spec fn named_values(vars: Seq<Var>, lits: Seq<u64>, val: spec_fn(u64) -> bool) -> Map<Var, bool>
    decreases vars.len(),
{
    if vars.len() == 0 {
        Map::empty()
    } else {
        named_values(vars.drop_last(), lits, val).insert(vars.last(), val(lits[vars.len() - 1]))
    }
}

/// The file computes the strategy: it has an input for every universal
/// variable and an output for each of the variables; for all values of the
/// inputs its literals have values, and the outputs then are what the
/// strategy answers.
pub open spec fn computes_strategy(aiger: Aiger, strategy: Strategy, us: Seq<Var>, vars: Seq<Var>) -> bool {
    &&& aiger.inputs@.len() == us.len()
    &&& aiger.latches@.len() == 0
    &&& aiger.outputs@.len() == vars.len()
    &&& forall|i: int, j: int| 0 <= i < j < vars.len() ==> (#[trigger] vars[i]).id() < (#[trigger] vars[j]).id()
    &&& forall|env: Seq<bool>| env.len() == us.len() ==> #[trigger] has_valuation(aiger, env)
    &&& forall|env: Seq<bool>, val: spec_fn(u64) -> bool| #[trigger]
        valuation(aiger, env, val) ==> named_values(vars, aiger.outputs@, val) == strategy.circuit(input_values(us, env), Map::empty())
}

proof fn lemma_named_values(
    gates: Seq<(u64, u64, u64)>,
    env: Seq<bool>,
    outputs: Seq<(Var, u64)>,
    vars: Seq<Var>,
    lits: Seq<u64>,
    val: spec_fn(u64) -> bool,
)
    requires
        vars.len() == outputs.len() <= lits.len(),
        forall|i: int| 0 <= i < outputs.len() ==> (#[trigger] outputs[i]).0 == vars[i],
        forall|i: int| 0 <= i < outputs.len() ==> val(#[trigger] lits[i]) == wire(gates, env, outputs[i].1 as int),
    ensures
        named_values(vars, lits, val) == output_values(gates, env, outputs),
    decreases vars.len(),
{
    if vars.len() > 0 {
        let few = outputs.drop_last();
        let n = vars.len() - 1;
        assert forall|i: int| 0 <= i < few.len() implies (#[trigger] few[i]).0 == vars.drop_last()[i] by {
            assert(few[i] == outputs[i]);
        }
        assert forall|i: int| 0 <= i < few.len() implies val(#[trigger] lits[i]) == wire(gates, env, few[i].1 as int) by {
            assert(few[i] == outputs[i]);
        }
        lemma_named_values(gates, env, few, vars.drop_last(), lits, val);
        assert(outputs[n].0 == vars[n]);
        assert(val(lits[n]) == wire(gates, env, outputs[n].1 as int));
    }
}

/// Reading the text of a strategy gives a file that computes the strategy,
/// with its inputs and outputs labelled where the labels are lines.
pub proof fn law_written_strategies_read_back(
    strategy: Strategy,
    us: Seq<Var>,
    names: Map<i32, String>,
    gates: Seq<(u64, u64, u64)>,
    outputs: Seq<(Var, u64)>,
    text: Seq<char>,
    result: Result<Aiger, ParseError>,
)
    requires
        strategy_circuit(strategy, us, gates, outputs),
        text == aag_text(gates, outputs, us, names),
        us.len() + gates.len() + 1 < MAX_GRAPH,
        outputs.len() < MAX_GRAPH,
        reads_as(text, result),
    ensures
        ({
            let vars = Seq::new(outputs.len(), |i: int| outputs[i].0);
            result matches Ok(aiger) && computes_strategy(aiger, strategy, us, vars) && (printable(us, names) && printable(vars, names)
                ==> labelled_as(aiger, us, vars, names))
        }),
{
    let vars = Seq::new(outputs.len(), |i: int| outputs[i].0);
    lemma_graph_read_back(gates, outputs, us, names, result);
    let aiger = result->Ok_0;
    assert forall|i: int, j: int| 0 <= i < j < vars.len() implies (#[trigger] vars[i]).id() < (#[trigger] vars[j]).id() by {
        assert(outputs[i].0.id() < outputs[j].0.id());
    }
    assert forall|env: Seq<bool>, val: spec_fn(u64) -> bool| #[trigger] valuation(aiger, env, val) implies named_values(
        vars,
        aiger.outputs@,
        val,
    ) == strategy.circuit(input_values(us, env), Map::empty()) by {
        assert forall|i: int| 0 <= i < outputs.len() implies val(#[trigger] aiger.outputs@[i]) == wire(gates, env, outputs[i].1 as int) by {}
        lemma_named_values(gates, env, outputs, vars, aiger.outputs@, val);
        assert(output_values(gates, env, outputs) == strategy.circuit(input_values(us, env), Map::empty()));
    }
    if printable(us, names) && printable(vars, names) {
        assert forall|i: int| 0 <= i < outputs.len() implies is_line(label(names, (#[trigger] outputs[i]).0)) by {
            assert(is_line(label(names, vars[i])));
        }
        assert(labels_fit(outputs, us, names));
    }
}

} // verus!
