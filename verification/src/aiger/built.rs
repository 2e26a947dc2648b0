//! Reading back what is built.
use crate::aiger::builder::{numbers_line, Aig};
use crate::aiger::listing::{
    decimals, is_line, law_listings_read_back, lemma_header_total, lemma_lines, lemma_rows_are_lines, lemma_sheet_concat, sheet, Listing,
};
use crate::aiger::parse::{held_name, names_ok, reads_as, symbol_at, Aiger, ParseError};
use crate::render::symbol_line;
use crate::text::{decimal, join};
use crate::written::{lemma_symbol_found, lemma_symbol_line, lemma_table_end};
use vstd::prelude::*;
use vstd::string::*;

verus! {

impl Aig {
    /// What is built, as a file.
    pub open spec fn listing(&self) -> Listing {
        Listing {
            max_var: (self.leaves() + self.ands@.len()) as u64,
            inputs: Seq::new(self.input_names@.len(), |i: int| (2 * (i + 1)) as u64),
            latches: Seq::new(
                self.nexts@.len(),
                |i: int| ((2 * (self.input_names@.len() + i + 1)) as u64, self.nexts@[i].0, Some(self.nexts@[i].1)),
            ),
            outputs: self.outputs@,
            bad: None,
            ands: self.ands@,
        }
    }

    /// The lines of the symbol table.
    pub open spec fn symbol_rows(&self) -> Seq<Seq<char>> {
        Seq::new(self.input_names@.len(), |i: int| symbol_line("i"@, i, self.input_names@[i]@))
    }
}

proof fn lemma_join_front(first: Seq<char>, rest: Seq<Seq<char>>)
    requires
        rest.len() > 0,
    ensures
        join(seq![first] + rest) == first + " "@ + join(rest),
    decreases rest.len(),
{
    let all = seq![first] + rest;
    if rest.len() == 1 {
        assert(all.drop_last() =~= seq![first]);
        assert(join(seq![first]) == first);
        assert(join(all) == join(all.drop_last()) + " "@ + all.last());
    } else {
        let few = rest.drop_last();
        lemma_join_front(first, few);
        assert(all.drop_last() =~= seq![first] + few);
        assert(join(all) == join(all.drop_last()) + " "@ + all.last());
        assert(join(all) =~= first + " "@ + join(rest));
    }
}

proof fn lemma_numbers_line(ns: Seq<u64>)
    requires
        ns.len() > 0,
    ensures
        numbers_line(ns) == join(decimals(ns)) + "\n"@,
    decreases ns.len(),
{
    if ns.len() == 1 {
        assert(join(decimals(ns)) == decimals(ns)[0]);
    } else {
        let rest = ns.drop_first();
        lemma_numbers_line(rest);
        assert(decimals(ns) =~= seq![decimal(ns[0] as nat)] + decimals(rest));
        lemma_join_front(decimal(ns[0] as nat), decimals(rest));
        assert(numbers_line(ns) =~= join(decimals(ns)) + "\n"@);
    }
}

proof fn lemma_header_text(aig: &Aig)
    requires
        aig.wf(),
        aig.outputs@.len() <= u64::MAX,
    ensures
        aig.header_line() == aig.listing().rows()[0] + "\n"@,
{
    let f = aig.listing();
    let ns = f.counts();
    assert(ns =~= seq![
        (aig.leaves() + aig.ands@.len()) as u64,
        aig.input_names@.len() as u64,
        aig.nexts@.len() as u64,
        aig.outputs@.len() as u64,
        aig.ands@.len() as u64,
    ]);
    lemma_numbers_line(ns);
    lemma_join_front("aag"@, decimals(ns));
    reveal_strlit("aag ");
    reveal_strlit("aag");
    reveal_strlit(" ");
    assert("aag"@ + " "@ =~= "aag "@);
    assert(f.rows()[0] == join(seq!["aag"@] + decimals(ns)));
    assert(aig.header_line() =~= f.rows()[0] + "\n"@);
}

/// One more line of a section.
proof fn lemma_more(rows: Seq<Seq<char>>, from: int, count: int)
    requires
        0 <= from,
        0 < count,
        from + count <= rows.len(),
    ensures
        sheet(rows.subrange(from, from + count)) == sheet(rows.subrange(from, from + count - 1)) + (rows[from + count - 1] + "\n"@),
{
    let part = rows.subrange(from, from + count);
    assert(part.drop_last() =~= rows.subrange(from, from + count - 1));
    assert(part.last() == rows[from + count - 1]);
    assert(sheet(part) =~= sheet(part.drop_last()) + (part.last() + "\n"@));
}

proof fn lemma_input_text(aig: &Aig, count: int)
    requires
        aig.wf(),
        0 <= count <= aig.input_names@.len(),
    ensures
        aig.input_lines(count) == sheet(aig.listing().rows().subrange(1, 1 + count)),
    decreases count,
{
    let f = aig.listing();
    let rows = f.rows();
    if count == 0 {
        assert(rows.subrange(1, 1) =~= Seq::<Seq<char>>::empty());
    } else {
        lemma_input_text(aig, count - 1);
        lemma_more(rows, 1, count);
        let e = f.entry(count - 1);
        assert(e =~= seq![(2 * count) as u64]);
        lemma_numbers_line(e);
        assert(rows[count] == join(decimals(e)));
    }
}

proof fn lemma_latch_text(aig: &Aig, count: int)
    requires
        aig.wf(),
        0 <= count <= aig.nexts@.len(),
    ensures
        aig.latch_lines(count) == sheet(
            aig.listing().rows().subrange(1 + aig.input_names@.len() as int, 1 + aig.input_names@.len() as int + count),
        ),
    decreases count,
{
    let f = aig.listing();
    let rows = f.rows();
    let from = 1 + aig.input_names@.len() as int;
    if count == 0 {
        assert(rows.subrange(from, from) =~= Seq::<Seq<char>>::empty());
    } else {
        lemma_latch_text(aig, count - 1);
        lemma_more(rows, from, count);
        let e = f.entry(from + count - 2);
        assert(e =~= seq![(2 * (aig.input_names@.len() + count)) as u64, aig.nexts@[count - 1].0, aig.nexts@[count - 1].1]);
        lemma_numbers_line(e);
        assert(rows[from + count - 1] == join(decimals(e)));
    }
}

proof fn lemma_output_text(aig: &Aig, count: int)
    requires
        aig.wf(),
        0 <= count <= aig.outputs@.len(),
    ensures
        aig.output_lines(count) == sheet(aig.listing().rows().subrange(1 + aig.leaves(), 1 + aig.leaves() + count)),
    decreases count,
{
    let f = aig.listing();
    let rows = f.rows();
    let from = 1 + aig.leaves();
    if count == 0 {
        assert(rows.subrange(from, from) =~= Seq::<Seq<char>>::empty());
    } else {
        lemma_output_text(aig, count - 1);
        lemma_more(rows, from, count);
        let e = f.entry(from + count - 2);
        assert(e =~= seq![aig.outputs@[count - 1]]);
        lemma_numbers_line(e);
        assert(rows[from + count - 1] == join(decimals(e)));
    }
}

proof fn lemma_gate_text(aig: &Aig, count: int)
    requires
        aig.wf(),
        0 <= count <= aig.ands@.len(),
    ensures
        aig.gate_lines(count) == sheet(
            aig.listing().rows().subrange(1 + aig.leaves() + aig.outputs@.len(), 1 + aig.leaves() + aig.outputs@.len() + count),
        ),
    decreases count,
{
    let f = aig.listing();
    let rows = f.rows();
    let from = 1 + aig.leaves() + aig.outputs@.len();
    if count == 0 {
        assert(rows.subrange(from, from) =~= Seq::<Seq<char>>::empty());
    } else {
        lemma_gate_text(aig, count - 1);
        lemma_more(rows, from, count);
        let gate = aig.ands@[count - 1];
        let e = f.entry(from + count - 2);
        assert(e =~= seq![gate.0, gate.1, gate.2]);
        lemma_numbers_line(e);
        assert(rows[from + count - 1] == join(decimals(e)));
    }
}

proof fn lemma_symbol_text(aig: &Aig, count: int)
    requires
        0 <= count <= aig.input_names@.len(),
    ensures
        aig.symbol_lines(count) == sheet(aig.symbol_rows().subrange(0, count)),
    decreases count,
{
    let rows = aig.symbol_rows();
    if count == 0 {
        assert(rows.subrange(0, 0) =~= Seq::<Seq<char>>::empty());
    } else {
        lemma_symbol_text(aig, count - 1);
        lemma_more(rows, 0, count);
        assert(aig.symbol_lines(count) =~= sheet(rows.subrange(0, count)));
    }
}

/// The text of what is built is its listing and the symbol table.
#[verifier::rlimit(40)]
proof fn lemma_text(aig: &Aig)
    requires
        aig.wf(),
        aig.outputs@.len() <= u64::MAX,
    ensures
        aig.spec_text() == sheet(aig.listing().rows()) + sheet(aig.symbol_rows()),
{
    let f = aig.listing();
    let rows = f.rows();
    let symbols = aig.symbol_rows();
    let a = 1 + aig.input_names@.len() as int;
    let b = 1 + aig.leaves();
    let c = b + aig.outputs@.len();
    let d = c + aig.ands@.len();
    lemma_header_text(aig);
    lemma_input_text(aig, aig.input_names@.len() as int);
    lemma_latch_text(aig, aig.nexts@.len() as int);
    lemma_output_text(aig, aig.outputs@.len() as int);
    lemma_gate_text(aig, aig.ands@.len() as int);
    lemma_symbol_text(aig, aig.input_names@.len() as int);
    let head = rows.subrange(0, 1);
    let (p, q, r, s) = (rows.subrange(1, a), rows.subrange(a, b), rows.subrange(b, c), rows.subrange(c, d));
    assert(rows.len() == d);
    assert(rows =~= head + p + q + r + s);
    lemma_sheet_concat(head + p + q + r, s);
    lemma_sheet_concat(head + p + q, r);
    lemma_sheet_concat(head + p, q);
    lemma_sheet_concat(head, p);
    lemma_more(rows, 0, 1);
    assert(rows.subrange(0, 0) =~= Seq::<Seq<char>>::empty());
    assert(sheet(head) =~= rows[0] + "\n"@);
    assert(symbols.subrange(0, symbols.len() as int) =~= symbols);
    assert(aig.spec_text() =~= sheet(rows) + sheet(symbols));
}

/// Reading the text of what is built gives it back: the file has its
/// inputs, latches, outputs and gates, and its input names where they are
/// lines.
pub proof fn law_built_files_read_back(aig: &Aig, result: Result<Aiger, ParseError>)
    requires
        aig.wf(),
        aig.leaves() + aig.outputs@.len() + aig.ands@.len() <= u64::MAX,
        forall|k: int| 0 <= k < aig.nexts@.len() ==> (#[trigger] aig.nexts@[k]).1 <= 1,
        reads_as(aig.spec_text(), result),
    ensures
        result matches Ok(aiger) && aig.listing().is_held(aiger) && ((forall|i: int|
            0 <= i < aig.input_names@.len() ==> is_line((#[trigger] aig.input_names@[i])@)) ==> forall|i: int|
            0 <= i < aig.input_names@.len() ==> held_name(#[trigger] aiger.input_names@[i]) == Some(aig.input_names@[i]@)),
{
    let f = aig.listing();
    let symbols = aig.symbol_rows();
    assert(f.valid()) by {
        assert forall|i: int| 0 <= i < f.ands.len() implies (#[trigger] f.ands[i]).0 % 2 == 0 && f.ands[i].0 >= 2 by {
            assert(aig.ands@[i].0 == 2 * (aig.leaves() + i + 1));
        }
        assert forall|i: int|
            0 <= i < f.latches.len() implies (#[trigger] f.latches[i]).0 % 2 == 0 && f.latches[i].0 >= 2 && (f.latches[i].2 matches Some(
            reset,
        ) ==> reset <= 1) by {
            assert(aig.nexts@[i].1 <= 1);
        }
    }
    lemma_text(aig);
    law_listings_read_back(f, sheet(symbols), result);
    let aiger = result->Ok_0;
    if forall|i: int| 0 <= i < aig.input_names@.len() ==> is_line((#[trigger] aig.input_names@[i])@) {
        lemma_names(aig, aiger);
    }
}

#[verifier::rlimit(40)]
proof fn lemma_names(aig: &Aig, aiger: Aiger)
    requires
        aig.wf(),
        aig.listing().valid(),
        aig.listing().is_held(aiger),
        forall|i: int| 0 <= i < aig.input_names@.len() ==> is_line((#[trigger] aig.input_names@[i])@),
        reads_as(sheet(aig.listing().rows()) + sheet(aig.symbol_rows()), Ok(aiger)),
    ensures
        forall|i: int| 0 <= i < aig.input_names@.len() ==> held_name(#[trigger] aiger.input_names@[i]) == Some(aig.input_names@[i]@),
{
    let f = aig.listing();
    let rows = f.rows();
    let symbols = aig.symbol_rows();
    let all = rows + symbols;
    let text = sheet(rows) + sheet(symbols);
    let from = rows.len() as int;
    lemma_sheet_concat(rows, symbols);
    assert(text =~= sheet(all) + Seq::<char>::empty());
    reveal_strlit("i");
    assert forall|j: int, position: u64| 0 <= j < symbols.len() implies is_line(symbols[j]) && symbols[j].len() > 0 && symbols[j][0] == 'i'
        && #[trigger] symbol_at(symbols[j], 'i', position as int) == (if position == j {
        Some(aig.input_names@[j]@)
    } else {
        None
    }) by {
        assert(is_line(aig.input_names@[j]@));
        lemma_symbol_line("i"@, j as u64, aig.input_names@[j]@, 'i', position);
    }
    assert forall|i: int| 0 <= i < all.len() implies is_line(#[trigger] all[i]) by {
        if i < from {
            lemma_rows_are_lines(f, i);
            assert(all[i] == rows[i]);
        } else {
            assert(all[i] == symbols[i - from]);
            let at = symbol_at(symbols[i - from], 'i', 0u64 as int);
        }
    }
    lemma_lines(all, Seq::empty());
    let ls = crate::scan::lines(text);
    assert(ls == all);
    assert forall|i: int| from <= i < ls.len() implies !((#[trigger] ls[i]).len() > 0 && ls[i][0] == 'c') by {
        assert(ls[i] == symbols[i - from]);
        let at = symbol_at(symbols[i - from], 'i', 0u64 as int);
    }
    lemma_table_end(ls, from);
    lemma_header_total(f, ls);
    let end = ls.len() as int;
    assert(names_ok(aiger.input_names@, ls, from, end, 'i'));
    assert forall|i: int| 0 <= i < aig.input_names@.len() implies held_name(#[trigger] aiger.input_names@[i]) == Some(aig.input_names@[i]@) by {
        let at = from + i;
        assert forall|j: int| from <= j < end implies symbol_at(#[trigger] ls[j], 'i', i) == (if j == at {
            Some(aig.input_names@[i]@)
        } else {
            None
        }) by {
            assert(ls[j] == symbols[j - from]);
            let found = symbol_at(symbols[j - from], 'i', i as u64 as int);
        }
        lemma_symbol_found(ls, from, end, 'i', i, at, aig.input_names@[i]@);
    }
}

} // verus!
