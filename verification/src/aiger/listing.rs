//! What is written as ASCII AIGER is what is read.
//!
//! A file is listed as a header and lines of numbers. Reading such a text
//! gives back the numbers, whatever follows the lines.
use crate::aiger::circuit::{Circuit, Values};
use crate::aiger::parse::{
    bad_entry, entries_ok, entry_error, first_failure, first_invalid, header_of, is_variable, numbers, reads_as, And, Header, Latch,
    ParseError, Section, Aiger,
};
use crate::aiger::qaiger::reads_circuit;
use crate::aiger::safety::{solves_game, SafetyOutcome};
use crate::scan::{blank, digit_value, digits_value, lines, number, pieces, stripped, words};
use crate::text::{decimal, digit, join};
use vstd::prelude::*;
use vstd::string::*;

verus! {

/// The characters are decimal digits.
pub open spec fn all_digits(s: Seq<char>) -> bool {
    forall|i: int| 0 <= i < s.len() ==> '0' <= #[trigger] s[i] <= '9'
}

proof fn lemma_digit(d: int)
    requires
        0 <= d < 10,
    ensures
        digit(d).len() == 1,
        digit_value(digit(d)[0]) == Some(d as nat),
{
    reveal_strlit("0");
    reveal_strlit("1");
    reveal_strlit("2");
    reveal_strlit("3");
    reveal_strlit("4");
    reveal_strlit("5");
    reveal_strlit("6");
    reveal_strlit("7");
    reveal_strlit("8");
    reveal_strlit("9");
}

/// Decimal digits stand for the number that they were written for.
pub proof fn lemma_decimal(n: nat)
    ensures
        decimal(n).len() > 0,
        all_digits(decimal(n)),
        digits_value(decimal(n)) == Some(n),
    decreases n,
{
    let last = digit((n % 10) as int);
    lemma_digit((n % 10) as int);
    if n < 10 {
        assert(decimal(n) == last);
        assert(last.drop_last() =~= Seq::<char>::empty());
        assert(digits_value(last.drop_last()) == Some(0nat));
    } else {
        lemma_decimal(n / 10);
        let before = decimal(n / 10);
        assert(decimal(n) == before + last);
        assert((before + last).drop_last() =~= before);
        assert((before + last).last() == last[0]);
        assert(10 * (n / 10) + n % 10 == n);
    }
}

/// A number is read as it was written.
pub proof fn lemma_number(n: u64)
    ensures
        number(decimal(n as nat)) == Some(n),
{
    lemma_decimal(n as nat);
    assert('0' <= decimal(n as nat)[0]);
}

/// The text is a word.
pub open spec fn is_token(s: Seq<char>) -> bool {
    s.len() > 0 && forall|i: int| 0 <= i < s.len() ==> !blank(#[trigger] s[i])
}

pub proof fn lemma_decimal_token(n: nat)
    ensures
        is_token(decimal(n)),
{
    lemma_decimal(n);
    assert forall|i: int| 0 <= i < decimal(n).len() implies !blank(#[trigger] decimal(n)[i]) by {
        assert('0' <= decimal(n)[i] <= '9');
    }
}

/// A word behind a blank is the last word.
pub proof fn lemma_last_word(t: Seq<char>, w: Seq<char>)
    requires
        t.len() == 0 || blank(t.last()),
        is_token(w),
    ensures
        words(t + w) == words(t).push(w),
    decreases w.len(),
{
    let s = t + w;
    let rest = w.drop_last();
    assert(s.drop_last() =~= t + rest);
    assert(s.last() == w.last());
    assert(!blank(w[w.len() - 1]));
    if w.len() == 1 {
        assert(s.drop_last() =~= t);
        assert(w =~= seq![w.last()]);
        if t.len() > 0 {
            assert(s[s.len() - 2] == t.last());
        }
    } else {
        assert forall|i: int| 0 <= i < rest.len() implies !blank(#[trigger] rest[i]) by {
            assert(rest[i] == w[i]);
        }
        lemma_last_word(t, rest);
        assert(s[s.len() - 2] == w[w.len() - 2]);
        assert(!blank(w[w.len() - 2]));
        assert(words(t).push(rest).drop_last() =~= words(t));
        assert(rest.push(w.last()) =~= w);
    }
}

/// Words separated by a blank are read as they were written.
pub proof fn lemma_joined(parts: Seq<Seq<char>>)
    requires
        forall|i: int| 0 <= i < parts.len() ==> is_token(#[trigger] parts[i]),
    ensures
        words(join(parts)) == parts,
    decreases parts.len(),
{
    if parts.len() == 0 {
        assert(words(join(parts)) =~= parts);
    } else if parts.len() == 1 {
        let t = Seq::<char>::empty();
        lemma_last_word(t, parts[0]);
        assert(t + parts[0] =~= parts[0]);
        assert(words(t) =~= Seq::<Seq<char>>::empty());
        assert(words(join(parts)) =~= parts);
    } else {
        let few = parts.drop_last();
        assert forall|i: int| 0 <= i < few.len() implies is_token(#[trigger] few[i]) by {
            assert(few[i] == parts[i]);
        }
        lemma_joined(few);
        reveal_strlit(" ");
        let t = join(few) + " "@;
        assert(t.last() == ' ');
        assert(t.drop_last() =~= join(few));
        assert(words(t) == words(join(few)));
        lemma_last_word(t, parts.last());
        assert(words(join(parts)) =~= parts);
    }
}

/// No line feed is in the text.
pub open spec fn on_one_line(s: Seq<char>) -> bool {
    forall|i: int| 0 <= i < s.len() ==> #[trigger] s[i] != '\n'
}

/// The text is a line: it holds no line feed and does not end with a
/// carriage return.
pub open spec fn is_line(s: Seq<char>) -> bool {
    on_one_line(s) && (s.len() > 0 ==> s.last() != '\r')
}

/// Lines, each ended by a line feed.
pub open spec fn sheet(ls: Seq<Seq<char>>) -> Seq<char>
    decreases ls.len(),
{
    if ls.len() == 0 {
        Seq::empty()
    } else {
        sheet(ls.drop_last()) + ls.last() + "\n"@
    }
}

pub proof fn lemma_sheet_concat(first: Seq<Seq<char>>, second: Seq<Seq<char>>)
    ensures
        sheet(first + second) == sheet(first) + sheet(second),
    decreases second.len(),
{
    if second.len() == 0 {
        assert(first + second =~= first);
        assert(sheet(first) + sheet(second) =~= sheet(first));
    } else {
        let all = first + second;
        assert(all.drop_last() =~= first + second.drop_last());
        assert(all.last() == second.last());
        lemma_sheet_concat(first, second.drop_last());
        assert(sheet(all) =~= sheet(first) + sheet(second));
    }
}

proof fn lemma_pieces_some(s: Seq<char>)
    ensures
        pieces(s).len() >= 1,
    decreases s.len(),
{
    if s.len() > 0 {
        lemma_pieces_some(s.drop_last());
    }
}

proof fn lemma_one_piece(s: Seq<char>)
    requires
        on_one_line(s),
    ensures
        pieces(s) == seq![s],
    decreases s.len(),
{
    if s.len() > 0 {
        let rest = s.drop_last();
        assert forall|i: int| 0 <= i < rest.len() implies #[trigger] rest[i] != '\n' by {
            assert(rest[i] == s[i]);
        }
        lemma_one_piece(rest);
        assert(s[s.len() - 1] != '\n');
        assert(rest.push(s.last()) =~= s);
        assert(pieces(s) =~= seq![s]);
    } else {
        assert(s =~= Seq::<char>::empty());
    }
}

proof fn lemma_pieces_concat(a: Seq<char>, b: Seq<char>)
    ensures
        pieces(a + "\n"@ + b) == pieces(a) + pieces(b),
    decreases b.len(),
{
    reveal_strlit("\n");
    let s = a + "\n"@ + b;
    lemma_pieces_some(a);
    if b.len() == 0 {
        assert(s.drop_last() =~= a);
        assert(s.last() == '\n');
        assert(pieces(s) =~= pieces(a) + pieces(b));
    } else {
        let rest = b.drop_last();
        lemma_pieces_concat(a, rest);
        lemma_pieces_some(rest);
        assert(s.drop_last() =~= a + "\n"@ + rest);
        assert(s.last() == b.last());
        let before = pieces(a) + pieces(rest);
        assert(before.drop_last() =~= pieces(a) + pieces(rest).drop_last());
        assert(before.last() == pieces(rest).last());
        assert(pieces(s) =~= pieces(a) + pieces(b));
    }
}

proof fn lemma_pieces_sheet(ls: Seq<Seq<char>>, tail: Seq<char>)
    requires
        forall|i: int| 0 <= i < ls.len() ==> on_one_line(#[trigger] ls[i]),
    ensures
        pieces(sheet(ls) + tail) == ls + pieces(tail),
    decreases ls.len(),
{
    if ls.len() == 0 {
        assert(sheet(ls) + tail =~= tail);
        assert(ls + pieces(tail) =~= pieces(tail));
    } else {
        let few = ls.drop_last();
        assert forall|i: int| 0 <= i < few.len() implies on_one_line(#[trigger] few[i]) by {
            assert(few[i] == ls[i]);
        }
        let line = ls.last();
        assert(on_one_line(ls[ls.len() - 1]));
        assert(sheet(ls) + tail =~= sheet(few) + (line + "\n"@ + tail));
        lemma_pieces_sheet(few, line + "\n"@ + tail);
        lemma_pieces_concat(line, tail);
        lemma_one_piece(line);
        assert(ls + pieces(tail) =~= few + (seq![line] + pieces(tail)));
    }
}

/// Lines are read as they were written, whatever follows them.
pub proof fn lemma_lines(ls: Seq<Seq<char>>, tail: Seq<char>)
    requires
        forall|i: int| 0 <= i < ls.len() ==> is_line(#[trigger] ls[i]),
    ensures
        lines(sheet(ls) + tail).len() >= ls.len(),
        lines(sheet(ls) + tail).take(ls.len() as int) == ls,
        tail.len() == 0 ==> lines(sheet(ls) + tail) == ls,
{
    assert forall|i: int| 0 <= i < ls.len() implies on_one_line(#[trigger] ls[i]) by {
        assert(is_line(ls[i]));
    }
    lemma_pieces_sheet(ls, tail);
    lemma_pieces_some(tail);
    let all = ls + pieces(tail);
    let found = lines(sheet(ls) + tail);
    assert forall|i: int| 0 <= i < ls.len() implies found[i] == ls[i] by {
        assert(is_line(ls[i]));
        assert(all[i] == ls[i]);
        assert(stripped(ls[i]) == ls[i]);
    }
    assert(found.take(ls.len() as int) =~= ls);
    if tail.len() == 0 {
        assert(pieces(tail) =~= seq![Seq::<char>::empty()]);
        assert(all.last() =~= Seq::<char>::empty());
        assert(found =~= ls);
    }
}

/// A file as a list of numbers. Without bad signals the header may leave
/// out their number.
pub ghost struct Listing {
    pub max_var: u64,
    pub inputs: Seq<u64>,
    /// literal, next state, and reset value where it is given
    pub latches: Seq<(u64, u64, Option<u64>)>,
    pub outputs: Seq<u64>,
    pub bad: Option<Seq<u64>>,
    pub ands: Seq<(u64, u64, u64)>,
}

impl Listing {
    /// The bad signals.
    pub open spec fn bad_signals(self) -> Seq<u64> {
        match self.bad {
            Some(bad) => bad,
            None => Seq::empty(),
        }
    }

    /// What has to stay false: the outputs and the bad signals.
    pub open spec fn errors(self) -> Seq<u64> {
        self.outputs + self.bad_signals()
    }

    /// The numbers of the header.
    pub open spec fn counts(self) -> Seq<u64> {
        let five = seq![
            self.max_var,
            self.inputs.len() as u64,
            self.latches.len() as u64,
            self.outputs.len() as u64,
            self.ands.len() as u64,
        ];
        match self.bad {
            Some(bad) => five.push(bad.len() as u64),
            None => five,
        }
    }

    /// The number of lines behind the header.
    pub open spec fn total(self) -> nat {
        self.inputs.len() + self.latches.len() + self.outputs.len() + self.bad_signals().len() + self.ands.len()
    }

    /// The numbers of a line behind the header: inputs, latches, outputs,
    /// bad signals, gates.
    pub open spec fn entry(self, e: int) -> Seq<u64> {
        let i = e - self.inputs.len();
        let o = i - self.latches.len();
        let b = o - self.outputs.len();
        let g = b - self.bad_signals().len();
        if i < 0 {
            seq![self.inputs[e]]
        } else if o < 0 {
            match self.latches[i].2 {
                Some(reset) => seq![self.latches[i].0, self.latches[i].1, reset],
                None => seq![self.latches[i].0, self.latches[i].1],
            }
        } else if b < 0 {
            seq![self.outputs[o]]
        } else if g < 0 {
            seq![self.bad_signals()[b]]
        } else {
            seq![self.ands[g].0, self.ands[g].1, self.ands[g].2]
        }
    }

    /// Inputs, latches and gates are variables, latches are reset to a
    /// value, and the numbers can be written.
    pub open spec fn valid(self) -> bool {
        &&& self.total() <= u64::MAX
        &&& forall|i: int| 0 <= i < self.inputs.len() ==> #[trigger] self.inputs[i] % 2 == 0 && self.inputs[i] >= 2
        &&& forall|i: int|
            0 <= i < self.latches.len() ==> (#[trigger] self.latches[i]).0 % 2 == 0 && self.latches[i].0 >= 2 && (self.latches[i].2 matches Some(
                reset,
            ) ==> reset <= 1)
        &&& forall|i: int| 0 <= i < self.ands.len() ==> (#[trigger] self.ands[i]).0 % 2 == 0 && self.ands[i].0 >= 2
    }

    /// The lines of the file.
    pub open spec fn rows(self) -> Seq<Seq<char>> {
        Seq::new(
            self.total() + 1,
            |i: int|
                if i == 0 {
                    join(seq!["aag"@] + decimals(self.counts()))
                } else {
                    join(decimals(self.entry(i - 1)))
                },
        )
    }

    /// The file holds what is listed.
    pub open spec fn is_held(self, aiger: Aiger) -> bool {
        &&& aiger.max_var == self.max_var
        &&& aiger.inputs@ == self.inputs
        &&& aiger.latches@.len() == self.latches.len()
        &&& forall|i: int|
            0 <= i < self.latches.len() ==> (#[trigger] aiger.latches@[i]).lit == self.latches[i].0 && aiger.latches@[i].next
                == self.latches[i].1 && aiger.latches@[i].reset == (match self.latches[i].2 {
                Some(reset) => reset,
                None => 0,
            })
        &&& aiger.outputs@ == self.outputs + self.bad_signals()
        &&& aiger.ands@.len() == self.ands.len()
        &&& forall|i: int|
            0 <= i < self.ands.len() ==> (#[trigger] aiger.ands@[i]).lhs == self.ands[i].0 && aiger.ands@[i].rhs0 == self.ands[i].1
                && aiger.ands@[i].rhs1 == self.ands[i].2
    }
}

/// The numbers in decimal.
pub open spec fn decimals(ns: Seq<u64>) -> Seq<Seq<char>> {
    Seq::new(ns.len(), |i: int| decimal(ns[i] as nat))
}

proof fn lemma_decimals(ns: Seq<u64>)
    ensures
        words(join(decimals(ns))) == decimals(ns),
        numbers(decimals(ns)) == ns,
        first_invalid(decimals(ns)) is None,
        is_line(join(decimals(ns))),
{
    let parts = decimals(ns);
    assert forall|i: int| 0 <= i < parts.len() implies is_token(#[trigger] parts[i]) by {
        lemma_decimal_token(ns[i] as nat);
    }
    lemma_joined(parts);
    assert forall|i: int| 0 <= i < parts.len() implies number(#[trigger] parts[i]) == Some(ns[i]) by {
        lemma_number(ns[i]);
    }
    assert(numbers(parts) =~= ns);
    lemma_all_valid(parts);
    lemma_joined_line(parts);
}

proof fn lemma_all_valid(parts: Seq<Seq<char>>)
    requires
        forall|i: int| 0 <= i < parts.len() ==> number(#[trigger] parts[i]) is Some,
    ensures
        first_invalid(parts) is None,
    decreases parts.len(),
{
    if parts.len() > 0 {
        let few = parts.drop_last();
        assert forall|i: int| 0 <= i < few.len() implies number(#[trigger] few[i]) is Some by {
            assert(few[i] == parts[i]);
        }
        lemma_all_valid(few);
        assert(number(parts[parts.len() - 1]) is Some);
    }
}

/// Words on a line are a line.
proof fn lemma_joined_line(parts: Seq<Seq<char>>)
    requires
        forall|i: int| 0 <= i < parts.len() ==> is_token(#[trigger] parts[i]),
    ensures
        is_line(join(parts)),
    decreases parts.len(),
{
    if parts.len() == 1 {
        let w = parts[0];
        assert forall|i: int| 0 <= i < w.len() implies #[trigger] w[i] != '\n' by {
            assert(!blank(w[i]));
        }
        assert(!blank(w[w.len() - 1]));
    } else if parts.len() > 1 {
        let few = parts.drop_last();
        assert forall|i: int| 0 <= i < few.len() implies is_token(#[trigger] few[i]) by {
            assert(few[i] == parts[i]);
        }
        lemma_joined_line(few);
        let w = parts[parts.len() - 1];
        reveal_strlit(" ");
        let s = join(few) + " "@ + w;
        assert(s == join(parts));
        assert forall|i: int| 0 <= i < s.len() implies #[trigger] s[i] != '\n' by {
            let n = join(few).len();
            if i < n {
                assert(s[i] == join(few)[i]);
            } else if i == n {
                assert(s[i] == ' ');
            } else {
                assert(s[i] == w[i - n - 1]);
                assert(!blank(w[i - n - 1]));
            }
        }
        assert(s.last() == w[w.len() - 1]);
        assert(!blank(w[w.len() - 1]));
    }
}

#[verifier::rlimit(40)]
proof fn lemma_header(f: Listing, ls: Seq<Seq<char>>)
    requires
        f.valid(),
        ls.len() > 0,
        ls[0] == f.rows()[0],
    ensures
        header_of(ls) == Ok::<Header, Seq<char>>(
            Header {
                max_var: f.max_var,
                inputs: f.inputs.len(),
                latches: f.latches.len(),
                outputs: f.outputs.len() + f.bad_signals().len(),
                ands: f.ands.len(),
            },
        ),
        is_line(f.rows()[0]),
{
    let ns = f.counts();
    let parts = seq!["aag"@] + decimals(ns);
    reveal_strlit("aag");
    assert forall|i: int| 0 <= i < parts.len() implies is_token(#[trigger] parts[i]) by {
        if i == 0 {
            assert(parts[0] == "aag"@);
            assert forall|k: int| 0 <= k < parts[0].len() implies !blank(#[trigger] parts[0][k]) by {
                assert(parts[0][k] == 'a' || parts[0][k] == 'g');
            }
        } else {
            assert(parts[i] == decimal(ns[i - 1] as nat));
            lemma_decimal_token(ns[i - 1] as nat);
        }
    }
    lemma_joined(parts);
    lemma_joined_line(parts);
    assert(words(ls[0]) == parts);
    assert(parts.skip(1) =~= decimals(ns));
    lemma_decimals(ns);
}

/// The lines of a listing are lines.
pub proof fn lemma_rows_are_lines(f: Listing, i: int)
    requires
        f.valid(),
        0 <= i < f.rows().len(),
    ensures
        is_line(f.rows()[i]),
{
    if i == 0 {
        lemma_header(f, f.rows());
    } else {
        lemma_decimals(f.entry(i - 1));
    }
}

/// The header counts the lines.
pub proof fn lemma_header_total(f: Listing, ls: Seq<Seq<char>>)
    requires
        f.valid(),
        ls.len() > 0,
        ls[0] == f.rows()[0],
    ensures
        header_of(ls) is Ok,
        (header_of(ls)->Ok_0).total() == f.total(),
{
    lemma_header(f, ls);
}

/// The line of an entry holds its numbers.
spec fn listed(f: Listing, ls: Seq<Seq<char>>, e: int) -> bool {
    &&& e + 1 < ls.len()
    &&& numbers(words(ls[e + 1])) == f.entry(e)
    &&& first_invalid(words(ls[e + 1])) is None
}

spec fn header_for(f: Listing, h: Header) -> bool {
    &&& h.max_var == f.max_var
    &&& h.inputs == f.inputs.len()
    &&& h.latches == f.latches.len()
    &&& h.outputs == f.outputs.len() + f.bad_signals().len()
    &&& h.ands == f.ands.len()
}

proof fn lemma_good_entry(f: Listing, ls: Seq<Seq<char>>, h: Header, e: int)
    requires
        f.valid(),
        header_for(f, h),
        0 <= e < h.total(),
        listed(f, ls, e),
    ensures
        !bad_entry(ls, h, e),
{
    let ns = f.entry(e);
    if e < f.inputs.len() {
        assert(f.inputs[e] % 2 == 0);
        assert(ns[0] == f.inputs[e]);
    } else if e < f.inputs.len() + f.latches.len() {
        let i = e - f.inputs.len();
        assert(f.latches[i].0 % 2 == 0);
        assert(ns[0] == f.latches[i].0);
    } else if e < f.inputs.len() + f.latches.len() + f.outputs.len() + f.bad_signals().len() {
        assert(ns.len() == 1);
    } else {
        let i = e - f.inputs.len() - f.latches.len() - f.outputs.len() - f.bad_signals().len();
        assert(f.ands[i].0 % 2 == 0);
        assert(ns[0] == f.ands[i].0);
    }
}

proof fn lemma_inputs_held(f: Listing, ls: Seq<Seq<char>>, h: Header, aiger: Aiger)
    requires
        header_for(f, h),
        entries_ok(aiger, ls, h, h.total() as int),
        forall|e: int| 0 <= e < f.total() ==> #[trigger] listed(f, ls, e),
    ensures
        aiger.inputs@ == f.inputs,
{
    assert forall|i: int| 0 <= i < f.inputs.len() implies #[trigger] aiger.inputs@[i] == f.inputs[i] by {
        assert(listed(f, ls, i));
    }
    assert(aiger.inputs@ =~= f.inputs);
}

proof fn lemma_latches_held(f: Listing, ls: Seq<Seq<char>>, h: Header, aiger: Aiger)
    requires
        header_for(f, h),
        entries_ok(aiger, ls, h, h.total() as int),
        forall|e: int| 0 <= e < f.total() ==> #[trigger] listed(f, ls, e),
    ensures
        aiger.latches@.len() == f.latches.len(),
        forall|i: int|
            0 <= i < f.latches.len() ==> (#[trigger] aiger.latches@[i]).lit == f.latches[i].0 && aiger.latches@[i].next == f.latches[i].1
                && aiger.latches@[i].reset == (match f.latches[i].2 {
                Some(reset) => reset,
                None => 0,
            }),
{
    assert forall|i: int| 0 <= i < f.latches.len() implies (#[trigger] aiger.latches@[i]).lit == f.latches[i].0 && aiger.latches@[i].next
        == f.latches[i].1 && aiger.latches@[i].reset == (match f.latches[i].2 {
        Some(reset) => reset,
        None => 0,
    }) by {
        let e = f.inputs.len() + i;
        assert(listed(f, ls, e));
        assert(f.entry(e)[0] == f.latches[i].0);
    }
}

proof fn lemma_errors_held(f: Listing, ls: Seq<Seq<char>>, h: Header, aiger: Aiger)
    requires
        header_for(f, h),
        entries_ok(aiger, ls, h, h.total() as int),
        forall|e: int| 0 <= e < f.total() ==> #[trigger] listed(f, ls, e),
    ensures
        aiger.outputs@ == f.outputs + f.bad_signals(),
{
    assert forall|i: int| 0 <= i < aiger.outputs@.len() implies #[trigger] aiger.outputs@[i] == f.errors()[i] by {
        let e = f.inputs.len() + f.latches.len() + i;
        assert(listed(f, ls, e));
    }
    assert(aiger.outputs@ =~= f.errors());
}

proof fn lemma_ands_held(f: Listing, ls: Seq<Seq<char>>, h: Header, aiger: Aiger)
    requires
        header_for(f, h),
        entries_ok(aiger, ls, h, h.total() as int),
        forall|e: int| 0 <= e < f.total() ==> #[trigger] listed(f, ls, e),
    ensures
        aiger.ands@.len() == f.ands.len(),
        forall|i: int|
            0 <= i < f.ands.len() ==> (#[trigger] aiger.ands@[i]).lhs == f.ands[i].0 && aiger.ands@[i].rhs0 == f.ands[i].1
                && aiger.ands@[i].rhs1 == f.ands[i].2,
{
    assert forall|i: int| 0 <= i < f.ands.len() implies (#[trigger] aiger.ands@[i]).lhs == f.ands[i].0 && aiger.ands@[i].rhs0
        == f.ands[i].1 && aiger.ands@[i].rhs1 == f.ands[i].2 by {
        let e = f.inputs.len() + f.latches.len() + f.outputs.len() + f.bad_signals().len() + i;
        assert(listed(f, ls, e));
    }
}

/// What is listed is read: reading a text that starts with the lines of a
/// listing succeeds and gives what is listed, whatever follows. The error
/// signals are the outputs and then the bad signals.
#[verifier::rlimit(40)]
pub proof fn law_listings_read_back(f: Listing, tail: Seq<char>, result: Result<Aiger, ParseError>)
    requires
        f.valid(),
        reads_as(sheet(f.rows()) + tail, result),
    ensures
        result matches Ok(aiger) && f.is_held(aiger),
{
    let rows = f.rows();
    let text = sheet(rows) + tail;
    let ls = lines(text);
    assert forall|i: int| 0 <= i < rows.len() implies is_line(#[trigger] rows[i]) by {
        if i == 0 {
            lemma_header(f, rows);
        } else {
            lemma_decimals(f.entry(i - 1));
        }
    }
    lemma_lines(rows, tail);
    assert forall|i: int| 0 <= i < rows.len() implies #[trigger] ls[i] == rows[i] by {
        assert(ls.take(rows.len() as int)[i] == rows[i]);
    }
    assert(ls[0] == rows[0]);
    lemma_header(f, ls);
    let h = header_of(ls)->Ok_0;
    assert forall|e: int| 0 <= e < f.total() implies #[trigger] listed(f, ls, e) by {
        assert(ls[e + 1] == rows[e + 1]);
        lemma_decimals(f.entry(e));
    }
    match result {
        Err(error) => {
            let entry = choose|entry: int| #[trigger] first_failure(ls, h, entry, error);
            lemma_good_entry(f, ls, h, entry);
        },
        Ok(aiger) => {
            lemma_inputs_held(f, ls, h, aiger);
            lemma_latches_held(f, ls, h, aiger);
            lemma_errors_held(f, ls, h, aiger);
            lemma_ands_held(f, ls, h, aiger);
        },
    }
}

/// A header of fewer than five numbers, or one that counts invariant
/// constraints, is refused, whatever follows it.
pub proof fn law_headers_are_refused(ns: Seq<u64>, tail: Seq<char>, result: Result<Aiger, ParseError>)
    requires
        ns.len() < 5 || (ns.len() > 6 && ns[6] > 0),
        reads_as(sheet(seq![join(seq!["aag"@] + decimals(ns))]) + tail, result),
    ensures
        result matches Err(error) && error.line == 1,
{
    let parts = seq!["aag"@] + decimals(ns);
    let row = join(parts);
    reveal_strlit("aag");
    assert forall|i: int| 0 <= i < parts.len() implies is_token(#[trigger] parts[i]) by {
        if i == 0 {
            assert(parts[0] == "aag"@);
            assert forall|k: int| 0 <= k < parts[0].len() implies !blank(#[trigger] parts[0][k]) by {
                assert(parts[0][k] == 'a' || parts[0][k] == 'g');
            }
        } else {
            assert(parts[i] == decimal(ns[i - 1] as nat));
            lemma_decimal_token(ns[i - 1] as nat);
        }
    }
    lemma_joined(parts);
    lemma_joined_line(parts);
    let rows = seq![row];
    lemma_lines(rows, tail);
    let ls = lines(sheet(rows) + tail);
    assert(ls.take(1)[0] == row);
    assert(ls[0] == row);
    assert(words(ls[0]) == parts);
    assert(parts.skip(1) =~= decimals(ns));
    lemma_decimals(ns);
}

/// What is read is a circuit: inputs, latches and gates are variables, and
/// latches are reset to a value.
pub proof fn law_read_files_are_circuits(text: Seq<char>, aiger: Aiger)
    requires
        reads_as(text, Ok(aiger)),
    ensures
        forall|i: int| 0 <= i < aiger.inputs@.len() ==> #[trigger] aiger.inputs@[i] % 2 == 0 && aiger.inputs@[i] >= 2,
        forall|i: int|
            0 <= i < aiger.latches@.len() ==> (#[trigger] aiger.latches@[i]).lit % 2 == 0 && aiger.latches@[i].lit >= 2 && aiger.latches@[i].reset
                <= 1,
        forall|i: int| 0 <= i < aiger.ands@.len() ==> (#[trigger] aiger.ands@[i]).lhs % 2 == 0 && aiger.ands@[i].lhs >= 2,
        aiger.input_names@.len() == aiger.inputs@.len(),
        aiger.output_names@.len() == aiger.outputs@.len(),
{
    let ls = lines(text);
    let h = header_of(ls)->Ok_0;
    assert forall|i: int| 0 <= i < aiger.inputs@.len() implies #[trigger] aiger.inputs@[i] % 2 == 0 && aiger.inputs@[i] >= 2 by {
        assert(!bad_entry(ls, h, i));
    }
    assert forall|i: int|
        0 <= i < aiger.latches@.len() implies (#[trigger] aiger.latches@[i]).lit % 2 == 0 && aiger.latches@[i].lit >= 2 && aiger.latches@[i].reset
        <= 1 by {
        assert(!bad_entry(ls, h, h.inputs + i));
    }
    assert forall|i: int| 0 <= i < aiger.ands@.len() implies (#[trigger] aiger.ands@[i]).lhs % 2 == 0 && aiger.ands@[i].lhs >= 2 by {
        assert(!bad_entry(ls, h, h.inputs + h.latches + h.outputs + i));
    }
}

/// Every bad signal of a listing is an error signal of the game, and so is
/// every output; nothing else is.
pub proof fn law_bad_signals_are_errors(f: Listing, tail: Seq<char>, circuit: Circuit, v: Values)
    requires
        f.valid(),
        reads_circuit(sheet(f.rows()) + tail, Ok(circuit)),
    ensures
        f.is_held(circuit.aiger),
        circuit.safe(v) == ((forall|i: int| 0 <= i < f.outputs.len() ==> !circuit.value(v, #[trigger] f.outputs[i])) && (forall|i: int|
            0 <= i < f.bad_signals().len() ==> !circuit.value(v, #[trigger] f.bad_signals()[i]))),
{
    law_listings_read_back(f, tail, Ok(circuit.aiger));
    let all = circuit.aiger.outputs@;
    let n = f.outputs.len() as int;
    if circuit.safe(v) {
        assert forall|i: int| 0 <= i < f.outputs.len() implies !circuit.value(v, #[trigger] f.outputs[i]) by {
            assert(all[i] == f.outputs[i]);
        }
        assert forall|i: int| 0 <= i < f.bad_signals().len() implies !circuit.value(v, #[trigger] f.bad_signals()[i]) by {
            assert(all[n + i] == f.bad_signals()[i]);
        }
    }
    if (forall|i: int| 0 <= i < f.outputs.len() ==> !circuit.value(v, #[trigger] f.outputs[i])) && (forall|i: int|
        0 <= i < f.bad_signals().len() ==> !circuit.value(v, #[trigger] f.bad_signals()[i])) {
        assert forall|i: int| 0 <= i < all.len() implies !circuit.value(v, #[trigger] all[i]) by {
            if i < n {
                assert(all[i] == f.outputs[i]);
            } else {
                assert(all[i] == f.bad_signals()[i - n]);
            }
        }
    }
}

/// The controller of the listed game can answer the move of the environment
/// in the initial state with no output and no bad signal raised.
pub open spec fn answered_safely(f: Listing, circuit: Circuit, env: Seq<bool>) -> bool {
    exists|v: Values| #[trigger]
        circuit.answers(v, circuit.initial(), env) && (forall|i: int|
            0 <= i < f.outputs.len() ==> !circuit.value(v, #[trigger] f.outputs[i])) && (forall|i: int|
            0 <= i < f.bad_signals().len() ==> !circuit.value(v, #[trigger] f.bad_signals()[i]))
}

/// A game that is called realizable is won in the listed circuit: from the
/// initial state the controller can answer every move of the environment
/// with no output and no bad signal raised.
pub proof fn law_realizable_games_raise_no_bad_signal(f: Listing, tail: Seq<char>, outcome: SafetyOutcome)
    requires
        f.valid(),
        solves_game(sheet(f.rows()) + tail, Ok(outcome)),
        outcome.realizable,
    ensures
        exists|circuit: Circuit|
            #![trigger f.is_held(circuit.aiger)]
            f.is_held(circuit.aiger) && circuit.wf() && circuit.wins(circuit.initial()) && forall|env: Seq<bool>| #[trigger]
                circuit.is_move(env) ==> answered_safely(f, circuit, env),
{
    let text = sheet(f.rows()) + tail;
    let circuit = choose|circuit: Circuit| #[trigger]
        reads_circuit(text, Ok(circuit)) && circuit.complete() && crate::aiger::safety::outcome_ok(circuit, outcome);
    law_listings_read_back(f, tail, Ok(circuit.aiger));
    let region = choose|region: spec_fn(Seq<bool>) -> bool| #[trigger]
        circuit.invariant_region(region) && region(circuit.initial());
    assert(circuit.is_state(circuit.initial()));
    assert forall|env: Seq<bool>| #[trigger] circuit.is_move(env) implies answered_safely(f, circuit, env) by {
        assert(circuit.controls(circuit.initial(), region));
        assert(circuit.responds(circuit.initial(), env, region));
        let v = choose|v: Values| #[trigger] circuit.answers(v, circuit.initial(), env) && circuit.safe(v) && region(circuit.next(v));
        law_bad_signals_are_errors(f, tail, circuit, v);
    }
}

} // verus!
