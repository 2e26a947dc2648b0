//! The ASCII AIGER format.
use crate::scan::{char_lists, chars_of, lines, lines_of, number, parse_number, push_chars, words, words_of};
use vstd::prelude::*;
use vstd::string::*;

verus! {

/// What is wrong with a text, and in which line.
#[derive(Debug)]
pub struct ParseError {
    pub message: String,
    pub line: usize,
}

/// An AND gate.
#[derive(Debug, Clone, Copy)]
pub struct And {
    pub lhs: u64,
    pub rhs0: u64,
    pub rhs1: u64,
}

/// A latch.
#[derive(Debug, Clone, Copy)]
pub struct Latch {
    pub lit: u64,
    pub next: u64,
    /// reset value, 0 or 1
    pub reset: u64,
}

/// An ASCII AIGER (`aag`) file, read far enough for QAIGER purposes.
#[derive(Debug)]
pub struct Aiger {
    pub max_var: u64,
    pub inputs: Vec<u64>,
    pub latches: Vec<Latch>,
    pub outputs: Vec<u64>,
    pub ands: Vec<And>,
    /// symbol names of the inputs, by input position
    pub input_names: Vec<Option<Vec<char>>>,
    /// symbol names of the outputs, by output position
    pub output_names: Vec<Option<Vec<char>>>,
}

/// The numbers of the header that count.
pub ghost struct Header {
    pub max_var: u64,
    pub inputs: nat,
    pub latches: nat,
    pub outputs: nat,
    pub ands: nat,
}

/// The sections of a file, one line per entry.
#[derive(Debug, Clone, Copy, PartialEq, Eq, Structural)]
pub enum Section {
    Input,
    Latch,
    Output,
    And,
}

impl Header {
    /// The number of entries of all sections.
    pub open spec fn total(self) -> nat {
        self.inputs + self.latches + self.outputs + self.ands
    }

    /// The section of an entry.
    pub open spec fn section(self, entry: int) -> Section {
        if entry < self.inputs {
            Section::Input
        } else if entry < self.inputs + self.latches {
            Section::Latch
        } else if entry < self.inputs + self.latches + self.outputs {
            Section::Output
        } else {
            Section::And
        }
    }
}

/// The first word that is no number.
pub open spec fn first_invalid(ws: Seq<Seq<char>>) -> Option<Seq<char>>
    decreases ws.len(),
{
    if ws.len() == 0 {
        None
    } else {
        match first_invalid(ws.drop_last()) {
            Some(word) => Some(word),
            None => if number(ws.last()) is None {
                Some(ws.last())
            } else {
                None
            },
        }
    }
}

/// The numbers that words stand for.
pub open spec fn numbers(ws: Seq<Seq<char>>) -> Seq<u64> {
    Seq::new(ws.len(), |i: int| number(ws[i])->0)
}

/// The header that a line gives, or what is wrong with it.
pub open spec fn header_of(ls: Seq<Seq<char>>) -> Result<Header, Seq<char>> {
    if ls.len() == 0 {
        Err("empty input"@)
    } else {
        let ws = words(ls[0]);
        let ns = numbers(ws.skip(1));
        if ws.len() == 0 || ws[0] != "aag"@ {
            Err("expected an ASCII AIGER header starting with 'aag'"@)
        } else if first_invalid(ws.skip(1)) is Some {
            Err("invalid header field "@ + first_invalid(ws.skip(1))->0)
        } else if ns.len() < 5 {
            Err("header needs at least the fields M I L O A"@)
        } else if ns.len() > 6 && ns[6] > 0 {
            Err("invariant constraints are not supported"@)
        } else {
            Ok(
                Header {
                    max_var: ns[0],
                    inputs: ns[1] as nat,
                    latches: ns[2] as nat,
                    outputs: (ns[3] + if ns.len() > 5 { ns[5] as int } else { 0 }) as nat,
                    ands: ns[4] as nat,
                },
            )
        }
    }
}

/// The literal is a variable: even, and not a constant.
pub open spec fn is_variable(lit: u64) -> bool {
    lit % 2 == 0 && lit >= 2
}

/// What is wrong with an entry, if anything is.
pub open spec fn entry_error(section: Section, line: Seq<char>) -> Option<Seq<char>> {
    let ws = words(line);
    let ns = numbers(ws);
    if first_invalid(ws) is Some {
        Some("invalid literal "@ + first_invalid(ws)->0)
    } else {
        match section {
            Section::Input => if ns.len() == 1 && is_variable(ns[0]) {
                None
            } else {
                Some("an input must be a single positive literal"@)
            },
            Section::Latch => if (ns.len() == 2 && is_variable(ns[0])) || (ns.len() == 3 && is_variable(ns[0]) && ns[2] <= 1) {
                None
            } else if ns.len() == 3 && ns[2] == ns[0] {
                Some("uninitialized latches are not supported"@)
            } else {
                Some("a latch needs the fields lit next [reset]"@)
            },
            Section::Output => if ns.len() == 1 {
                None
            } else {
                Some("an output must be a single literal"@)
            },
            Section::And => if ns.len() == 3 && is_variable(ns[0]) {
                None
            } else {
                Some("an and gate needs the fields lhs rhs0 rhs1"@)
            },
        }
    }
}

/// What an entry of a section is called.
pub open spec fn entry_name(section: Section) -> Seq<char> {
    match section {
        Section::Input => "an input"@,
        Section::Latch => "a latch"@,
        Section::Output => "an output"@,
        Section::And => "an and gate"@,
    }
}

/// The line of an entry is missing or wrong.
pub open spec fn bad_entry(ls: Seq<Seq<char>>, h: Header, entry: int) -> bool {
    entry + 1 >= ls.len() || entry_error(h.section(entry), ls[entry + 1]) is Some
}

/// The error that a wrong or missing entry gives.
pub open spec fn entry_failure(ls: Seq<Seq<char>>, h: Header, entry: int, error: ParseError) -> bool {
    if entry + 1 >= ls.len() {
        error.line == usize::MAX && error.message@ == "unexpected end of file reading "@ + entry_name(h.section(entry))
    } else {
        error.line == entry + 2 && error.message@ == entry_error(h.section(entry), ls[entry + 1])->0
    }
}

/// The error is that of the first wrong or missing entry.
pub open spec fn first_failure(ls: Seq<Seq<char>>, h: Header, entry: int, error: ParseError) -> bool {
    &&& 0 <= entry < h.total()
    &&& bad_entry(ls, h, entry)
    &&& forall|e: int| 0 <= e < entry ==> !#[trigger] bad_entry(ls, h, e)
    &&& entry_failure(ls, h, entry, error)
}

/// Where the first blank is.
pub open spec fn first_space(s: Seq<char>) -> Option<nat>
    decreases s.len(),
{
    if s.len() == 0 {
        None
    } else if s[0] == ' ' {
        Some(0)
    } else {
        match first_space(s.drop_first()) {
            Some(n) => Some(n + 1),
            None => None,
        }
    }
}

/// The name that a line of the symbol table gives to a position: a letter,
/// the position, a blank, and the name.
pub open spec fn symbol_at(line: Seq<char>, kind: char, position: int) -> Option<Seq<char>> {
    if line.len() == 0 || line[0] != kind {
        None
    } else {
        let rest = line.drop_first();
        match first_space(rest) {
            Some(n) => if number(rest.take(n as int)) == Some(position as u64) && position <= u64::MAX {
                Some(rest.skip(n as int + 1))
            } else {
                None
            },
            None => None,
        }
    }
}

/// The last name that lines give to a position.
pub open spec fn symbol(ls: Seq<Seq<char>>, from: int, end: int, kind: char, position: int) -> Option<Seq<char>>
    decreases end - from,
{
    if end <= from {
        None
    } else {
        match symbol_at(ls[end - 1], kind, position) {
            Some(name) => Some(name),
            None => symbol(ls, from, end - 1, kind, position),
        }
    }
}

/// Where the symbol table ends: at the comment section, or with the file.
pub open spec fn table_end(ls: Seq<Seq<char>>, from: int) -> int
    decreases ls.len() - from,
{
    if from < 0 || from >= ls.len() || (ls[from].len() > 0 && ls[from][0] == 'c') {
        from
    } else {
        table_end(ls, from + 1)
    }
}

/// A name as it is held.
pub open spec fn held_name(name: Option<Vec<char>>) -> Option<Seq<char>> {
    match name {
        Some(name) => Some(name@),
        None => None,
    }
}

/// The names are those of a symbol table.
pub open spec fn names_ok(names: Seq<Option<Vec<char>>>, ls: Seq<Seq<char>>, from: int, end: int, kind: char) -> bool {
    forall|i: int| 0 <= i < names.len() ==> held_name(#[trigger] names[i]) == symbol(ls, from, end, kind, i)
}

/// The file has the entries of the first lines.
pub open spec fn entries_ok(aiger: Aiger, ls: Seq<Seq<char>>, h: Header, count: int) -> bool {
    &&& aiger.inputs@.len() == (if count < h.inputs { count } else { h.inputs as int })
    &&& forall|i: int| 0 <= i < aiger.inputs@.len() ==> #[trigger] aiger.inputs@[i] == numbers(words(ls[i + 1]))[0]
    &&& aiger.latches@.len() == clamp(count - h.inputs, h.latches)
    &&& forall|i: int|
        0 <= i < aiger.latches@.len() ==> {
            let ns = numbers(words(ls[h.inputs + i + 1]));
            (#[trigger] aiger.latches@[i]).lit == ns[0] && aiger.latches@[i].next == ns[1] && aiger.latches@[i].reset == (if ns.len() == 3 {
                ns[2]
            } else {
                0
            })
        }
    &&& aiger.outputs@.len() == clamp(count - h.inputs - h.latches, h.outputs)
    &&& forall|i: int|
        0 <= i < aiger.outputs@.len() ==> #[trigger] aiger.outputs@[i] == numbers(words(ls[h.inputs + h.latches + i + 1]))[0]
    &&& aiger.ands@.len() == clamp(count - h.inputs - h.latches - h.outputs, h.ands)
    &&& forall|i: int|
        0 <= i < aiger.ands@.len() ==> {
            let ns = numbers(words(ls[h.inputs + h.latches + h.outputs + i + 1]));
            (#[trigger] aiger.ands@[i]).lhs == ns[0] && aiger.ands@[i].rhs0 == ns[1] && aiger.ands@[i].rhs1 == ns[2]
        }
}

/// The number, at least zero and at most the bound.
pub open spec fn clamp(n: int, bound: nat) -> int {
    if n < 0 {
        0
    } else if n > bound {
        bound as int
    } else {
        n
    }
}

/// What reading a text as ASCII AIGER gives: the first thing that is wrong
/// with it, or its contents.
pub open spec fn reads_as(text: Seq<char>, result: Result<Aiger, ParseError>) -> bool {
    let ls = lines(text);
    match header_of(ls) {
        Err(message) => result matches Err(error) && error.line == 1 && error.message@ == message,
        Ok(h) => match result {
            Err(error) => exists|entry: int| #[trigger] first_failure(ls, h, entry, error),
            Ok(aiger) => {
                let from = 1 + h.total();
                let end = table_end(ls, from as int);
                &&& forall|e: int| 0 <= e < h.total() ==> !#[trigger] bad_entry(ls, h, e)
                &&& aiger.max_var == h.max_var
                &&& entries_ok(aiger, ls, h, h.total() as int)
                &&& aiger.input_names@.len() == aiger.inputs@.len()
                &&& names_ok(aiger.input_names@, ls, from as int, end, 'i')
                &&& aiger.output_names@.len() == aiger.outputs@.len()
                &&& names_ok(aiger.output_names@, ls, from as int, end, 'o')
            },
        },
    }
}

fn fail(line: usize, message: &str) -> (error: ParseError)
    ensures
        error.line == line,
        error.message@ == message@,
{
    let mut text = String::new();
    text.append(message);
    assert(text@ =~= message@);
    ParseError { message: text, line }
}

fn fail_with(line: usize, message: &str, word: &Vec<char>) -> (error: ParseError)
    ensures
        error.line == line,
        error.message@ == message@ + word@,
{
    let mut text = String::new();
    text.append(message);
    push_chars(&mut text, word);
    assert(text@ =~= message@ + word@);
    ParseError { message: text, line }
}

/// The numbers that words stand for, or the first that is none.
fn numbers_of(ws: &Vec<Vec<char>>, start: usize) -> (result: Result<Vec<u64>, usize>)
    requires
        start <= ws@.len(),
    ensures
        match result {
            Ok(ns) => first_invalid(char_lists(ws@).skip(start as int)) is None && ns@ == numbers(char_lists(ws@).skip(start as int)),
            Err(i) => i < ws@.len() && first_invalid(char_lists(ws@).skip(start as int)) == Some(ws@[i as int]@),
        },
{
    let ghost all = char_lists(ws@).skip(start as int);
    let mut ns: Vec<u64> = Vec::new();
    let mut k: usize = start;
    assert(all.take(0) =~= Seq::<Seq<char>>::empty());
    while k < ws.len()
        invariant
            start <= k <= ws@.len(),
            all == char_lists(ws@).skip(start as int),
            ns@.len() == k - start,
            first_invalid(all.take(k - start)) is None,
            forall|i: int| 0 <= i < k - start ==> #[trigger] ns@[i] == number(all[i])->0,
        decreases ws.len() - k,
    {
        proof {
            let part = all.take(k - start + 1);
            assert(part.drop_last() =~= all.take(k - start));
            assert(part.last() == ws@[k as int]@);
        }
        match parse_number(&ws[k]) {
            Some(n) => {
                ns.push(n);
            },
            None => {
                proof {
                    lemma_first_invalid(all, k - start + 1);
                }
                return Err(k);
            },
        }
        k += 1;
    }
    assert(all.take(all.len() as int) =~= all);
    assert(ns@ =~= numbers(all));
    Ok(ns)
}

proof fn lemma_first_invalid(ws: Seq<Seq<char>>, k: int)
    requires
        0 <= k <= ws.len(),
        first_invalid(ws.take(k)) is Some,
    ensures
        first_invalid(ws) == first_invalid(ws.take(k)),
    decreases ws.len(),
{
    if k < ws.len() {
        assert(ws.drop_last().take(k) =~= ws.take(k));
        lemma_first_invalid(ws.drop_last(), k);
    } else {
        assert(ws.take(k) =~= ws);
    }
}

/// The counts of a header.
struct Counts {
    max_var: u64,
    inputs: u64,
    latches: u64,
    outputs: u128,
    ands: u64,
}

impl Counts {
    spec fn header(&self) -> Header {
        Header {
            max_var: self.max_var,
            inputs: self.inputs as nat,
            latches: self.latches as nat,
            outputs: self.outputs as nat,
            ands: self.ands as nat,
        }
    }

    spec fn wf(&self) -> bool {
        self.outputs <= 2 * u64::MAX
    }
}

fn is_word(word: &Vec<char>, text: &str) -> (same: bool)
    ensures
        same == (word@ == text@),
{
    let other = chars_of(text);
    if word.len() != other.len() {
        return false;
    }
    let mut k: usize = 0;
    while k < word.len()
        invariant
            k <= word@.len(),
            word@.len() == other@.len(),
            other@ == text@,
            forall|i: int| 0 <= i < k ==> word@[i] == other@[i],
        decreases word.len() - k,
    {
        if word[k] != other[k] {
            return false;
        }
        k += 1;
    }
    assert(word@ =~= other@);
    true
}

fn parse_header(ls: &Vec<Vec<char>>) -> (result: Result<Counts, ParseError>)
    ensures
        match result {
            Ok(counts) => counts.wf() && header_of(char_lists(ls@)) == Ok::<Header, Seq<char>>(counts.header()),
            Err(error) => error.line == 1 && header_of(char_lists(ls@)) == Err::<Header, Seq<char>>(error.message@),
        },
{
    let ghost all = char_lists(ls@);
    if ls.len() == 0 {
        return Err(fail(1, "empty input"));
    }
    let ws = words_of(&ls[0]);
    assert(all[0] == ls@[0]@);
    let ghost texts = words(all[0]);
    assert(texts == char_lists(ws@));
    if ws.len() == 0 || !is_word(&ws[0], "aag") {
        return Err(fail(1, "expected an ASCII AIGER header starting with 'aag'"));
    }
    let ns = match numbers_of(&ws, 1) {
        Ok(ns) => ns,
        Err(i) => {
            return Err(fail_with(1, "invalid header field ", &ws[i]));
        },
    };
    if ns.len() < 5 {
        return Err(fail(1, "header needs at least the fields M I L O A"));
    }
    if ns.len() > 6 && ns[6] > 0 {
        return Err(fail(1, "invariant constraints are not supported"));
    }
    let bad: u64 = if ns.len() > 5 {
        ns[5]
    } else {
        0
    };
    Ok(Counts { max_var: ns[0], inputs: ns[1], latches: ns[2], outputs: ns[3] as u128 + bad as u128, ands: ns[4] })
}

/// Reads the entries of all sections.
fn parse_entries(ls: &Vec<Vec<char>>, counts: &Counts) -> (result: Result<Aiger, ParseError>)
    requires
        counts.wf(),
        ls@.len() > 0,
    ensures
        match result {
            Err(error) => exists|entry: int| #[trigger] first_failure(char_lists(ls@), counts.header(), entry, error),
            Ok(aiger) => {
                &&& forall|e: int| 0 <= e < counts.header().total() ==> !#[trigger] bad_entry(char_lists(ls@), counts.header(), e)
                &&& counts.header().total() < ls@.len()
                &&& aiger.max_var == counts.max_var
                &&& entries_ok(aiger, char_lists(ls@), counts.header(), counts.header().total() as int)
                &&& aiger.input_names@.len() == 0
                &&& aiger.output_names@.len() == 0
            },
        },
{
    let ghost all = char_lists(ls@);
    let ghost h = counts.header();
    let inputs = counts.inputs as u128;
    let latches = inputs + counts.latches as u128;
    let outputs = latches + counts.outputs;
    let total = outputs + counts.ands as u128;
    let mut aiger = Aiger {
        max_var: counts.max_var,
        inputs: Vec::new(),
        latches: Vec::new(),
        outputs: Vec::new(),
        ands: Vec::new(),
        input_names: Vec::new(),
        output_names: Vec::new(),
    };
    let mut k: usize = 0;
    while (k as u128) < total
        invariant
            k < ls@.len(),
            k <= h.total(),
            all == char_lists(ls@),
            h == counts.header(),
            inputs == h.inputs,
            latches == h.inputs + h.latches,
            outputs == h.inputs + h.latches + h.outputs,
            total == h.total(),
            forall|e: int| 0 <= e < k ==> !#[trigger] bad_entry(all, h, e),
            aiger.max_var == counts.max_var,
            entries_ok(aiger, all, h, k as int),
            aiger.input_names@.len() == 0,
            aiger.output_names@.len() == 0,
        decreases total - k,
    {
        let section = if (k as u128) < inputs {
            Section::Input
        } else if (k as u128) < latches {
            Section::Latch
        } else if (k as u128) < outputs {
            Section::Output
        } else {
            Section::And
        };
        assert(section == h.section(k as int));
        if k >= ls.len() - 1 {
            let error = end_of_file(section);
            assert(bad_entry(all, h, k as int));
            assert(first_failure(all, h, k as int, error));
            let failed: Result<Aiger, ParseError> = Err(error);
            assert(first_failure(char_lists(ls@), counts.header(), k as int, failed->Err_0));
            return failed;
        }
        assert(all[k + 1] == ls@[k + 1]@);
        let ws = words_of(&ls[k + 1]);
        let ghost texts = words(all[k + 1]);
        assert(char_lists(ws@).skip(0) =~= texts);
        let ns = match numbers_of(&ws, 0) {
            Ok(ns) => ns,
            Err(i) => {
                let error = fail_with(k + 2, "invalid literal ", &ws[i]);
                assert(bad_entry(all, h, k as int));
                assert(first_failure(all, h, k as int, error));
                let failed: Result<Aiger, ParseError> = Err(error);
                assert(first_failure(char_lists(ls@), counts.header(), k as int, failed->Err_0));
                return failed;
            },
        };
        let ghost before = aiger;
        match section {
            Section::Input => {
                if ns.len() == 1 && ns[0] % 2 == 0 && ns[0] >= 2 {
                    aiger.inputs.push(ns[0]);
                } else {
                    let error = fail(k + 2, "an input must be a single positive literal");
                    assert(bad_entry(all, h, k as int));
                    assert(first_failure(all, h, k as int, error));
                    let failed: Result<Aiger, ParseError> = Err(error);
                    assert(first_failure(char_lists(ls@), counts.header(), k as int, failed->Err_0));
                    return failed;
                }
            },
            Section::Latch => {
                if ns.len() == 2 && ns[0] % 2 == 0 && ns[0] >= 2 {
                    aiger.latches.push(Latch { lit: ns[0], next: ns[1], reset: 0 });
                } else if ns.len() == 3 && ns[0] % 2 == 0 && ns[0] >= 2 && ns[2] <= 1 {
                    aiger.latches.push(Latch { lit: ns[0], next: ns[1], reset: ns[2] });
                } else {
                    let error = if ns.len() == 3 && ns[2] == ns[0] {
                        fail(k + 2, "uninitialized latches are not supported")
                    } else {
                        fail(k + 2, "a latch needs the fields lit next [reset]")
                    };
                    assert(bad_entry(all, h, k as int));
                    assert(first_failure(all, h, k as int, error));
                    let failed: Result<Aiger, ParseError> = Err(error);
                    assert(first_failure(char_lists(ls@), counts.header(), k as int, failed->Err_0));
                    return failed;
                }
            },
            Section::Output => {
                if ns.len() == 1 {
                    aiger.outputs.push(ns[0]);
                } else {
                    let error = fail(k + 2, "an output must be a single literal");
                    assert(bad_entry(all, h, k as int));
                    assert(first_failure(all, h, k as int, error));
                    let failed: Result<Aiger, ParseError> = Err(error);
                    assert(first_failure(char_lists(ls@), counts.header(), k as int, failed->Err_0));
                    return failed;
                }
            },
            Section::And => {
                if ns.len() == 3 && ns[0] % 2 == 0 && ns[0] >= 2 {
                    aiger.ands.push(And { lhs: ns[0], rhs0: ns[1], rhs1: ns[2] });
                } else {
                    let error = fail(k + 2, "an and gate needs the fields lhs rhs0 rhs1");
                    assert(bad_entry(all, h, k as int));
                    assert(first_failure(all, h, k as int, error));
                    let failed: Result<Aiger, ParseError> = Err(error);
                    assert(first_failure(char_lists(ls@), counts.header(), k as int, failed->Err_0));
                    return failed;
                }
            },
        }
        assert(!bad_entry(all, h, k as int));
        assert(entries_ok(aiger, all, h, k + 1));
        k += 1;
    }
    Ok(aiger)
}

fn end_of_file(section: Section) -> (error: ParseError)
    ensures
        error.line == usize::MAX,
        error.message@ == "unexpected end of file reading "@ + entry_name(section),
{
    let mut text = String::new();
    text.append("unexpected end of file reading ");
    match section {
        Section::Input => {
            text.append("an input");
        },
        Section::Latch => {
            text.append("a latch");
        },
        Section::Output => {
            text.append("an output");
        },
        Section::And => {
            text.append("an and gate");
        },
    }
    assert(text@ =~= "unexpected end of file reading "@ + entry_name(section));
    ParseError { message: text, line: usize::MAX }
}

/// The position and the name that a line of the symbol table gives.
fn parse_symbol(line: &Vec<char>) -> (result: Option<(u64, Vec<char>)>)
    requires
        line@.len() > 0,
    ensures
        forall|position: int|
            #![trigger symbol_at(line@, line@[0], position)]
            0 <= position <= u64::MAX ==> symbol_at(line@, line@[0], position) == (match result {
                Some(found) => if found.0 == position {
                    Some(found.1@)
                } else {
                    None
                },
                None => None,
            }),
{
    let ghost rest = line@.drop_first();
    let mut word: Vec<char> = Vec::new();
    let mut k: usize = 1;
    assert(rest.skip(0) =~= rest);
    while k < line.len() && line[k] != ' '
        invariant
            1 <= k <= line@.len(),
            rest == line@.drop_first(),
            word@ =~= rest.take(k - 1),
            first_space(rest) == (match first_space(rest.skip(k - 1)) {
                Some(n) => Some((n + k - 1) as nat),
                None => None::<nat>,
            }),
        decreases line.len() - k,
    {
        word.push(line[k]);
        assert(rest.skip(k - 1).drop_first() =~= rest.skip(k as int));
        k += 1;
    }
    if k >= line.len() {
        return None;
    }
    assert(rest.skip(k - 1)[0] == ' ');
    assert(first_space(rest) == Some((k - 1) as nat));
    match parse_number(&word) {
        None => None,
        Some(position) => {
            let mut name: Vec<char> = Vec::new();
            let mut j: usize = k + 1;
            while j < line.len()
                invariant
                    k + 1 <= j <= line@.len(),
                    name@ =~= line@.subrange(k + 1, j as int),
                decreases line.len() - j,
            {
                name.push(line[j]);
                j += 1;
            }
            assert(name@ =~= rest.skip(k as int));
            Some((position, name))
        },
    }
}

/// The names that a symbol table gives to positions.
fn parse_names(ls: &Vec<Vec<char>>, from: usize, end: usize, kind: char, count: usize) -> (names: Vec<Option<Vec<char>>>)
    requires
        from <= end <= ls@.len(),
    ensures
        names@.len() == count,
        names_ok(names@, char_lists(ls@), from as int, end as int, kind),
{
    let ghost all = char_lists(ls@);
    let mut names: Vec<Option<Vec<char>>> = Vec::new();
    while names.len() < count
        invariant
            names@.len() <= count,
            forall|i: int| 0 <= i < names@.len() ==> (#[trigger] names@[i]) is None,
        decreases count - names.len(),
    {
        names.push(None);
    }
    let mut k: usize = from;
    while k < end
        invariant
            from <= k <= end <= ls@.len(),
            all == char_lists(ls@),
            names@.len() == count,
            names_ok(names@, all, from as int, k as int, kind),
        decreases end - k,
    {
        let line = &ls[k];
        let ghost before = names@;
        assert(all[k as int] == line@);
        if line.len() > 0 && line[0] == kind {
            match parse_symbol(line) {
                Some(found) => {
                    if found.0 < count as u64 {
                        names.set(found.0 as usize, Some(found.1));
                    }
                    proof {
                        assert forall|i: int| 0 <= i < names@.len() implies held_name(#[trigger] names@[i]) == symbol(
                            all,
                            from as int,
                            k + 1,
                            kind,
                            i,
                        ) by {
                            assert(held_name(before[i]) == symbol(all, from as int, k as int, kind, i));
                            let at = symbol_at(all[k as int], kind, i);
                            assert(at == symbol_at(line@, line@[0], i));
                        }
                    }
                },
                None => {
                    proof {
                        assert forall|i: int| 0 <= i < names@.len() implies held_name(#[trigger] names@[i]) == symbol(
                            all,
                            from as int,
                            k + 1,
                            kind,
                            i,
                        ) by {
                            assert(held_name(before[i]) == symbol(all, from as int, k as int, kind, i));
                            let at = symbol_at(all[k as int], kind, i);
                            assert(at == symbol_at(line@, line@[0], i));
                        }
                    }
                },
            }
        } else {
            proof {
                assert forall|i: int| 0 <= i < names@.len() implies held_name(#[trigger] names@[i]) == symbol(
                    all,
                    from as int,
                    k + 1,
                    kind,
                    i,
                ) by {
                    assert(held_name(before[i]) == symbol(all, from as int, k as int, kind, i));
                }
            }
        }
        k += 1;
    }
    names
}

/// Reads a text as ASCII AIGER. The outputs and the bad signals that the
/// header counts are the outputs of the file.
pub fn parse_aag(input: &str) -> (result: Result<Aiger, ParseError>)
    ensures
        reads_as(input@, result),
        result matches Ok(aiger) ==> {
            let ws = words(lines(input@)[0]);
            let outputs = number(ws[4])->0 as int;
            let bad = if ws.len() > 6 {
                number(ws[6])->0 as int
            } else {
                0
            };
            let first = 1 + number(ws[2])->0 + number(ws[3])->0;
            &&& aiger.outputs@.len() == outputs + bad
            &&& forall|i: int| 0 <= i < outputs + bad ==> #[trigger] aiger.outputs@[i] == number(words(lines(input@)[first + i])[0])->0
        },
{
    let chars = chars_of(input);
    let ls = lines_of(&chars);
    let ghost all = char_lists(ls@);
    let counts = match parse_header(&ls) {
        Ok(counts) => counts,
        Err(error) => {
            return Err(error);
        },
    };
    proof {
        assert(all == lines(input@));
        assert(header_of(all) == Ok::<Header, Seq<char>>(counts.header()));
        assert(ls@.len() == all.len());
    }
    let mut aiger = match parse_entries(&ls, &counts) {
        Ok(aiger) => aiger,
        Err(error) => {
            proof {
                let h = counts.header();
                let entry = choose|entry: int| #[trigger] first_failure(all, h, entry, error);
                assert(first_failure(lines(input@), h, entry, error));
            }
            let failed: Result<Aiger, ParseError> = Err(error);
            proof {
                let h = counts.header();
                assert(header_of(lines(input@)) == Ok::<Header, Seq<char>>(h));
                assert(header_of(lines(input@))->Ok_0 == h);
                let entry = choose|entry: int| #[trigger] first_failure(all, h, entry, failed->Err_0);
                assert(first_failure(lines(input@), header_of(lines(input@))->Ok_0, entry, failed->Err_0));
            }
            return failed;
        },
    };
    let ghost h = counts.header();
    let count = ls.len();
    let total = counts.inputs as u128 + counts.latches as u128 + counts.outputs + counts.ands as u128;
    let from = total as usize + 1;
    let mut end = from;
    assert(table_end(all, from as int) == table_end(all, end as int));
    while end < ls.len() && !(ls[end].len() > 0 && ls[end][0] == 'c')
        invariant
            from <= end <= ls@.len(),
            all == char_lists(ls@),
            table_end(all, from as int) == table_end(all, end as int),
        decreases ls.len() - end,
    {
        assert(all[end as int] == ls@[end as int]@);
        end += 1;
    }
    proof {
        if end < ls@.len() {
            assert(all[end as int] == ls@[end as int]@);
        }
        assert(table_end(all, from as int) == end);
    }
    aiger.input_names = parse_names(&ls, from, end, 'i', aiger.inputs.len());
    aiger.output_names = parse_names(&ls, from, end, 'o', aiger.outputs.len());
    proof {
        let ws = words(all[0]);
        let ns = numbers(ws.skip(1));
        assert(ns[1] == number(ws[2])->0 && ns[2] == number(ws[3])->0 && ns[3] == number(ws[4])->0);
        if ws.len() > 6 {
            assert(ns[5] == number(ws[6])->0);
        }
        assert forall|i: int| 0 <= i < aiger.outputs@.len() implies #[trigger] aiger.outputs@[i] == number(
            words(all[1 + h.inputs + h.latches + i])[0],
        )->0 by {
            let e = h.inputs + h.latches + i;
            assert(!bad_entry(all, h, e));
            assert(aiger.outputs@[i] == numbers(words(all[h.inputs + h.latches + i + 1]))[0]);
        }
    }
    Ok(aiger)
}

} // verus!
