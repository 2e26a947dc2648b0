//! What the command line and the first bytes of an input decide.
use crate::incdet::Options;
use crate::qcnf::QCNF;
use crate::semantics::Prefix;
use vstd::prelude::*;
use vstd::string::*;

verus! {

/// What is wrong with the arguments of a tool that reads one input.
#[derive(Debug)]
pub enum ArgError {
    ExpectedFile,
    FileDoesNotExist { path: String },
    NotAFile { path: String },
    CannotReadFile { path: String, err: String },
    CannotReadStdIn { err: String },
}

impl ArgError {
    /// The words of the error.
    pub open spec fn text(&self) -> Seq<char> {
        match self {
            ArgError::ExpectedFile => "Expect single argument containing the path to a QDIMACS file"@,
            ArgError::FileDoesNotExist { path } => "Path "@ + path@ + " does not exist"@,
            ArgError::NotAFile { path } => path@ + " is not a file"@,
            ArgError::CannotReadFile { path, err } => "Cannot read file "@ + path@ + ": "@ + err@,
            ArgError::CannotReadStdIn { err } => "Cannot read from stdin: "@ + err@,
        }
    }

    /// The words of the error.
    pub fn message(&self) -> (text: String)
        ensures
            text@ == self.text(),
    {
        let mut text = String::new();
        match self {
            ArgError::ExpectedFile => {
                text.append("Expect single argument containing the path to a QDIMACS file");
            },
            ArgError::FileDoesNotExist { path } => {
                text.append("Path ");
                text.append(path.as_str());
                text.append(" does not exist");
            },
            ArgError::NotAFile { path } => {
                text.append(path.as_str());
                text.append(" is not a file");
            },
            ArgError::CannotReadFile { path, err } => {
                text.append("Cannot read file ");
                text.append(path.as_str());
                text.append(": ");
                text.append(err.as_str());
            },
            ArgError::CannotReadStdIn { err } => {
                text.append("Cannot read from stdin: ");
                text.append(err.as_str());
            },
        }
        assert(text@ =~= self.text());
        text
    }
}

/// Where an input comes from.
#[derive(Debug, Clone, Copy, PartialEq, Eq, Structural)]
pub enum Source {
    /// no argument was given
    StdIn,
    /// the single argument is a path
    File,
}

/// Where the input comes from, for a number of arguments that counts the
/// name of the program.
pub fn source_of(arguments: usize) -> (source: Result<Source, ArgError>)
    ensures
        arguments == 1 ==> source == Ok::<Source, ArgError>(Source::StdIn),
        arguments == 2 ==> source == Ok::<Source, ArgError>(Source::File),
        arguments != 1 && arguments != 2 ==> source == Err::<Source, ArgError>(ArgError::ExpectedFile),
{
    if arguments == 1 {
        Ok(Source::StdIn)
    } else if arguments == 2 {
        Ok(Source::File)
    } else {
        Err(ArgError::ExpectedFile)
    }
}

/// Whether a path can be read, from what the file system says of it.
pub fn check_path(path: String, exists: bool, is_file: bool) -> (result: Result<String, ArgError>)
    ensures
        !exists ==> result == Err::<String, ArgError>(ArgError::FileDoesNotExist { path }),
        exists && !is_file ==> result == Err::<String, ArgError>(ArgError::NotAFile { path }),
        exists && is_file ==> result == Ok::<String, ArgError>(path),
{
    if !exists {
        return Err(ArgError::FileDoesNotExist { path });
    }
    if !is_file {
        return Err(ArgError::NotAFile { path });
    }
    Ok(path)
}

/// The formats of inputs.
#[derive(Debug, Clone, Copy, PartialEq, Eq, Structural)]
pub enum InputKind {
    SmtLib,
    Qcir,
    Aiger,
    Qdimacs,
}

/// The byte is ASCII white space.
pub open spec fn ascii_blank(b: u8) -> bool {
    b == 32 || b == 9 || b == 10 || b == 12 || b == 13
}

/// The first byte that is not white space.
pub open spec fn first_byte(bytes: Seq<u8>) -> Option<u8>
    decreases bytes.len(),
{
    if bytes.len() == 0 {
        None
    } else if ascii_blank(bytes[0]) {
        first_byte(bytes.drop_first())
    } else {
        Some(bytes[0])
    }
}

pub open spec fn begins_with(bytes: Seq<u8>, start: Seq<u8>) -> bool {
    bytes.len() >= start.len() && bytes.take(start.len() as int) == start
}

/// The format of an input: a script starts with a parenthesis or a
/// comment, circuits with the words `#QCIR` and `aag `.
pub open spec fn kind_of(bytes: Seq<u8>) -> InputKind {
    if first_byte(bytes) == Some(40u8) || first_byte(bytes) == Some(59u8) {
        InputKind::SmtLib
    } else if begins_with(bytes, seq![35u8, 81, 67, 73, 82]) {
        InputKind::Qcir
    } else if begins_with(bytes, seq![97u8, 97, 103, 32]) {
        InputKind::Aiger
    } else {
        InputKind::Qdimacs
    }
}

/// White space and a parenthesis or a semicolon begin a script, whatever
/// follows; `#QCIR` and `aag ` begin circuits; a comment or a problem line
/// begins a formula.
pub proof fn law_inputs_are_told_apart(blanks: Seq<u8>, rest: Seq<u8>)
    requires
        forall|i: int| 0 <= i < blanks.len() ==> ascii_blank(#[trigger] blanks[i]),
    ensures
        kind_of(blanks + seq![40u8] + rest) == InputKind::SmtLib,
        kind_of(blanks + seq![59u8] + rest) == InputKind::SmtLib,
        kind_of(seq![35u8, 81, 67, 73, 82] + rest) == InputKind::Qcir,
        kind_of(seq![97u8, 97, 103, 32] + rest) == InputKind::Aiger,
        kind_of(seq![112u8] + rest) == InputKind::Qdimacs,
        kind_of(seq![99u8] + rest) == InputKind::Qdimacs,
{
    lemma_first_byte(blanks, 40, rest);
    lemma_first_byte(blanks, 59, rest);
    let qcir = seq![35u8, 81, 67, 73, 82];
    let aiger = seq![97u8, 97, 103, 32];
    assert((qcir + rest)[0] == 35);
    assert((qcir + rest).take(5) =~= qcir);
    assert((aiger + rest)[0] == 97);
    assert((aiger + rest).take(4) =~= aiger);
    assert(begins_with(aiger + rest, qcir) ==> (aiger + rest).take(5)[0] == 35);
    let (p, c) = (seq![112u8] + rest, seq![99u8] + rest);
    assert(p[0] == 112 && c[0] == 99);
    assert(begins_with(p, qcir) ==> p.take(5)[0] == 35);
    assert(begins_with(p, aiger) ==> p.take(4)[0] == 97);
    assert(begins_with(c, qcir) ==> c.take(5)[0] == 35);
    assert(begins_with(c, aiger) ==> c.take(4)[0] == 97);
}

proof fn lemma_first_byte(blanks: Seq<u8>, b: u8, rest: Seq<u8>)
    requires
        forall|i: int| 0 <= i < blanks.len() ==> ascii_blank(#[trigger] blanks[i]),
        !ascii_blank(b),
    ensures
        first_byte(blanks + seq![b] + rest) == Some(b),
    decreases blanks.len(),
{
    let s = blanks + seq![b] + rest;
    if blanks.len() == 0 {
        assert(s[0] == b);
    } else {
        let few = blanks.drop_first();
        assert forall|i: int| 0 <= i < few.len() implies ascii_blank(#[trigger] few[i]) by {
            assert(few[i] == blanks[i + 1]);
        }
        lemma_first_byte(few, b, rest);
        assert(ascii_blank(blanks[0]));
        assert(s[0] == blanks[0]);
        assert(s.drop_first() =~= few + seq![b] + rest);
    }
}

fn starts_with(bytes: &Vec<u8>, start: &Vec<u8>) -> (yes: bool)
    ensures
        yes == begins_with(bytes@, start@),
{
    if bytes.len() < start.len() {
        return false;
    }
    let mut k: usize = 0;
    while k < start.len()
        invariant
            k <= start.len() <= bytes.len(),
            forall|i: int| 0 <= i < k ==> bytes@[i] == start@[i],
        decreases start.len() - k,
    {
        if bytes[k] != start[k] {
            assert(bytes@.take(start@.len() as int)[k as int] != start@[k as int]);
            return false;
        }
        k += 1;
    }
    assert(bytes@.take(start@.len() as int) =~= start@);
    true
}

/// The format of an input.
pub fn input_kind(bytes: &Vec<u8>) -> (kind: InputKind)
    ensures
        kind == kind_of(bytes@),
{
    let mut k: usize = 0;
    assert(bytes@.skip(0) =~= bytes@);
    while k < bytes.len() && (bytes[k] == 32 || bytes[k] == 9 || bytes[k] == 10 || bytes[k] == 12 || bytes[k] == 13)
        invariant
            k <= bytes.len(),
            first_byte(bytes@) == first_byte(bytes@.skip(k as int)),
        decreases bytes.len() - k,
    {
        assert(bytes@.skip(k as int).drop_first() =~= bytes@.skip(k as int + 1));
        k += 1;
    }
    if k < bytes.len() && (bytes[k] == 40 || bytes[k] == 59) {
        return InputKind::SmtLib;
    }
    let qcir: Vec<u8> = vec![35, 81, 67, 73, 82];
    let aiger: Vec<u8> = vec![97, 97, 103, 32];
    proof {
        assert(qcir@ =~= seq![35u8, 81, 67, 73, 82]);
        assert(aiger@ =~= seq![97u8, 97, 103, 32]);
    }
    if starts_with(bytes, &qcir) {
        InputKind::Qcir
    } else if starts_with(bytes, &aiger) {
        InputKind::Aiger
    } else {
        InputKind::Qdimacs
    }
}

/// The switches of the solver's command line.
#[derive(Debug, Clone, Copy)]
pub struct Flags {
    pub no_constant_propagation: bool,
    pub no_incremental_conflict_check: bool,
    pub no_clause_deletion: bool,
    pub no_cegar: bool,
    pub no_case_splits: bool,
    pub case_split_threshold: u32,
    pub restarts: bool,
}

impl Flags {
    /// The options that the switches ask for.
    pub fn options(&self) -> (options: Options)
        ensures
            options.constant_propagation == !self.no_constant_propagation,
            options.incremental_conflict_check == !self.no_incremental_conflict_check,
            options.clause_deletion == !self.no_clause_deletion,
            options.cegar == !self.no_cegar,
            options.case_splits == !self.no_case_splits,
            options.case_split_threshold == self.case_split_threshold,
            options.restarts == self.restarts,
    {
        Options {
            constant_propagation: !self.no_constant_propagation,
            incremental_conflict_check: !self.no_incremental_conflict_check,
            clause_deletion: !self.no_clause_deletion,
            cegar: !self.no_cegar,
            case_splits: !self.no_case_splits,
            case_split_threshold: self.case_split_threshold,
            restarts: self.restarts,
        }
    }
}

/// The number of blocks that bind variables.
pub open spec fn filled_blocks(p: Prefix) -> nat
    decreases p.len(),
{
    if p.len() == 0 {
        0
    } else {
        filled_blocks(p.drop_last()) + if p.last().1.len() > 0 { 1nat } else { 0nat }
    }
}

/// The number of blocks that bind variables: beyond two, a formula needs
/// the alternation loop.
pub fn block_count(qcnf: &QCNF) -> (count: usize)
    ensures
        count == filled_blocks(qcnf.blocks()),
{
    let ghost p = qcnf.blocks();
    let mut count: usize = 0;
    let mut k: usize = 0;
    assert(p.take(0) =~= Seq::empty());
    while k < qcnf.prefix.len()
        invariant
            k <= qcnf.prefix.len(),
            p == qcnf.blocks(),
            count == filled_blocks(p.take(k as int)),
            count <= k,
        decreases qcnf.prefix.len() - k,
    {
        proof {
            assert(p.take(k as int + 1).drop_last() =~= p.take(k as int));
            assert(p.take(k as int + 1).last() == p[k as int]);
        }
        if qcnf.prefix[k].1.len() > 0 {
            count += 1;
        }
        k += 1;
    }
    assert(p.take(p.len() as int) =~= p);
    count
}

} // verus!
