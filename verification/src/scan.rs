//! Reading text: characters, lines, words and numbers.
use vstd::prelude::*;
use vstd::std_specs::iter::IteratorSpec;
use vstd::string::*;

verus! {

broadcast use vstd::string::group_string_axioms;

/// `String::push` appends the given character to the end of the string.
pub assume_specification[ String::push ](s: &mut String, c: char)
    ensures
        final(s)@ == old(s)@.push(c),
;

/// The characters of a text.
pub fn chars_of(text: &str) -> (chars: Vec<char>)
    ensures
        chars@ == text@,
{
    let mut chars: Vec<char> = Vec::new();
    let mut iter = text.chars();
    loop
        invariant
            text@ == chars@ + iter.remaining(),
            iter.decrease() is Some,
            iter.obeys_prophetic_iter_laws(),
        decreases iter.decrease()->0,
    {
        let ghost rest = iter.remaining();
        match iter.next() {
            Some(c) => {
                chars.push(c);
                assert(text@ =~= chars@ + iter.remaining());
            },
            None => {
                assert(rest.len() == 0);
                assert(text@ =~= chars@);
                return chars;
            },
        }
    }
}

/// Appends characters to a text.
pub fn push_chars(out: &mut String, chars: &Vec<char>)
    ensures
        final(out)@ == old(out)@ + chars@,
{
    let ghost start = out@;
    let mut k: usize = 0;
    assert(start + chars@.take(0) =~= start);
    while k < chars.len()
        invariant
            k <= chars@.len(),
            out@ == start + chars@.take(k as int),
        decreases chars.len() - k,
    {
        out.push(chars[k]);
        assert(start + chars@.take(k as int + 1) =~= (start + chars@.take(k as int)).push(chars@[k as int]));
        k += 1;
    }
    assert(chars@.take(chars@.len() as int) =~= chars@);
}

/// The pieces of a text between line feeds.
pub open spec fn pieces(s: Seq<char>) -> Seq<Seq<char>>
    decreases s.len(),
{
    if s.len() == 0 {
        seq![Seq::empty()]
    } else {
        let before = pieces(s.drop_last());
        if s.last() == '\n' {
            before.push(Seq::empty())
        } else {
            before.drop_last().push(before.last().push(s.last()))
        }
    }
}

/// A line without the carriage return at its end.
pub open spec fn stripped(line: Seq<char>) -> Seq<char> {
    if line.len() > 0 && line.last() == '\r' {
        line.drop_last()
    } else {
        line
    }
}

/// The lines of a text: each ends with a line feed, or a carriage return
/// and a line feed; the last one may end with the text.
pub open spec fn lines(s: Seq<char>) -> Seq<Seq<char>> {
    let all = pieces(s);
    let ended = Seq::new((all.len() - 1) as nat, |i: int| stripped(all[i]));
    if all.last().len() > 0 {
        ended.push(all.last())
    } else {
        ended
    }
}

/// The texts of lists of characters.
pub open spec fn char_lists(lists: Seq<Vec<char>>) -> Seq<Seq<char>> {
    Seq::new(lists.len(), |i: int| lists[i]@)
}

proof fn lemma_pieces(s: Seq<char>)
    ensures
        pieces(s).len() >= 1,
    decreases s.len(),
{
    if s.len() > 0 {
        lemma_pieces(s.drop_last());
    }
}

/// The lines of a text.
pub fn lines_of(chars: &Vec<char>) -> (result: Vec<Vec<char>>)
    ensures
        char_lists(result@) == lines(chars@),
{
    let ghost s = chars@;
    let mut result: Vec<Vec<char>> = Vec::new();
    let mut current: Vec<char> = Vec::new();
    let mut k: usize = 0;
    assert(s.take(0) =~= Seq::<char>::empty());
    while k < chars.len()
        invariant
            k <= chars@.len(),
            s == chars@,
            pieces(s.take(k as int)).len() == result@.len() + 1,
            pieces(s.take(k as int)).last() == current@,
            forall|i: int| 0 <= i < result@.len() ==> (#[trigger] result@[i])@ == stripped(pieces(s.take(k as int))[i]),
        decreases chars.len() - k,
    {
        let c = chars[k];
        let ghost before = pieces(s.take(k as int));
        let ghost held = result@;
        proof {
            assert(s.take(k as int + 1).drop_last() =~= s.take(k as int));
            assert(s.take(k as int + 1).last() == c);
        }
        if c == '\n' {
            let ghost line = current@;
            if current.len() > 0 && current[current.len() - 1] == '\r' {
                let dropped = current.pop();
            }
            assert(current@ =~= stripped(line));
            result.push(current);
            current = Vec::new();
            assert(current@ =~= Seq::<char>::empty());
            proof {
                let now = pieces(s.take(k as int + 1));
                assert(now == before.push(Seq::empty()));
                assert forall|i: int| 0 <= i < result@.len() implies (#[trigger] result@[i])@ == stripped(now[i]) by {
                    if i < held.len() {
                        assert(result@[i] == held[i]);
                    }
                }
            }
        } else {
            current.push(c);
            proof {
                let now = pieces(s.take(k as int + 1));
                assert forall|i: int| 0 <= i < result@.len() implies (#[trigger] result@[i])@ == stripped(now[i]) by {
                    assert(now[i] == before[i]);
                }
            }
        }
        k += 1;
    }
    assert(s.take(s.len() as int) =~= s);
    let ghost ended = result@;
    if current.len() > 0 {
        result.push(current);
    }
    assert(char_lists(result@) =~= lines(s));
    result
}

/// The character is ASCII white space.
pub open spec fn blank(c: char) -> bool {
    c == ' ' || c == '\t' || c == '\n' || c == '\r' || c == '\u{c}'
}

fn is_blank(c: char) -> (yes: bool)
    ensures
        yes == blank(c),
{
    c == ' ' || c == '\t' || c == '\n' || c == '\r' || c == '\u{c}'
}

/// The words of a line, separated by ASCII white space.
pub open spec fn words(s: Seq<char>) -> Seq<Seq<char>>
    decreases s.len(),
{
    if s.len() == 0 {
        Seq::empty()
    } else {
        let before = words(s.drop_last());
        if blank(s.last()) {
            before
        } else if s.len() == 1 || blank(s[s.len() - 2]) {
            before.push(seq![s.last()])
        } else {
            before.drop_last().push(before.last().push(s.last()))
        }
    }
}

proof fn lemma_words(s: Seq<char>)
    ensures
        s.len() > 0 && !blank(s.last()) ==> words(s).len() > 0,
    decreases s.len(),
{
    if s.len() > 0 {
        lemma_words(s.drop_last());
    }
}

/// The words of a line.
pub fn words_of(line: &Vec<char>) -> (result: Vec<Vec<char>>)
    ensures
        char_lists(result@) == words(line@),
{
    let ghost s = line@;
    let mut result: Vec<Vec<char>> = Vec::new();
    let mut open = false;
    let mut k: usize = 0;
    assert(s.take(0) =~= Seq::<char>::empty());
    assert(char_lists(result@) =~= words(s.take(0)));
    while k < line.len()
        invariant
            k <= line@.len(),
            s == line@,
            open == (k > 0 && !blank(s[k - 1])),
            open ==> result@.len() > 0,
            char_lists(result@) == words(s.take(k as int)),
        decreases line.len() - k,
    {
        let c = line[k];
        let ghost before = result@;
        proof {
            assert(s.take(k as int + 1).drop_last() =~= s.take(k as int));
            assert(s.take(k as int + 1).last() == c);
            lemma_words(s.take(k as int + 1));
        }
        if is_blank(c) {
            open = false;
        } else if open {
            let last = result.len() - 1;
            result[last].push(c);
            proof {
                let w = words(s.take(k as int));
                assert(result@[last as int]@ =~= before[last as int]@.push(c));
                assert(char_lists(before)[last as int] == w.last());
                assert(char_lists(result@) =~= w.drop_last().push(w.last().push(c)));
            }
        } else {
            let mut word: Vec<char> = Vec::new();
            word.push(c);
            assert(word@ =~= seq![c]);
            result.push(word);
            assert(char_lists(result@) =~= char_lists(before).push(seq![c]));
            open = true;
        }
        k += 1;
    }
    assert(s.take(s.len() as int) =~= s);
    result
}

/// The value of a decimal digit.
pub open spec fn digit_value(c: char) -> Option<nat> {
    if '0' <= c <= '9' {
        Some((c as u32 - '0' as u32) as nat)
    } else {
        None
    }
}

/// The number that decimal digits stand for; `None` if a character is no
/// digit.
pub open spec fn digits_value(s: Seq<char>) -> Option<nat>
    decreases s.len(),
{
    if s.len() == 0 {
        Some(0)
    } else {
        match (digits_value(s.drop_last()), digit_value(s.last())) {
            (Some(before), Some(d)) => Some(10 * before + d),
            _ => None,
        }
    }
}

/// The number a word stands for: decimal digits, with or without a plus
/// sign, of a number below 2^64.
pub open spec fn number(word: Seq<char>) -> Option<u64> {
    let digits = if word.len() > 0 && word[0] == '+' {
        word.drop_first()
    } else {
        word
    };
    match digits_value(digits) {
        Some(value) => if digits.len() > 0 && value <= u64::MAX {
            Some(value as u64)
        } else {
            None
        },
        None => None,
    }
}

proof fn lemma_digits_prefix(s: Seq<char>, k: int)
    requires
        0 <= k <= s.len(),
    ensures
        digits_value(s) is Some ==> digits_value(s.take(k)) is Some && digits_value(s.take(k))->0 <= digits_value(s)->0,
    decreases s.len(),
{
    if k < s.len() {
        lemma_digits_prefix(s.drop_last(), k);
        assert(s.drop_last().take(k) =~= s.take(k));
    } else {
        assert(s.take(k) =~= s);
    }
}

/// Reads a number.
pub fn parse_number(word: &Vec<char>) -> (result: Option<u64>)
    ensures
        result == number(word@),
{
    let start: usize = if word.len() > 0 && word[0] == '+' {
        1
    } else {
        0
    };
    let ghost digits = word@.skip(start as int);
    proof {
        if start == 1 {
            assert(digits =~= word@.drop_first());
        } else {
            assert(digits =~= word@);
        }
    }
    if start >= word.len() {
        return None;
    }
    let mut value: u64 = 0;
    let mut k: usize = start;
    assert(digits.take(0) =~= Seq::<char>::empty());
    while k < word.len()
        invariant
            start <= k <= word@.len(),
            start <= 1,
            digits == word@.skip(start as int),
            digits.len() > 0,
            number(word@) == (match digits_value(digits) {
                Some(value) => if digits.len() > 0 && value <= u64::MAX {
                    Some(value as u64)
                } else {
                    None::<u64>
                },
                None => None::<u64>,
            }),
            digits_value(digits.take(k - start)) == Some(value as nat),
        decreases word.len() - k,
    {
        let c = word[k];
        proof {
            let part = digits.take(k - start + 1);
            assert(part.drop_last() =~= digits.take(k - start));
            assert(part.last() == c);
            lemma_digits_prefix(digits, k - start + 1);
        }
        if c < '0' || c > '9' {
            return None;
        }
        let d = c as u64 - '0' as u64;
        if value > (u64::MAX - d) / 10 {
            return None;
        }
        value = 10 * value + d;
        k += 1;
    }
    assert(digits.take(digits.len() as int) =~= digits);
    Some(value)
}

/// The character is white space.
pub open spec fn white(c: char) -> bool {
    ||| '\u{9}' <= c <= '\u{d}'
    ||| c == ' ' || c == '\u{85}' || c == '\u{a0}' || c == '\u{1680}'
    ||| '\u{2000}' <= c <= '\u{200a}'
    ||| c == '\u{2028}' || c == '\u{2029}' || c == '\u{202f}' || c == '\u{205f}' || c == '\u{3000}'
}

fn is_white(c: char) -> (yes: bool)
    ensures
        yes == white(c),
{
    ('\u{9}' <= c && c <= '\u{d}') || c == ' ' || c == '\u{85}' || c == '\u{a0}' || c == '\u{1680}' || ('\u{2000}' <= c && c <= '\u{200a}')
        || c == '\u{2028}' || c == '\u{2029}' || c == '\u{202f}' || c == '\u{205f}' || c == '\u{3000}'
}

/// A text without white space at its start.
pub open spec fn trimmed_start(s: Seq<char>) -> Seq<char>
    decreases s.len(),
{
    if s.len() > 0 && white(s[0]) {
        trimmed_start(s.drop_first())
    } else {
        s
    }
}

/// A text without white space at its end.
pub open spec fn trimmed_end(s: Seq<char>) -> Seq<char>
    decreases s.len(),
{
    if s.len() > 0 && white(s.last()) {
        trimmed_end(s.drop_last())
    } else {
        s
    }
}

/// A text without white space around it.
pub open spec fn trimmed(s: Seq<char>) -> Seq<char> {
    trimmed_end(trimmed_start(s))
}

/// A part of a text.
pub fn part(chars: &Vec<char>, from: usize, to: usize) -> (result: Vec<char>)
    requires
        from <= to <= chars@.len(),
    ensures
        result@ == chars@.subrange(from as int, to as int),
{
    let mut result: Vec<char> = Vec::new();
    let mut k: usize = from;
    while k < to
        invariant
            from <= k <= to <= chars@.len(),
            result@ == chars@.subrange(from as int, k as int),
        decreases to - k,
    {
        result.push(chars[k]);
        k += 1;
        assert(result@ =~= chars@.subrange(from as int, k as int));
    }
    result
}

/// A text without white space around it.
pub fn trim(chars: &Vec<char>) -> (result: Vec<char>)
    ensures
        result@ == trimmed(chars@),
{
    let ghost s = chars@;
    let mut from: usize = 0;
    assert(s.skip(0) =~= s);
    while from < chars.len() && is_white(chars[from])
        invariant
            from <= s.len(),
            s == chars@,
            trimmed_start(s.skip(from as int)) == trimmed_start(s),
        decreases chars.len() - from,
    {
        assert(s.skip(from as int).drop_first() =~= s.skip(from as int + 1));
        from += 1;
    }
    let mut to: usize = chars.len();
    assert(s.subrange(from as int, to as int) =~= s.skip(from as int));
    while to > from && is_white(chars[to - 1])
        invariant
            from <= to <= s.len(),
            s == chars@,
            trimmed_end(s.subrange(from as int, to as int)) == trimmed(s),
        decreases to,
    {
        assert(s.subrange(from as int, to as int).drop_last() =~= s.subrange(from as int, to - 1));
        to -= 1;
    }
    part(chars, from, to)
}

/// The first position of a character.
pub open spec fn position(s: Seq<char>, c: char) -> Option<nat>
    decreases s.len(),
{
    if s.len() == 0 {
        None
    } else if s[0] == c {
        Some(0)
    } else {
        match position(s.drop_first(), c) {
            Some(k) => Some(k + 1),
            None => None,
        }
    }
}

/// The first position of a character.
pub fn find(chars: &Vec<char>, c: char) -> (result: Option<usize>)
    ensures
        match result {
            Some(k) => position(chars@, c) == Some(k as nat) && k < chars@.len(),
            None => position(chars@, c) is None,
        },
{
    let ghost s = chars@;
    let mut k: usize = 0;
    assert(s.skip(0) =~= s);
    while k < chars.len()
        invariant
            k <= s.len(),
            s == chars@,
            position(s, c) == (match position(s.skip(k as int), c) {
                Some(j) => Some(j + k as nat),
                None => None,
            }),
        decreases chars.len() - k,
    {
        if chars[k] == c {
            return Some(k);
        }
        assert(s.skip(k as int).drop_first() =~= s.skip(k as int + 1));
        k += 1;
    }
    None
}

/// The pieces of a text between separators.
pub open spec fn split(s: Seq<char>, separator: char) -> Seq<Seq<char>>
    decreases s.len(),
{
    if s.len() == 0 {
        seq![Seq::empty()]
    } else {
        let before = split(s.drop_last(), separator);
        if s.last() == separator {
            before.push(Seq::empty())
        } else {
            before.drop_last().push(before.last().push(s.last()))
        }
    }
}

proof fn lemma_split(s: Seq<char>, separator: char)
    ensures
        split(s, separator).len() >= 1,
    decreases s.len(),
{
    if s.len() > 0 {
        lemma_split(s.drop_last(), separator);
    }
}

/// The pieces of a text between separators.
pub fn split_of(chars: &Vec<char>, separator: char) -> (result: Vec<Vec<char>>)
    ensures
        char_lists(result@) == split(chars@, separator),
{
    let ghost s = chars@;
    let mut result: Vec<Vec<char>> = Vec::new();
    let mut current: Vec<char> = Vec::new();
    let mut k: usize = 0;
    proof {
        assert(s.take(0) =~= Seq::<char>::empty());
        assert(char_lists(result@).push(current@) =~= split(s.take(0), separator));
    }
    while k < chars.len()
        invariant
            k <= chars@.len(),
            s == chars@,
            char_lists(result@).push(current@) == split(s.take(k as int), separator),
        decreases chars.len() - k,
    {
        let c = chars[k];
        let ghost before = char_lists(result@);
        let ghost held = current@;
        proof {
            assert(s.take(k as int + 1).drop_last() =~= s.take(k as int));
            assert(s.take(k as int + 1).last() == c);
        }
        if c == separator {
            result.push(current);
            current = Vec::new();
            assert(char_lists(result@) =~= before.push(held));
            assert(current@ =~= Seq::<char>::empty());
        } else {
            current.push(c);
            assert(before.push(held).drop_last() =~= before);
        }
        k += 1;
        assert(char_lists(result@).push(current@) =~= split(s.take(k as int), separator));
    }
    assert(s.take(s.len() as int) =~= s);
    let ghost ended = char_lists(result@);
    result.push(current);
    assert(char_lists(result@) =~= ended.push(current@));
    result
}

/// Whether two texts are equal.
pub fn same_text(left: &Vec<char>, right: &Vec<char>) -> (same: bool)
    ensures
        same == (left@ == right@),
{
    if left.len() != right.len() {
        return false;
    }
    let mut k: usize = 0;
    while k < left.len()
        invariant
            k <= left.len(),
            left.len() == right.len(),
            forall|i: int| 0 <= i < k ==> left@[i] == right@[i],
        decreases left.len() - k,
    {
        if left[k] != right[k] {
            return false;
        }
        k += 1;
    }
    assert(left@ =~= right@);
    true
}

} // verus!
