//! Building AIGER safety specifications.
use crate::text::{decimal, push_decimal};
use vstd::prelude::*;
use vstd::string::*;

verus! {

/// The most variables of a specification.
pub const BUILD_LIMIT: usize = 1_000_000_000;

/// An ASCII AIGER safety specification under construction: inputs and
/// latch count are fixed up front (AIGER numbers inputs, then latches, then
/// gates), gates are allocated on demand with constant folding, and latch
/// next-state functions are connected once their gates exist.
pub struct Aig {
    /// input symbol names (the `controllable_` prefix marks existentials)
    pub input_names: Vec<String>,
    /// `(next, reset)` per latch
    pub nexts: Vec<(u64, u64)>,
    pub ands: Vec<(u64, u64, u64)>,
    pub outputs: Vec<u64>,
}

/// Values of the inputs and the latches.
pub ghost struct Point {
    pub inputs: Seq<bool>,
    pub state: Seq<bool>,
}

impl Aig {
    /// The number of inputs and latches.
    pub open spec fn leaves(&self) -> int {
        (self.input_names@.len() + self.nexts@.len()) as int
    }

    /// The literal is a constant or on a variable that exists.
    pub open spec fn knows(&self, lit: u64) -> bool {
        lit / 2 <= self.leaves() + self.ands@.len()
    }

    /// Gates are numbered in order and read what was there before.
    pub open spec fn wf(&self) -> bool {
        &&& self.leaves() + self.ands@.len() < BUILD_LIMIT
        &&& forall|k: int|
            0 <= k < self.ands@.len() ==> {
                let gate = #[trigger] self.ands@[k];
                gate.0 == 2 * (self.leaves() + k + 1) && gate.1 / 2 <= self.leaves() + k && gate.2 / 2 <= self.leaves() + k
            }
    }

    /// The value of a literal.
    pub open spec fn value(&self, lit: u64, e: Point) -> bool
        decreases lit / 2,
    {
        let var = lit as int / 2;
        let inputs = self.input_names@.len() as int;
        let plain = if var == 0 {
            false
        } else if var <= inputs {
            e.inputs[var - 1]
        } else if var <= self.leaves() {
            e.state[var - 1 - inputs]
        } else {
            let gate = self.ands@[var - 1 - self.leaves()];
            gate.1 / 2 < var && gate.2 / 2 < var && self.value(gate.1, e) && self.value(gate.2, e)
        };
        plain != (lit % 2 == 1)
    }

    /// The specification has more gates and nothing else.
    pub open spec fn grows(&self, before: &Aig) -> bool {
        &&& self.input_names@ == before.input_names@
        &&& self.nexts@ == before.nexts@
        &&& self.outputs@ == before.outputs@
        &&& before.ands@.len() <= self.ands@.len()
        &&& self.ands@.take(before.ands@.len() as int) == before.ands@
    }

    /// Literals keep their values when gates are added.
    pub proof fn law_gates_keep_values(&self, before: &Aig, lit: u64, e: Point)
        requires
            before.wf(),
            before.knows(lit),
            self.ands@.len() >= before.ands@.len(),
            self.ands@.take(before.ands@.len() as int) == before.ands@,
            self.input_names@ == before.input_names@,
            self.nexts@.len() == before.nexts@.len(),
        ensures
            self.value(lit, e) == before.value(lit, e),
        decreases lit / 2,
    {
        let var = lit as int / 2;
        if var > self.leaves() {
            let k = var - 1 - self.leaves();
            assert(self.ands@.take(before.ands@.len() as int)[k] == before.ands@[k]);
            let gate = before.ands@[k];
            self.law_gates_keep_values(before, gate.1, e);
            self.law_gates_keep_values(before, gate.2, e);
        }
    }

    /// The negation of a literal.
    pub open spec fn spec_not(lit: u64) -> u64 {
        if lit % 2 == 0 {
            (lit + 1) as u64
        } else {
            (lit - 1) as u64
        }
    }

    /// A literal and its negation have opposite values.
    pub proof fn lemma_not(&self, lit: u64, e: Point)
        requires
            lit < u64::MAX,
        ensures
            self.value(Aig::spec_not(lit), e) == !self.value(lit, e),
            Aig::spec_not(lit) / 2 == lit / 2,
    {
    }

    /// Inputs with the given names and latches that stay low.
    pub fn new(input_names: Vec<String>, latches: usize) -> (aig: Aig)
        requires
            input_names@.len() + latches < BUILD_LIMIT,
        ensures
            aig.wf(),
            aig.input_names@ == input_names@,
            aig.nexts@ == Seq::new(latches as nat, |i: int| (0u64, 0u64)),
            aig.ands@.len() == 0,
            aig.outputs@.len() == 0,
    {
        let mut nexts: Vec<(u64, u64)> = Vec::new();
        let mut k: usize = 0;
        while k < latches
            invariant
                k <= latches,
                nexts@ == Seq::new(k as nat, |i: int| (0u64, 0u64)),
            decreases latches - k,
        {
            nexts.push((0, 0));
            k += 1;
            assert(nexts@ =~= Seq::new(k as nat, |i: int| (0u64, 0u64)));
        }
        Aig { input_names, nexts, ands: Vec::new(), outputs: Vec::new() }
    }

    /// The literal of an input.
    pub fn input(&self, i: usize) -> (lit: u64)
        requires
            self.wf(),
            i < self.input_names@.len(),
        ensures
            self.knows(lit),
            forall|e: Point| #[trigger] self.value(lit, e) == e.inputs[i as int],
    {
        let lit: u64 = 2 * (i as u64 + 1);
        assert forall|e: Point| #[trigger] self.value(lit, e) == e.inputs[i as int] by {}
        lit
    }

    /// The literal of a latch.
    pub fn latch(&self, i: usize) -> (lit: u64)
        requires
            self.wf(),
            i < self.nexts@.len(),
        ensures
            self.knows(lit),
            forall|e: Point| #[trigger] self.value(lit, e) == e.state[i as int],
    {
        let lit: u64 = 2 * (self.input_names.len() as u64 + i as u64 + 1);
        assert forall|e: Point| #[trigger] self.value(lit, e) == e.state[i as int] by {}
        lit
    }

    /// The negation of a literal.
    pub fn not(&self, lit: u64) -> (negated: u64)
        requires
            self.wf(),
            self.knows(lit),
        ensures
            self.knows(negated),
            forall|e: Point| #[trigger] self.value(negated, e) == !self.value(lit, e),
    {
        let negated = if lit % 2 == 0 {
            lit + 1
        } else {
            lit - 1
        };
        proof {
            assert forall|e: Point| #[trigger] self.value(negated, e) == !self.value(lit, e) by {
                self.lemma_not(lit, e);
            }
        }
        negated
    }

    /// A conjunction, folded where an operand is constant or both are the
    /// same.
    pub fn and(&mut self, a: u64, b: u64) -> (lit: u64)
        requires
            old(self).wf(),
            old(self).knows(a),
            old(self).knows(b),
            old(self).leaves() + old(self).ands@.len() + 1 < BUILD_LIMIT,
        ensures
            final(self).wf(),
            final(self).grows(old(self)),
            final(self).ands@.len() <= old(self).ands@.len() + 1,
            final(self).knows(lit),
            forall|e: Point| #[trigger] final(self).value(lit, e) == (old(self).value(a, e) && old(self).value(b, e)),
    {
        let ghost before = *self;
        assert(self.ands@.take(self.ands@.len() as int) =~= self.ands@);
        if a == 0 || b == 0 {
            return 0;
        }
        if a == 1 {
            return b;
        }
        if b == 1 || a == b {
            return a;
        }
        let next = (self.input_names.len() + self.nexts.len() + self.ands.len() + 1) as u64;
        let lit = 2 * next;
        self.ands.push((lit, a, b));
        proof {
            assert(self.ands@.take(before.ands@.len() as int) =~= before.ands@);
            assert forall|k: int| 0 <= k < self.ands@.len() implies {
                let gate = #[trigger] self.ands@[k];
                gate.0 == 2 * (self.leaves() + k + 1) && gate.1 / 2 <= self.leaves() + k && gate.2 / 2 <= self.leaves() + k
            } by {
                if k < before.ands@.len() {
                    assert(self.ands@[k] == before.ands@[k]);
                }
            }
            assert forall|e: Point| #[trigger] self.value(lit, e) == (before.value(a, e) && before.value(b, e)) by {
                self.law_gates_keep_values(&before, a, e);
                self.law_gates_keep_values(&before, b, e);
                assert(lit as int / 2 == next);
                assert(self.ands@[next - 1 - self.leaves()] == (lit, a, b));
            }
        }
        lit
    }

    /// A disjunction.
    pub fn or(&mut self, a: u64, b: u64) -> (lit: u64)
        requires
            old(self).wf(),
            old(self).knows(a),
            old(self).knows(b),
            old(self).leaves() + old(self).ands@.len() + 1 < BUILD_LIMIT,
        ensures
            final(self).wf(),
            final(self).grows(old(self)),
            final(self).ands@.len() <= old(self).ands@.len() + 1,
            final(self).knows(lit),
            forall|e: Point| #[trigger] final(self).value(lit, e) == (old(self).value(a, e) || old(self).value(b, e)),
    {
        let not_a = self.not(a);
        let not_b = self.not(b);
        let ghost before = *self;
        let neither = self.and(not_a, not_b);
        let lit = self.not(neither);
        proof {
            assert forall|e: Point| #[trigger] self.value(lit, e) == (before.value(a, e) || before.value(b, e)) by {
                assert(self.value(neither, e) == (before.value(not_a, e) && before.value(not_b, e)));
                assert(before.value(not_a, e) == !before.value(a, e));
                assert(before.value(not_b, e) == !before.value(b, e));
            }
        }
        lit
    }

    /// A disjunction of literals.
    pub fn or_all(&mut self, lits: &Vec<u64>) -> (lit: u64)
        requires
            old(self).wf(),
            forall|i: int| 0 <= i < lits@.len() ==> old(self).knows(#[trigger] lits@[i]),
            old(self).leaves() + old(self).ands@.len() + lits@.len() < BUILD_LIMIT,
        ensures
            final(self).wf(),
            final(self).grows(old(self)),
            final(self).ands@.len() <= old(self).ands@.len() + lits@.len(),
            final(self).knows(lit),
            forall|e: Point| #[trigger]
                final(self).value(lit, e) <==> exists|i: int| 0 <= i < lits@.len() && old(self).value(#[trigger] lits@[i], e),
    {
        let ghost before = *self;
        assert(self.ands@.take(self.ands@.len() as int) =~= self.ands@);
        let mut acc: u64 = 0;
        let mut k: usize = 0;
        while k < lits.len()
            invariant
                k <= lits@.len(),
                before == *old(self),
                before.wf(),
                self.wf(),
                self.grows(&before),
                self.ands@.len() <= before.ands@.len() + k,
                before.leaves() + before.ands@.len() + lits@.len() < BUILD_LIMIT,
                self.knows(acc),
                forall|i: int| 0 <= i < lits@.len() ==> before.knows(#[trigger] lits@[i]),
                forall|e: Point| #[trigger]
                    self.value(acc, e) <==> exists|i: int| 0 <= i < k && before.value(#[trigger] lits@[i], e),
            decreases lits.len() - k,
        {
            let ghost middle = *self;
            let lit = lits[k];
            assert(before.knows(lits@[k as int]));
            let held = acc;
            acc = self.or(acc, lit);
            proof {
                lemma_grows(self, &middle, &before);
                assert forall|e: Point| #[trigger] self.value(acc, e) <==> exists|i: int| 0 <= i < k + 1 && before.value(#[trigger] lits@[i], e) by {
                    assert(self.value(acc, e) == (middle.value(held, e) || middle.value(lit, e)));
                    middle.law_gates_keep_values(&before, lit, e);
                    assert(middle.value(held, e) <==> exists|i: int| 0 <= i < k && before.value(#[trigger] lits@[i], e));
                    if before.value(lit, e) {
                        assert(before.value(lits@[k as int], e));
                    }
                }
            }
            k += 1;
        }
        acc
    }

    /// A conjunction of literals.
    pub fn and_all(&mut self, lits: &Vec<u64>) -> (lit: u64)
        requires
            old(self).wf(),
            forall|i: int| 0 <= i < lits@.len() ==> old(self).knows(#[trigger] lits@[i]),
            old(self).leaves() + old(self).ands@.len() + lits@.len() < BUILD_LIMIT,
        ensures
            final(self).wf(),
            final(self).grows(old(self)),
            final(self).ands@.len() <= old(self).ands@.len() + lits@.len(),
            final(self).knows(lit),
            forall|e: Point| #[trigger]
                final(self).value(lit, e) <==> forall|i: int| 0 <= i < lits@.len() ==> old(self).value(#[trigger] lits@[i], e),
    {
        let ghost before = *self;
        assert(self.ands@.take(self.ands@.len() as int) =~= self.ands@);
        let mut acc: u64 = 1;
        let mut k: usize = 0;
        while k < lits.len()
            invariant
                k <= lits@.len(),
                before == *old(self),
                before.wf(),
                self.wf(),
                self.grows(&before),
                self.ands@.len() <= before.ands@.len() + k,
                before.leaves() + before.ands@.len() + lits@.len() < BUILD_LIMIT,
                self.knows(acc),
                forall|i: int| 0 <= i < lits@.len() ==> before.knows(#[trigger] lits@[i]),
                forall|e: Point| #[trigger]
                    self.value(acc, e) <==> forall|i: int| 0 <= i < k ==> before.value(#[trigger] lits@[i], e),
            decreases lits.len() - k,
        {
            let ghost middle = *self;
            let lit = lits[k];
            assert(before.knows(lits@[k as int]));
            let held = acc;
            acc = self.and(acc, lit);
            proof {
                lemma_grows(self, &middle, &before);
                assert forall|e: Point| #[trigger] self.value(acc, e) <==> forall|i: int| 0 <= i < k + 1 ==> before.value(#[trigger] lits@[i], e) by {
                    assert(self.value(acc, e) == (middle.value(held, e) && middle.value(lit, e)));
                    middle.law_gates_keep_values(&before, lit, e);
                    assert(middle.value(held, e) <==> forall|i: int| 0 <= i < k ==> before.value(#[trigger] lits@[i], e));
                    if forall|i: int| 0 <= i < k + 1 ==> before.value(#[trigger] lits@[i], e) {
                        assert(before.value(lits@[k as int], e));
                    }
                }
            }
            k += 1;
        }
        acc
    }

    /// An exclusive disjunction.
    pub fn xor(&mut self, a: u64, b: u64) -> (lit: u64)
        requires
            old(self).wf(),
            old(self).knows(a),
            old(self).knows(b),
            old(self).leaves() + old(self).ands@.len() + 3 < BUILD_LIMIT,
        ensures
            final(self).wf(),
            final(self).grows(old(self)),
            final(self).ands@.len() <= old(self).ands@.len() + 3,
            final(self).knows(lit),
            forall|e: Point| #[trigger] final(self).value(lit, e) == (old(self).value(a, e) != old(self).value(b, e)),
    {
        let ghost start = *self;
        let not_a = self.not(a);
        let not_b = self.not(b);
        let left = self.and(a, not_b);
        let ghost one = *self;
        let right = self.and(not_a, b);
        let ghost two = *self;
        let lit = self.or(left, right);
        proof {
            lemma_grows(&two, &one, &start);
            lemma_grows(self, &two, &start);
            assert forall|e: Point| #[trigger] self.value(lit, e) == (start.value(a, e) != start.value(b, e)) by {
                assert(self.value(lit, e) == (two.value(left, e) || two.value(right, e)));
                two.law_gates_keep_values(&one, left, e);
                assert(one.value(left, e) == (start.value(a, e) && start.value(not_b, e)));
                assert(two.value(right, e) == (one.value(not_a, e) && one.value(b, e)));
                one.law_gates_keep_values(&start, not_a, e);
                one.law_gates_keep_values(&start, b, e);
                assert(start.value(not_a, e) == !start.value(a, e));
                assert(start.value(not_b, e) == !start.value(b, e));
            }
        }
        lit
    }

    /// A choice between two literals.
    pub fn ite(&mut self, cond: u64, yes: u64, no: u64) -> (lit: u64)
        requires
            old(self).wf(),
            old(self).knows(cond),
            old(self).knows(yes),
            old(self).knows(no),
            old(self).leaves() + old(self).ands@.len() + 3 < BUILD_LIMIT,
        ensures
            final(self).wf(),
            final(self).grows(old(self)),
            final(self).ands@.len() <= old(self).ands@.len() + 3,
            final(self).knows(lit),
            forall|e: Point| #[trigger]
                final(self).value(lit, e) == (if old(self).value(cond, e) { old(self).value(yes, e) } else { old(self).value(no, e) }),
    {
        let ghost start = *self;
        let otherwise = self.not(cond);
        let taken = self.and(cond, yes);
        let ghost one = *self;
        let skipped = self.and(otherwise, no);
        let ghost two = *self;
        let lit = self.or(taken, skipped);
        proof {
            lemma_grows(&two, &one, &start);
            lemma_grows(self, &two, &start);
            assert forall|e: Point| #[trigger] self.value(lit, e) == (if start.value(cond, e) { start.value(yes, e) } else { start.value(no, e) }) by {
                assert(self.value(lit, e) == (two.value(taken, e) || two.value(skipped, e)));
                two.law_gates_keep_values(&one, taken, e);
                assert(one.value(taken, e) == (start.value(cond, e) && start.value(yes, e)));
                assert(two.value(skipped, e) == (one.value(otherwise, e) && one.value(no, e)));
                one.law_gates_keep_values(&start, otherwise, e);
                one.law_gates_keep_values(&start, no, e);
                assert(start.value(otherwise, e) == !start.value(cond, e));
            }
        }
        lit
    }

    /// Connects a latch to its next value and its reset value.
    pub fn connect(&mut self, latch: usize, next: u64, reset: u64)
        requires
            old(self).wf(),
            latch < old(self).nexts@.len(),
        ensures
            final(self).wf(),
            final(self).nexts@ == old(self).nexts@.update(latch as int, (next, reset)),
            final(self).input_names@ == old(self).input_names@,
            final(self).ands@ == old(self).ands@,
            final(self).outputs@ == old(self).outputs@,
    {
        self.nexts.set(latch, (next, reset));
    }

    /// Declares an error signal.
    pub fn output(&mut self, lit: u64)
        requires
            old(self).wf(),
        ensures
            final(self).wf(),
            final(self).outputs@ == old(self).outputs@.push(lit),
            final(self).input_names@ == old(self).input_names@,
            final(self).ands@ == old(self).ands@,
            final(self).nexts@ == old(self).nexts@,
    {
        self.outputs.push(lit);
    }
}

/// Numbers on a line, separated by blanks.
pub open spec fn numbers_line(numbers: Seq<u64>) -> Seq<char>
    decreases numbers.len(),
{
    if numbers.len() == 0 {
        "\n"@
    } else if numbers.len() == 1 {
        decimal(numbers[0] as nat) + "\n"@
    } else {
        decimal(numbers[0] as nat) + (" "@ + numbers_line(numbers.drop_first()))
    }
}

/// Appends numbers on a line.
fn push_line(text: &mut String, numbers: &Vec<u64>)
    ensures
        final(text)@ == old(text)@ + numbers_line(numbers@),
{
    let ghost start = text@;
    let mut k: usize = 0;
    assert(numbers@.skip(0) =~= numbers@);
    while k < numbers.len()
        invariant
            k <= numbers@.len(),
            numbers@.len() > 0 ==> (k < numbers@.len() ==> text@ + numbers_line(numbers@.skip(k as int)) == start + numbers_line(numbers@)),
            numbers@.len() == 0 ==> text@ == start,
            numbers@.len() > 0 && k == numbers@.len() ==> text@ + "\n"@ == start + numbers_line(numbers@),
        decreases numbers.len() - k,
    {
        let ghost before = text@;
        let ghost rest = numbers@.skip(k as int);
        push_decimal(text, numbers[k]);
        if k + 1 < numbers.len() {
            text.append(" ");
        }
        proof {
            assert(rest[0] == numbers@[k as int]);
            assert(rest.drop_first() =~= numbers@.skip(k as int + 1));
            if k + 1 < numbers@.len() {
                let after = numbers_line(numbers@.skip(k as int + 1));
                assert(text@ + after =~= before + (decimal(numbers@[k as int] as nat) + (" "@ + after)));
            } else {
                assert(text@ + "\n"@ =~= before + (decimal(numbers@[k as int] as nat) + "\n"@));
            }
        }
        k += 1;
    }
    text.append("\n");
}

impl Aig {
    /// The lines of the inputs.
    pub open spec fn input_lines(&self, count: int) -> Seq<char>
        decreases count,
    {
        if count <= 0 {
            Seq::empty()
        } else {
            self.input_lines(count - 1) + numbers_line(seq![(2 * count) as u64])
        }
    }

    /// The lines of the latches.
    pub open spec fn latch_lines(&self, count: int) -> Seq<char>
        decreases count,
    {
        if count <= 0 {
            Seq::empty()
        } else {
            self.latch_lines(count - 1) + numbers_line(
                seq![
                    (2 * (self.input_names@.len() + count)) as u64,
                    self.nexts@[count - 1].0,
                    self.nexts@[count - 1].1,
                ],
            )
        }
    }

    /// The lines of the outputs.
    pub open spec fn output_lines(&self, count: int) -> Seq<char>
        decreases count,
    {
        if count <= 0 {
            Seq::empty()
        } else {
            self.output_lines(count - 1) + numbers_line(seq![self.outputs@[count - 1]])
        }
    }

    /// The lines of the gates.
    pub open spec fn gate_lines(&self, count: int) -> Seq<char>
        decreases count,
    {
        if count <= 0 {
            Seq::empty()
        } else {
            let gate = self.ands@[count - 1];
            self.gate_lines(count - 1) + numbers_line(seq![gate.0, gate.1, gate.2])
        }
    }

    /// The lines of the symbol table.
    pub open spec fn symbol_lines(&self, count: int) -> Seq<char>
        decreases count,
    {
        if count <= 0 {
            Seq::empty()
        } else {
            self.symbol_lines(count - 1) + ("i"@ + decimal((count - 1) as nat) + " "@ + self.input_names@[count - 1]@ + "\n"@)
        }
    }

    /// The header.
    pub open spec fn header_line(&self) -> Seq<char> {
        "aag "@ + numbers_line(
            seq![
                (self.leaves() + self.ands@.len()) as u64,
                self.input_names@.len() as u64,
                self.nexts@.len() as u64,
                self.outputs@.len() as u64,
                self.ands@.len() as u64,
            ],
        )
    }

    /// The specification as text.
    pub open spec fn spec_text(&self) -> Seq<char> {
        self.header_line() + self.input_lines(self.input_names@.len() as int) + self.latch_lines(self.nexts@.len() as int) + self.output_lines(
            self.outputs@.len() as int,
        ) + self.gate_lines(self.ands@.len() as int) + self.symbol_lines(self.input_names@.len() as int)
    }

    /// The specification as ASCII AIGER.
    pub fn text(&self) -> (text: String)
        requires
            self.wf(),
        ensures
            text@ == self.spec_text(),
    {
        let inputs = self.input_names.len();
        let latches = self.nexts.len();
        let mut text = String::new();
        text.append("aag ");
        let max = (inputs + latches + self.ands.len()) as u64;
        let header: Vec<u64> = vec![max, inputs as u64, latches as u64, self.outputs.len() as u64, self.ands.len() as u64];
        push_line(&mut text, &header);
        proof {
            assert(header@ =~= seq![
                (self.leaves() + self.ands@.len()) as u64,
                self.input_names@.len() as u64,
                self.nexts@.len() as u64,
                self.outputs@.len() as u64,
                self.ands@.len() as u64,
            ]);
            assert(text@ =~= self.header_line());
        }
        self.push_entries(&mut text);
        let ghost start = text@;
        let mut k: usize = 0;
        assert(start + self.symbol_lines(0) =~= start);
        while k < inputs
            invariant
                k <= inputs,
                inputs == self.input_names@.len(),
                text@ == start + self.symbol_lines(k as int),
            decreases inputs - k,
        {
            let ghost before = text@;
            text.append("i");
            push_decimal(&mut text, k as u64);
            text.append(" ");
            text.append(self.input_names[k].as_str());
            text.append("\n");
            k += 1;
            proof {
                let line = "i"@ + decimal((k - 1) as nat) + " "@ + self.input_names@[k - 1]@ + "\n"@;
                assert(text@ =~= before + line);
                assert(text@ =~= start + self.symbol_lines(k as int));
            }
        }
        text
    }

    /// Appends the lines of inputs, latches, outputs and gates.
    fn push_entries(&self, text: &mut String)
        requires
            self.wf(),
        ensures
            final(text)@ == old(text)@ + self.input_lines(self.input_names@.len() as int) + self.latch_lines(self.nexts@.len() as int)
                + self.output_lines(self.outputs@.len() as int) + self.gate_lines(self.ands@.len() as int),
    {
        let inputs = self.input_names.len();
        let ghost s0 = text@;
        let mut k: usize = 0;
        assert(s0 + self.input_lines(0) =~= s0);
        while k < inputs
            invariant
                k <= inputs,
                inputs == self.input_names@.len(),
                self.wf(),
                text@ == s0 + self.input_lines(k as int),
            decreases inputs - k,
        {
            let line: Vec<u64> = vec![2 * (k as u64 + 1)];
            assert(line@ =~= seq![(2 * (k + 1)) as u64]);
            push_line(text, &line);
            k += 1;
            assert(text@ =~= s0 + self.input_lines(k as int));
        }
        let ghost s1 = text@;
        let mut k: usize = 0;
        assert(s1 + self.latch_lines(0) =~= s1);
        while k < self.nexts.len()
            invariant
                k <= self.nexts@.len(),
                inputs == self.input_names@.len(),
                self.wf(),
                text@ == s1 + self.latch_lines(k as int),
            decreases self.nexts.len() - k,
        {
            let (next, reset) = self.nexts[k];
            let line: Vec<u64> = vec![2 * (inputs as u64 + k as u64 + 1), next, reset];
            assert(line@ =~= seq![(2 * (self.input_names@.len() + (k + 1))) as u64, self.nexts@[k as int].0, self.nexts@[k as int].1]);
            push_line(text, &line);
            k += 1;
            assert(text@ =~= s1 + self.latch_lines(k as int));
        }
        let ghost s2 = text@;
        let mut k: usize = 0;
        assert(s2 + self.output_lines(0) =~= s2);
        while k < self.outputs.len()
            invariant
                k <= self.outputs@.len(),
                text@ == s2 + self.output_lines(k as int),
            decreases self.outputs.len() - k,
        {
            let line: Vec<u64> = vec![self.outputs[k]];
            assert(line@ =~= seq![self.outputs@[k as int]]);
            push_line(text, &line);
            k += 1;
            assert(text@ =~= s2 + self.output_lines(k as int));
        }
        let ghost s3 = text@;
        let mut k: usize = 0;
        assert(s3 + self.gate_lines(0) =~= s3);
        while k < self.ands.len()
            invariant
                k <= self.ands@.len(),
                text@ == s3 + self.gate_lines(k as int),
            decreases self.ands.len() - k,
        {
            let gate = self.ands[k];
            let line: Vec<u64> = vec![gate.0, gate.1, gate.2];
            assert(line@ =~= seq![gate.0, gate.1, gate.2]);
            push_line(text, &line);
            k += 1;
            assert(text@ =~= s3 + self.gate_lines(k as int));
        }
    }
}

/// Growing is transitive.
pub proof fn lemma_grows(after: &Aig, middle: &Aig, before: &Aig)
    requires
        after.grows(middle),
        middle.grows(before),
    ensures
        after.grows(before),
{
    assert(after.ands@.take(before.ands@.len() as int) =~= before.ands@) by {
        assert forall|i: int| 0 <= i < before.ands@.len() implies after.ands@[i] == before.ands@[i] by {
            assert(after.ands@.take(middle.ands@.len() as int)[i] == middle.ands@[i]);
            assert(middle.ands@.take(before.ands@.len() as int)[i] == before.ands@[i]);
        }
    }
}

} // verus!
