//! A combinational and-inverter graph with constant folding, in the
//! literal conventions of AIGER: `0` is false, `1` is true, and variable
//! `v` has the literals `2v` and `2v + 1`.
use vstd::prelude::*;

verus! {

/// The largest number of variables a graph may have.
pub const MAX_GRAPH: u64 = 0x1000_0000_0000_0000;

/// A graph under construction. Inputs come first, then the gates in the
/// order in which they were built.
pub struct AigBuilder {
    inputs: usize,
    ands: Vec<(u64, u64, u64)>,
    /// set once a gate did not fit
    full: bool,
}

/// The value of a literal of the graph whose inputs have the given values.
/// Literals beyond the graph are false.
pub open spec fn wire(ands: Seq<(u64, u64, u64)>, inputs: Seq<bool>, lit: int) -> bool
    decreases lit / 2,
{
    let var = lit / 2;
    let gate = var - inputs.len() - 1;
    let value = if var <= 0 {
        false
    } else if var <= inputs.len() {
        inputs[var - 1]
    } else if gate < ands.len() && 0 <= ands[gate].1 as int / 2 < var && 0 <= ands[gate].2 as int / 2 < var {
        wire(ands, inputs, ands[gate].1 as int) && wire(ands, inputs, ands[gate].2 as int)
    } else {
        false
    };
    value != (lit % 2 == 1)
}

/// Flipping the lowest bit negates a literal.
pub open spec fn flip(lit: u64) -> u64 {
    if lit % 2 == 0 {
        (lit + 1) as u64
    } else {
        (lit - 1) as u64
    }
}

/// The opposite literal.
pub fn negate_wire(lit: u64) -> (result: u64)
    requires
        lit < u64::MAX,
    ensures
        result == flip(lit),
        result / 2 == lit / 2,
{
    if lit % 2 == 0 {
        lit + 1
    } else {
        lit - 1
    }
}

/// The opposite literal has the opposite value.
pub proof fn lemma_flip(ands: Seq<(u64, u64, u64)>, inputs: Seq<bool>, lit: u64)
    requires
        lit < u64::MAX,
    ensures
        wire(ands, inputs, flip(lit) as int) == !wire(ands, inputs, lit as int),
        flip(lit) / 2 == lit / 2,
        flip(flip(lit)) == lit,
{
    let a = lit as int;
    let b = flip(lit) as int;
    assert(a / 2 == b / 2);
    assert(a % 2 != b % 2);
}

/// The first graph is where the second one started.
pub open spec fn grows(before: Seq<(u64, u64, u64)>, after: Seq<(u64, u64, u64)>) -> bool {
    &&& before.len() <= after.len()
    &&& forall|i: int| 0 <= i < before.len() ==> before[i] == #[trigger] after[i]
}

/// Literals keep their value when the graph grows.
pub proof fn lemma_grows(before: Seq<(u64, u64, u64)>, after: Seq<(u64, u64, u64)>, inputs: Seq<bool>, lit: int)
    requires
        grows(before, after),
        lit / 2 <= inputs.len() + before.len(),
    ensures
        wire(before, inputs, lit) == wire(after, inputs, lit),
    decreases lit / 2,
{
    let var = lit / 2;
    let gate = var - inputs.len() - 1;
    if var > inputs.len() {
        assert(before[gate] == after[gate]);
        if 0 <= before[gate].1 as int / 2 < var && 0 <= before[gate].2 as int / 2 < var {
            lemma_grows(before, after, inputs, before[gate].1 as int);
            lemma_grows(before, after, inputs, before[gate].2 as int);
        }
    }
}

/// Growing is transitive.
pub proof fn lemma_grows_trans(a: Seq<(u64, u64, u64)>, b: Seq<(u64, u64, u64)>, c: Seq<(u64, u64, u64)>)
    requires
        grows(a, b),
        grows(b, c),
    ensures
        grows(a, c),
{
    assert forall|i: int| 0 <= i < a.len() implies a[i] == #[trigger] c[i] by {
        assert(b[i] == c[i]);
    }
}

/// Some literal of the list holds.
pub open spec fn any_wire(ands: Seq<(u64, u64, u64)>, inputs: Seq<bool>, lits: Seq<u64>) -> bool {
    exists|i: int| 0 <= i < lits.len() && wire(ands, inputs, #[trigger] lits[i] as int)
}

/// Every literal of the list holds.
pub open spec fn all_wires(ands: Seq<(u64, u64, u64)>, inputs: Seq<bool>, lits: Seq<u64>) -> bool {
    forall|i: int| 0 <= i < lits.len() ==> wire(ands, inputs, #[trigger] lits[i] as int)
}

impl AigBuilder {
    /// The number of inputs.
    pub closed spec fn spec_inputs(&self) -> nat {
        self.inputs as nat
    }

    /// The gates, in the order in which they were built.
    pub closed spec fn spec_gates(&self) -> Seq<(u64, u64, u64)> {
        self.ands@
    }

    /// A gate did not fit the numbering.
    pub closed spec fn spec_full(&self) -> bool {
        self.full
    }

    /// Every gate defines the next variable from earlier ones.
    pub closed spec fn wf(&self) -> bool {
        &&& self.inputs < MAX_GRAPH
        &&& self.inputs + self.ands@.len() < MAX_GRAPH
        &&& self.full ==> self.inputs + self.ands@.len() + 1 >= MAX_GRAPH
        &&& forall|i: int|
            0 <= i < self.ands@.len() ==> (#[trigger] self.ands@[i]).0 == 2 * (self.inputs + 1 + i) && self.ands@[i].1
                < self.ands@[i].0 && self.ands@[i].2 < self.ands@[i].0
    }

    /// The literal belongs to the graph.
    pub open spec fn has(&self, lit: u64) -> bool {
        lit / 2 <= self.spec_inputs() + self.spec_gates().len()
    }

    /// The value of a literal.
    pub open spec fn value(&self, inputs: Seq<bool>, lit: u64) -> bool {
        wire(self.spec_gates(), inputs, lit as int)
    }

    /// A graph that this one extends.
    pub open spec fn extends(&self, before: &AigBuilder) -> bool {
        &&& self.spec_inputs() == before.spec_inputs()
        &&& grows(before.spec_gates(), self.spec_gates())
        &&& before.spec_full() ==> self.spec_full()
    }

    /// The gates of a well-formed graph and the bound on its size.
    pub proof fn lemma_wf(&self)
        requires
            self.wf(),
        ensures
            self.spec_inputs() + self.spec_gates().len() < MAX_GRAPH,
            forall|i: int|
                0 <= i < self.spec_gates().len() ==> (#[trigger] self.spec_gates()[i]).0 == 2 * (self.spec_inputs() + 1 + i)
                    && self.spec_gates()[i].1 < self.spec_gates()[i].0 && self.spec_gates()[i].2 < self.spec_gates()[i].0,
    {
    }

    /// Only a graph of the largest size has refused a gate.
    pub proof fn lemma_not_full(&self)
        requires
            self.wf(),
            self.spec_inputs() + self.spec_gates().len() + 1 < MAX_GRAPH,
        ensures
            !self.spec_full(),
    {
    }

    /// A graph with the given number of inputs and no gate.
    pub fn new(inputs: usize) -> (aig: AigBuilder)
        requires
            inputs < MAX_GRAPH,
        ensures
            aig.wf(),
            aig.spec_inputs() == inputs,
            aig.spec_gates() == Seq::<(u64, u64, u64)>::empty(),
            !aig.spec_full(),
    {
        AigBuilder { inputs, ands: Vec::new(), full: false }
    }

    /// The literal of an input.
    pub fn input(position: usize) -> (lit: u64)
        requires
            position < MAX_GRAPH,
        ensures
            lit == 2 * (position + 1),
    {
        2 * (position as u64 + 1)
    }

    /// The gates in definition order: the first literal is the positive
    /// literal of a variable defined here for the first time, the other
    /// two refer to inputs, constants, or earlier gates.
    pub fn gates(&self) -> (gates: &Vec<(u64, u64, u64)>)
        ensures
            gates@ == self.spec_gates(),
    {
        &self.ands
    }

    /// The number of inputs.
    pub fn input_count(&self) -> (inputs: usize)
        ensures
            inputs == self.spec_inputs(),
    {
        self.inputs
    }

    /// Whether a gate did not fit.
    pub fn is_full(&self) -> (full: bool)
        ensures
            full == self.spec_full(),
    {
        self.full
    }

    /// The conjunction of two literals.
    pub fn and(&mut self, a: u64, b: u64) -> (result: u64)
        requires
            old(self).wf(),
            old(self).has(a),
            old(self).has(b),
        ensures
            final(self).wf(),
            final(self).extends(old(self)),
            final(self).spec_gates().len() <= old(self).spec_gates().len() + 1,
            final(self).has(result),
            !final(self).spec_full() ==> forall|inputs: Seq<bool>|
                inputs.len() == old(self).spec_inputs() ==> #[trigger] final(self).value(inputs, result) == (old(self).value(
                    inputs,
                    a,
                ) && old(self).value(inputs, b)),
    {
        let ghost gates = self.ands@;
        if a == 0 || b == 0 || a == negate_wire(b) {
            proof {
                assert forall|inputs: Seq<bool>| !#[trigger] wire(gates, inputs, 0int) by {}
                assert forall|inputs: Seq<bool>| #[trigger] wire(gates, inputs, a as int) && wire(gates, inputs, b as int) implies false by {
                    lemma_flip(gates, inputs, b);
                }
            }
            return 0;
        }
        if a == 1 {
            assert forall|inputs: Seq<bool>| #[trigger] wire(gates, inputs, 1int) by {}
            return b;
        }
        if b == 1 || a == b {
            assert forall|inputs: Seq<bool>| #[trigger] wire(gates, inputs, 1int) by {}
            return a;
        }
        if self.inputs as u64 + self.ands.len() as u64 + 1 >= MAX_GRAPH {
            self.full = true;
            return 0;
        }
        let lhs = 2 * (self.inputs as u64 + 1 + self.ands.len() as u64);
        self.ands.push((lhs, a, b));
        proof {
            let after = self.ands@;
            assert(grows(gates, after));
            assert forall|inputs: Seq<bool>| inputs.len() == self.inputs implies #[trigger] wire(after, inputs, lhs as int) == (wire(
                gates,
                inputs,
                a as int,
            ) && wire(gates, inputs, b as int)) by {
                lemma_grows(gates, after, inputs, a as int);
                lemma_grows(gates, after, inputs, b as int);
                assert(after[gates.len() as int] == (lhs, a, b));
            }
        }
        lhs
    }

    /// The conjunction of all literals.
    pub fn and_all(&mut self, lits: &Vec<u64>) -> (result: u64)
        requires
            old(self).wf(),
            forall|i: int| 0 <= i < lits@.len() ==> old(self).has(#[trigger] lits@[i]),
        ensures
            final(self).wf(),
            final(self).extends(old(self)),
            final(self).spec_gates().len() <= old(self).spec_gates().len() + lits@.len(),
            final(self).has(result),
            !final(self).spec_full() ==> forall|inputs: Seq<bool>|
                inputs.len() == old(self).spec_inputs() ==> #[trigger] final(self).value(inputs, result) == all_wires(
                    old(self).spec_gates(),
                    inputs,
                    lits@,
                ),
    {
        let ghost gates = self.ands@;
        let mut result: u64 = 1;
        let mut k: usize = 0;
        proof {
            assert forall|inputs: Seq<bool>| #[trigger] wire(gates, inputs, 1int) by {}
        }
        while k < lits.len()
            invariant
                k <= lits@.len(),
                self.wf(),
                self.extends(old(self)),
                gates == old(self).spec_gates(),
                self.spec_gates().len() <= gates.len() + k,
                self.has(result),
                forall|i: int| 0 <= i < lits@.len() ==> old(self).has(#[trigger] lits@[i]),
                !self.spec_full() ==> forall|inputs: Seq<bool>|
                    inputs.len() == old(self).spec_inputs() ==> #[trigger] self.value(inputs, result) == all_wires(
                        gates,
                        inputs,
                        lits@.take(k as int),
                    ),
            decreases lits.len() - k,
        {
            let ghost before = self.spec_gates();
            let ghost last = result;
            let ghost was_full = self.spec_full();
            proof {
                if !was_full {
                    assert forall|inputs: Seq<bool>| inputs.len() == old(self).spec_inputs() implies #[trigger] wire(
                        before,
                        inputs,
                        last as int,
                    ) == all_wires(gates, inputs, lits@.take(k as int)) by {
                        assert(self.value(inputs, last) == all_wires(gates, inputs, lits@.take(k as int)));
                    }
                }
            }
            assert(old(self).has(lits@[k as int]));
            result = self.and(result, lits[k]);
            proof {
                lemma_grows_trans(gates, before, self.spec_gates());
                if !self.spec_full() {
                    assert forall|inputs: Seq<bool>| inputs.len() == old(self).spec_inputs() implies #[trigger] self.value(
                        inputs,
                        result,
                    ) == all_wires(gates, inputs, lits@.take(k as int + 1)) by {
                        let l = lits@[k as int];
                        lemma_grows(gates, before, inputs, l as int);
                        let part = lits@.take(k as int);
                        let next = lits@.take(k as int + 1);
                        assert(next =~= part.push(l));
                        if all_wires(gates, inputs, next) {
                            assert(next[k as int] == l);
                            assert forall|i: int| 0 <= i < part.len() implies wire(gates, inputs, #[trigger] part[i] as int) by {
                                assert(next[i] == part[i]);
                            }
                        }
                        assert(wire(before, inputs, last as int) == all_wires(gates, inputs, part));
                    }
                }
            }
            k += 1;
        }
        assert(lits@.take(lits@.len() as int) =~= lits@);
        result
    }

    /// The disjunction of all literals.
    pub fn or_all(&mut self, lits: &Vec<u64>) -> (result: u64)
        requires
            old(self).wf(),
            forall|i: int| 0 <= i < lits@.len() ==> old(self).has(#[trigger] lits@[i]),
        ensures
            final(self).wf(),
            final(self).extends(old(self)),
            final(self).spec_gates().len() <= old(self).spec_gates().len() + lits@.len(),
            final(self).has(result),
            !final(self).spec_full() ==> forall|inputs: Seq<bool>|
                inputs.len() == old(self).spec_inputs() ==> #[trigger] final(self).value(inputs, result) == any_wire(
                    old(self).spec_gates(),
                    inputs,
                    lits@,
                ),
    {
        let ghost gates = self.ands@;
        let mut result: u64 = 0;
        let mut k: usize = 0;
        proof {
            assert forall|inputs: Seq<bool>| !#[trigger] wire(gates, inputs, 0int) by {}
        }
        while k < lits.len()
            invariant
                k <= lits@.len(),
                self.wf(),
                self.extends(old(self)),
                gates == old(self).spec_gates(),
                self.spec_gates().len() <= gates.len() + k,
                self.has(result),
                forall|i: int| 0 <= i < lits@.len() ==> old(self).has(#[trigger] lits@[i]),
                !self.spec_full() ==> forall|inputs: Seq<bool>|
                    inputs.len() == old(self).spec_inputs() ==> #[trigger] self.value(inputs, result) == any_wire(
                        gates,
                        inputs,
                        lits@.take(k as int),
                    ),
            decreases lits.len() - k,
        {
            let ghost before = self.spec_gates();
            let ghost last = result;
            let ghost was_full = self.spec_full();
            assert(old(self).has(lits@[k as int]));
            proof {
                self.lemma_wf();
                if !was_full {
                    assert forall|inputs: Seq<bool>| inputs.len() == old(self).spec_inputs() implies #[trigger] wire(
                        before,
                        inputs,
                        last as int,
                    ) == any_wire(gates, inputs, lits@.take(k as int)) by {
                        assert(self.value(inputs, last) == any_wire(gates, inputs, lits@.take(k as int)));
                    }
                }
            }
            let none = self.and(negate_wire(result), negate_wire(lits[k]));
            proof {
                self.lemma_wf();
            }
            result = negate_wire(none);
            proof {
                lemma_grows_trans(gates, before, self.spec_gates());
                if !self.spec_full() {
                    assert forall|inputs: Seq<bool>| inputs.len() == old(self).spec_inputs() implies #[trigger] self.value(
                        inputs,
                        result,
                    ) == any_wire(gates, inputs, lits@.take(k as int + 1)) by {
                        let l = lits@[k as int];
                        lemma_grows(gates, before, inputs, l as int);
                        lemma_flip(before, inputs, l);
                        lemma_flip(before, inputs, last);
                        lemma_flip(self.spec_gates(), inputs, none);
                        let part = lits@.take(k as int);
                        let next = lits@.take(k as int + 1);
                        assert(next =~= part.push(l));
                        if any_wire(gates, inputs, part) {
                            let i = choose|i: int| 0 <= i < part.len() && wire(gates, inputs, #[trigger] part[i] as int);
                            assert(next[i] == part[i]);
                        }
                        if wire(gates, inputs, l as int) {
                            assert(next[k as int] == l);
                        }
                        if any_wire(gates, inputs, next) {
                            let i = choose|i: int| 0 <= i < next.len() && wire(gates, inputs, #[trigger] next[i] as int);
                            if i < part.len() {
                                assert(part[i] == next[i]);
                            }
                        }
                        assert(self.value(inputs, none) == (wire(before, inputs, flip(last) as int) && wire(
                            before,
                            inputs,
                            flip(l) as int,
                        )));
                    }
                }
            }
            k += 1;
        }
        assert(lits@.take(lits@.len() as int) =~= lits@);
        result
    }
}

} // verus!
