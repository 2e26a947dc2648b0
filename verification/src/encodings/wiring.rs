//! Circuits built gate by gate over fixed inputs.
use super::{magnitude, signed, Circuit, Gate, WIRE_LIMIT};
use crate::qcir::formula::gate_value;
use crate::semantics::{clause_true, cube_true, lit_true, Assignment};
use vstd::prelude::*;

verus! {

/// A builder over the fixed input variables.
pub struct Builder {
    pub circuit: Circuit,
}

impl Builder {
    /// The number names an input or a gate.
    pub open spec fn names(&self, l: i32) -> bool {
        l != 0 && magnitude(l) <= self.circuit.inputs() + self.circuit.gates@.len()
    }

    /// Gates read inputs and earlier gates.
    pub open spec fn wf(&self) -> bool {
        &&& self.circuit.inputs() + self.circuit.gates@.len() < WIRE_LIMIT
        &&& forall|k: int, i: int|
            0 <= k < self.circuit.gates@.len() && 0 <= i < self.circuit.gates@[k].args().len() ==> #[trigger] self.circuit.gates@[k].args()[i]
                != 0 && magnitude(self.circuit.gates@[k].args()[i]) <= self.circuit.inputs() + k
    }

    /// There are as many more gates as said.
    pub open spec fn grows(&self, from: Builder, count: int) -> bool {
        &&& self.wf()
        &&& self.circuit.universals == from.circuit.universals
        &&& self.circuit.existentials == from.circuit.existentials
        &&& self.circuit.gates@.len() == from.circuit.gates@.len() + count
        &&& forall|a: Assignment| #[trigger] self.circuit.settled(a) ==> from.circuit.settled(a)
    }

    /// A builder over the given numbers of inputs.
    pub fn new(universals: usize, existentials: usize) -> (builder: Builder)
        requires
            universals + existentials < WIRE_LIMIT,
        ensures
            builder.wf(),
            builder.circuit.universals == universals,
            builder.circuit.existentials == existentials,
            builder.circuit.gates@.len() == 0,
    {
        Builder { circuit: Circuit { universals, existentials, gates: Vec::new(), output: 0 } }
    }

    /// A universal input, counted from 0.
    pub fn universal(&self, i: usize) -> (l: i32)
        requires
            self.wf(),
            i < self.circuit.universals,
        ensures
            l == i + 1,
            self.names(l),
    {
        (i + 1) as i32
    }

    /// An existential input, counted from 0.
    pub fn existential(&self, i: usize) -> (l: i32)
        requires
            self.wf(),
            i < self.circuit.existentials,
        ensures
            l == self.circuit.universals + i + 1,
            self.names(l),
    {
        (self.circuit.universals + i + 1) as i32
    }

    /// Appends a gate and gives its number.
    pub fn push(&mut self, gate: Gate) -> (l: i32)
        requires
            old(self).wf(),
            old(self).circuit.inputs() + old(self).circuit.gates@.len() + 1 < WIRE_LIMIT,
            forall|i: int| 0 <= i < gate.args().len() ==> old(self).names(#[trigger] gate.args()[i]),
        ensures
            final(self).grows(*old(self), 1),
            final(self).circuit.gates@ == old(self).circuit.gates@.push(gate),
            final(self).circuit.output == old(self).circuit.output,
            l == old(self).circuit.gate_number(old(self).circuit.gates@.len() as int),
            final(self).names(l),
            forall|a: Assignment| #[trigger]
                final(self).circuit.settled(a) ==> lit_true(a, signed(l)) == gate_value(gate.op(), gate.lits(), a),
    {
        let ghost before = *self;
        self.circuit.gates.push(gate);
        let l = (self.circuit.universals + self.circuit.existentials + self.circuit.gates.len()) as i32;
        proof {
            let count = before.circuit.gates@.len() as int;
            assert forall|k: int, i: int|
                0 <= k < self.circuit.gates@.len() && 0 <= i < self.circuit.gates@[k].args().len() implies #[trigger] self.circuit.gates@[k].args()[i]
                != 0 && magnitude(self.circuit.gates@[k].args()[i]) <= self.circuit.inputs() + k by {
                if k < count {
                    assert(self.circuit.gates@[k] == before.circuit.gates@[k]);
                    assert(before.circuit.gates@[k].args()[i] != 0);
                } else {
                    assert(before.names(gate.args()[i]));
                }
            }
            assert forall|a: Assignment| #[trigger] self.circuit.settled(a) implies before.circuit.settled(a) && lit_true(a, signed(l))
                == gate_value(gate.op(), gate.lits(), a) by {
                assert forall|k: int| 0 <= k < count implies #[trigger] before.circuit.gate_holds(k, a) by {
                    assert(self.circuit.gate_holds(k, a));
                    assert(self.circuit.gates@[k] == before.circuit.gates@[k]);
                }
                assert(self.circuit.gate_holds(count, a));
                assert(self.circuit.gates@[count] == gate);
            }
        }
        l
    }

    /// Appends an exclusive or.
    pub fn xor(&mut self, a: i32, b: i32) -> (l: i32)
        requires
            old(self).wf(),
            old(self).circuit.inputs() + old(self).circuit.gates@.len() + 1 < WIRE_LIMIT,
            old(self).names(a),
            old(self).names(b),
        ensures
            final(self).grows(*old(self), 1),
            final(self).circuit.gates@ == old(self).circuit.gates@.push(Gate::Xor(a, b)),
            final(self).circuit.output == old(self).circuit.output,
            l == old(self).circuit.gate_number(old(self).circuit.gates@.len() as int),
            final(self).names(l),
            forall|s: Assignment| #[trigger]
                final(self).circuit.settled(s) ==> lit_true(s, signed(l)) == (lit_true(s, signed(a)) != lit_true(s, signed(b))),
    {
        let gate = Gate::Xor(a, b);
        let ghost lits = gate.lits();
        proof {
            assert(gate.args() =~= seq![a, b]);
            assert(lits[0] == signed(a) && lits[1] == signed(b));
        }
        self.push(gate)
    }

    /// Appends a conjunction.
    pub fn and(&mut self, args: Vec<i32>) -> (l: i32)
        requires
            old(self).wf(),
            old(self).circuit.inputs() + old(self).circuit.gates@.len() + 1 < WIRE_LIMIT,
            forall|i: int| 0 <= i < args@.len() ==> old(self).names(#[trigger] args@[i]),
        ensures
            final(self).grows(*old(self), 1),
            final(self).circuit.gates@ == old(self).circuit.gates@.push(Gate::And(args)),
            final(self).circuit.output == old(self).circuit.output,
            l == old(self).circuit.gate_number(old(self).circuit.gates@.len() as int),
            final(self).names(l),
            forall|a: Assignment| #[trigger]
                final(self).circuit.settled(a) ==> lit_true(a, signed(l)) == (forall|i: int|
                    0 <= i < args@.len() ==> lit_true(a, signed(#[trigger] args@[i]))),
    {
        let gate = Gate::And(args);
        let ghost lits = gate.lits();
        proof {
            assert forall|a: Assignment| #[trigger] cube_true(a, lits) == (forall|i: int|
                0 <= i < args@.len() ==> lit_true(a, signed(#[trigger] args@[i]))) by {
                if cube_true(a, lits) {
                    assert forall|i: int| 0 <= i < args@.len() implies lit_true(a, signed(#[trigger] args@[i])) by {
                        assert(lit_true(a, lits[i]));
                    }
                }
            }
        }
        self.push(gate)
    }

    /// Appends a disjunction.
    pub fn or(&mut self, args: Vec<i32>) -> (l: i32)
        requires
            old(self).wf(),
            old(self).circuit.inputs() + old(self).circuit.gates@.len() + 1 < WIRE_LIMIT,
            forall|i: int| 0 <= i < args@.len() ==> old(self).names(#[trigger] args@[i]),
        ensures
            final(self).grows(*old(self), 1),
            final(self).circuit.gates@ == old(self).circuit.gates@.push(Gate::Or(args)),
            final(self).circuit.output == old(self).circuit.output,
            l == old(self).circuit.gate_number(old(self).circuit.gates@.len() as int),
            final(self).names(l),
            forall|a: Assignment| #[trigger]
                final(self).circuit.settled(a) ==> lit_true(a, signed(l)) == (exists|i: int|
                    0 <= i < args@.len() && lit_true(a, signed(#[trigger] args@[i]))),
    {
        let gate = Gate::Or(args);
        let ghost lits = gate.lits();
        proof {
            assert forall|a: Assignment| #[trigger] clause_true(a, lits) == (exists|i: int|
                0 <= i < args@.len() && lit_true(a, signed(#[trigger] args@[i]))) by {
                if exists|i: int| 0 <= i < args@.len() && lit_true(a, signed(#[trigger] args@[i])) {
                    let i = choose|i: int| 0 <= i < args@.len() && lit_true(a, signed(#[trigger] args@[i]));
                    assert(lit_true(a, lits[i]));
                }
                if clause_true(a, lits) {
                    let i = choose|i: int| 0 <= i < lits.len() && lit_true(a, #[trigger] lits[i]);
                    assert(lit_true(a, signed(args@[i])));
                }
            }
        }
        self.push(gate)
    }

    /// The conjunction of two wires.
    pub(crate) fn both(&mut self, l: i32, m: i32) -> (r: i32)
        requires
            old(self).wf(),
            old(self).circuit.inputs() + old(self).circuit.gates@.len() + 1 < WIRE_LIMIT,
            old(self).names(l),
            old(self).names(m),
        ensures
            final(self).grows(*old(self), 1),
            final(self).names(r),
            r > 0,
            forall|a: Assignment| #[trigger]
                final(self).circuit.settled(a) ==> lit_true(a, signed(r)) == (lit_true(a, signed(l)) && lit_true(a, signed(m))),
    {
        let args: Vec<i32> = vec![l, m];
        assert(args@[0] == l && args@[1] == m);
        self.and(args)
    }

    /// The disjunction of two wires.
    pub(crate) fn either(&mut self, l: i32, m: i32) -> (r: i32)
        requires
            old(self).wf(),
            old(self).circuit.inputs() + old(self).circuit.gates@.len() + 1 < WIRE_LIMIT,
            old(self).names(l),
            old(self).names(m),
        ensures
            final(self).grows(*old(self), 1),
            final(self).names(r),
            r > 0,
            forall|a: Assignment| #[trigger]
                final(self).circuit.settled(a) ==> lit_true(a, signed(r)) == (lit_true(a, signed(l)) || lit_true(a, signed(m))),
    {
        let args: Vec<i32> = vec![l, m];
        assert(args@[0] == l && args@[1] == m);
        self.or(args)
    }

    /// The circuit with the given output.
    pub fn finish(self, output: i32) -> (circuit: Circuit)
        requires
            self.wf(),
            self.names(output),
        ensures
            circuit.wf(),
            circuit.universals == self.circuit.universals,
            circuit.existentials == self.circuit.existentials,
            circuit.gates@ == self.circuit.gates@,
            circuit.output == output,
            forall|a: Assignment| #[trigger] circuit.settled(a) ==> self.circuit.settled(a),
    {
        let circuit = Circuit {
            universals: self.circuit.universals,
            existentials: self.circuit.existentials,
            gates: self.circuit.gates,
            output,
        };
        proof {
            assert forall|a: Assignment| #[trigger] circuit.settled(a) implies self.circuit.settled(a) by {
                assert forall|k: int| 0 <= k < self.circuit.gates@.len() implies #[trigger] self.circuit.gate_holds(k, a) by {
                    assert(circuit.gate_holds(k, a));
                }
            }
            assert forall|k: int, i: int|
                0 <= k < circuit.gates@.len() && 0 <= i < circuit.gates@[k].args().len() implies #[trigger] circuit.gates@[k].args()[i] != 0
                && magnitude(circuit.gates@[k].args()[i]) <= circuit.inputs() + k by {
                assert(self.circuit.gates@[k].args()[i] != 0);
            }
        }
        circuit
    }
}

} // verus!
