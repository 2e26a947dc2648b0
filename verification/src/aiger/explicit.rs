//! The winning region of a safety game by explicit backward iteration over
//! the state space: no solver, no encoding, no cubes.
//!
//! Gates are evaluated in file order; a gate that reads one after it reads
//! false.
use crate::aiger::circuit::{Circuit, Class, Values};
use crate::aiger::parse::ParseError;
use crate::aiger::qaiger::{parse_circuit, reads_circuit};
use crate::aiger::safety::first_line_error;
use vstd::prelude::*;

verus! {

/// The most latches for which the states are listed.
pub const STATE_LIMIT: usize = 30;

/// The values of the first gates, in file order.
pub open spec fn gates_upto(circuit: Circuit, state: Seq<bool>, inputs: Seq<bool>, count: int) -> Seq<bool>
    decreases count,
{
    if count <= 0 {
        Seq::empty()
    } else {
        let before = gates_upto(circuit, state, inputs, count - 1);
        let v = Values { state, inputs, gates: padded(before, circuit.aiger.ands@.len()) };
        before.push(circuit.value(v, circuit.aiger.ands@[count - 1].rhs0) && circuit.value(v, circuit.aiger.ands@[count - 1].rhs1))
    }
}

/// The values, false where there is none yet.
pub open spec fn padded(gates: Seq<bool>, len: nat) -> Seq<bool> {
    Seq::new(len, |i: int| i < gates.len() && gates[i])
}

/// The values of a circuit in a state with inputs.
pub open spec fn evaluated(circuit: Circuit, state: Seq<bool>, inputs: Seq<bool>) -> Values {
    Values { state, inputs, gates: gates_upto(circuit, state, inputs, circuit.aiger.ands@.len() as int) }
}

/// The inputs are as the environment plays them where they are not
/// controllable.
pub open spec fn plays(circuit: Circuit, inputs: Seq<bool>, env: Seq<bool>) -> bool {
    &&& inputs.len() == circuit.aiger.inputs@.len()
    &&& forall|i: int| 0 <= i < inputs.len() && !circuit.controllable@[i] ==> #[trigger] inputs[i] == env[i]
}

/// No error is raised and the next state is in the region.
pub open spec fn step_ok(circuit: Circuit, state: Seq<bool>, inputs: Seq<bool>, region: spec_fn(Seq<bool>) -> bool) -> bool {
    let v = evaluated(circuit, state, inputs);
    circuit.safe(v) && region(circuit.next(v))
}

/// The controller has an answer to a move.
pub open spec fn has_answer(circuit: Circuit, state: Seq<bool>, env: Seq<bool>, region: spec_fn(Seq<bool>) -> bool) -> bool {
    exists|inputs: Seq<bool>| #[trigger] plays(circuit, inputs, env) && step_ok(circuit, state, inputs, region)
}

/// The controller has an answer to every move.
pub open spec fn survives(circuit: Circuit, state: Seq<bool>, region: spec_fn(Seq<bool>) -> bool) -> bool {
    forall|env: Seq<bool>| #[trigger] circuit.is_move(env) ==> has_answer(circuit, state, env, region)
}

/// The controller can stay in the region.
pub open spec fn stays(circuit: Circuit, region: spec_fn(Seq<bool>) -> bool) -> bool {
    forall|state: Seq<bool>| circuit.is_state(state) && #[trigger] region(state) ==> survives(circuit, state, region)
}

/// The controller wins from a state.
pub open spec fn winning(circuit: Circuit, state: Seq<bool>) -> bool {
    exists|region: spec_fn(Seq<bool>) -> bool| #[trigger] stays(circuit, region) && region(state)
}

/// The state with a number: latch `i` has the value of bit `i`.
pub open spec fn state_of(n: nat, latches: nat) -> Seq<bool>
    decreases latches,
{
    if latches == 0 {
        Seq::empty()
    } else {
        seq![n % 2 == 1] + state_of(n / 2, (latches - 1) as nat)
    }
}

/// The number of a state.
pub open spec fn index_of(state: Seq<bool>) -> nat
    decreases state.len(),
{
    if state.len() == 0 {
        0
    } else {
        2 * index_of(state.drop_first()) + if state[0] { 1nat } else { 0nat }
    }
}

/// Two to a power.
pub open spec fn states(latches: nat) -> nat
    decreases latches,
{
    if latches == 0 {
        1
    } else {
        2 * states((latches - 1) as nat)
    }
}

pub(crate) proof fn lemma_state_of(n: nat, latches: nat)
    requires
        n < states(latches),
    ensures
        state_of(n, latches).len() == latches,
        index_of(state_of(n, latches)) == n,
    decreases latches,
{
    if latches > 0 {
        lemma_state_of(n / 2, (latches - 1) as nat);
        assert(state_of(n, latches).drop_first() =~= state_of(n / 2, (latches - 1) as nat));
    }
}

proof fn lemma_index_of(state: Seq<bool>)
    ensures
        index_of(state) < states(state.len()),
        state_of(index_of(state), state.len()) == state,
    decreases state.len(),
{
    if state.len() > 0 {
        lemma_index_of(state.drop_first());
        assert(state =~= seq![state[0]] + state.drop_first());
    } else {
        assert(state =~= Seq::<bool>::empty());
    }
}

/// The region that a table of states stands for.
pub open spec fn region_of(table: Seq<bool>) -> spec_fn(Seq<bool>) -> bool {
    |state: Seq<bool>| index_of(state) < table.len() && table[index_of(state) as int]
}

pub(crate) fn bits(n: usize, latches: usize) -> (state: Vec<bool>)
    ensures
        state@ == state_of(n as nat, latches as nat),
{
    let mut state: Vec<bool> = Vec::new();
    let mut rest = n;
    let mut k: usize = 0;
    while k < latches
        invariant
            k <= latches,
            state_of(n as nat, latches as nat) =~= state@ + state_of(rest as nat, (latches - k) as nat),
        decreases latches - k,
    {
        state.push(rest % 2 == 1);
        rest = rest / 2;
        k += 1;
    }
    assert(state@ =~= state_of(n as nat, latches as nat));
    state
}

fn number(state: &Vec<bool>) -> (n: usize)
    requires
        state@.len() <= STATE_LIMIT,
    ensures
        n == index_of(state@),
        n < states(state@.len()),
{
    proof {
        lemma_states(state@.len());
    }
    let mut n: usize = 0;
    let mut k: usize = state.len();
    assert(state@.skip(k as int) =~= Seq::<bool>::empty());
    while k > 0
        invariant
            k <= state@.len() <= STATE_LIMIT,
            n == index_of(state@.skip(k as int)),
            n < states((state@.len() - k) as nat),
            forall|j: nat| j <= STATE_LIMIT ==> #[trigger] states(j) <= 1_073_741_824,
        decreases k,
    {
        k -= 1;
        assert(state@.skip(k as int).drop_first() =~= state@.skip(k as int + 1));
        assert(states((state@.len() - k) as nat) <= 1_073_741_824);
        n = 2 * n + if state[k] {
            1
        } else {
            0
        };
    }
    assert(state@.skip(0) =~= state@);
    n
}

proof fn lemma_states(n: nat)
    ensures
        forall|j: nat| j <= STATE_LIMIT ==> #[trigger] states(j) <= 1_073_741_824,
{
    assert forall|j: nat| j <= STATE_LIMIT implies #[trigger] states(j) <= 1_073_741_824 by {
        lemma_states_mono(j, 30);
        assert(states(30) == 1_073_741_824) by {
            reveal_with_fuel(states, 31);
        }
    }
}

proof fn lemma_states_mono(j: nat, k: nat)
    requires
        j <= k,
    ensures
        states(j) <= states(k),
    decreases k,
{
    if j < k {
        lemma_states_mono(j, (k - 1) as nat);
    }
}

impl Circuit {
    /// The value of an AIGER literal, given those of latches, inputs and
    /// gates.
    fn litval(&self, state: &Vec<bool>, inputs: &Vec<bool>, gates: &Vec<bool>, lit: u64) -> (value: bool)
        requires
            self.wf(),
            self.defines(lit),
            lit as int / 2 <= self.aiger.max_var,
            state@.len() == self.aiger.latches@.len(),
            inputs@.len() == self.aiger.inputs@.len(),
            gates@.len() <= self.aiger.ands@.len(),
        ensures
            value == self.value(
                Values { state: state@, inputs: inputs@, gates: padded(gates@, self.aiger.ands@.len()) },
                lit,
            ),
    {
        if lit == 0 {
            return false;
        }
        if lit == 1 {
            return true;
        }
        let plain = match self.classes[(lit / 2) as usize] {
            Some(Class::Input(i)) => inputs[i],
            Some(Class::Latch(i)) => state[i],
            Some(Class::Gate(i)) => i < gates.len() && gates[i],
            None => false,
        };
        plain == (lit % 2 == 0)
    }

    /// The values of all gates.
    fn evaluate_gates(&self, state: &Vec<bool>, inputs: &Vec<bool>) -> (gates: Vec<bool>)
        requires
            self.wf(),
            self.complete(),
            state@.len() == self.aiger.latches@.len(),
            inputs@.len() == self.aiger.inputs@.len(),
        ensures
            gates@ == evaluated(*self, state@, inputs@).gates,
            gates@.len() == self.aiger.ands@.len(),
    {
        let mut gates: Vec<bool> = Vec::new();
        let mut k: usize = 0;
        while k < self.aiger.ands.len()
            invariant
                self.wf(),
                self.complete(),
                state@.len() == self.aiger.latches@.len(),
                inputs@.len() == self.aiger.inputs@.len(),
                k <= self.aiger.ands@.len(),
                gates@.len() == k,
                gates@ == gates_upto(*self, state@, inputs@, k as int),
            decreases self.aiger.ands.len() - k,
        {
            let and = self.aiger.ands[k];
            assert(self.aiger.ands@[k as int].rhs0 as int / 2 <= self.aiger.max_var);
            assert(self.defines(self.aiger.ands@[k as int].rhs0));
            let value = self.litval(state, inputs, &gates, and.rhs0) && self.litval(state, inputs, &gates, and.rhs1);
            gates.push(value);
            k += 1;
        }
        gates
    }

    /// Whether no error is raised and the next state is in the table.
    fn check_step(&self, state: &Vec<bool>, inputs: &Vec<bool>, table: &Vec<bool>) -> (ok: bool)
        requires
            self.wf(),
            self.complete(),
            state@.len() == self.aiger.latches@.len(),
            state@.len() <= STATE_LIMIT,
            inputs@.len() == self.aiger.inputs@.len(),
        ensures
            ok == step_ok(*self, state@, inputs@, region_of(table@)),
    {
        let gates = self.evaluate_gates(state, inputs);
        let ghost v = evaluated(*self, state@, inputs@);
        assert(padded(gates@, self.aiger.ands@.len()) =~= v.gates);
        let mut k: usize = 0;
        while k < self.aiger.outputs.len()
            invariant
                self.wf(),
                self.complete(),
                state@.len() == self.aiger.latches@.len(),
                inputs@.len() == self.aiger.inputs@.len(),
                gates@.len() == self.aiger.ands@.len(),
                v == evaluated(*self, state@, inputs@),
                padded(gates@, self.aiger.ands@.len()) == v.gates,
                k <= self.aiger.outputs@.len(),
                forall|i: int| 0 <= i < k ==> !self.value(v, #[trigger] self.aiger.outputs@[i]),
            decreases self.aiger.outputs.len() - k,
        {
            assert(self.aiger.outputs@[k as int] as int / 2 <= self.aiger.max_var);
            assert(self.defines(self.aiger.outputs@[k as int]));
            if self.litval(state, inputs, &gates, self.aiger.outputs[k]) {
                assert(self.value(v, self.aiger.outputs@[k as int]));
                return false;
            }
            k += 1;
        }
        let mut next: Vec<bool> = Vec::new();
        let mut k: usize = 0;
        while k < self.aiger.latches.len()
            invariant
                self.wf(),
                self.complete(),
                state@.len() == self.aiger.latches@.len(),
                inputs@.len() == self.aiger.inputs@.len(),
                gates@.len() == self.aiger.ands@.len(),
                v == evaluated(*self, state@, inputs@),
                padded(gates@, self.aiger.ands@.len()) == v.gates,
                k <= self.aiger.latches@.len(),
                next@.len() == k,
                forall|i: int| 0 <= i < k ==> #[trigger] next@[i] == self.value(v, self.aiger.latches@[i].next),
            decreases self.aiger.latches.len() - k,
        {
            assert(self.aiger.latches@[k as int].next as int / 2 <= self.aiger.max_var);
            assert(self.defines(self.aiger.latches@[k as int].next));
            next.push(self.litval(state, inputs, &gates, self.aiger.latches[k].next));
            k += 1;
        }
        assert(next@ =~= self.next(v));
        let n = number(&next);
        n < table.len() && table[n]
    }

    /// Whether the controllable inputs from a position on can be set such
    /// that the step is good.
    fn some_control(&self, state: &Vec<bool>, inputs: &mut Vec<bool>, position: usize, table: &Vec<bool>) -> (found: bool)
        requires
            self.wf(),
            self.complete(),
            state@.len() == self.aiger.latches@.len(),
            state@.len() <= STATE_LIMIT,
            old(inputs)@.len() == self.aiger.inputs@.len(),
            position <= old(inputs)@.len(),
        ensures
            final(inputs)@.len() == old(inputs)@.len(),
            forall|i: int| 0 <= i < old(inputs)@.len() && (i < position || !self.controllable@[i]) ==> final(inputs)@[i] == old(inputs)@[i],
            found == exists|chosen: Seq<bool>| #[trigger]
                plays(*self, chosen, old(inputs)@) && (forall|i: int| 0 <= i < position ==> chosen[i] == old(inputs)@[i]) && step_ok(
                    *self,
                    state@,
                    chosen,
                    region_of(table@),
                ),
        decreases old(inputs)@.len() - position,
    {
        let ghost given = inputs@;
        if position >= inputs.len() {
            let ok = self.check_step(state, inputs, table);
            proof {
                if ok {
                    assert(plays(*self, given, given));
                }
                if exists|chosen: Seq<bool>| #[trigger]
                    plays(*self, chosen, given) && (forall|i: int| 0 <= i < position ==> chosen[i] == given[i]) && step_ok(
                        *self,
                        state@,
                        chosen,
                        region_of(table@),
                    ) {
                    let chosen = choose|chosen: Seq<bool>| #[trigger]
                        plays(*self, chosen, given) && (forall|i: int| 0 <= i < position ==> chosen[i] == given[i]) && step_ok(
                            *self,
                            state@,
                            chosen,
                            region_of(table@),
                        );
                    assert(chosen =~= given);
                }
            }
            return ok;
        }
        if !self.controllable[position] {
            let found = self.some_control(state, inputs, position + 1, table);
            proof {
                assert forall|chosen: Seq<bool>| #[trigger] plays(*self, chosen, given) implies chosen[position as int] == given[position as int] by {}
            }
            return found;
        }
        inputs.set(position, false);
        let ghost low = inputs@;
        if self.some_control(state, inputs, position + 1, table) {
            proof {
                let chosen = choose|chosen: Seq<bool>| #[trigger]
                    plays(*self, chosen, low) && (forall|i: int| 0 <= i < position + 1 ==> chosen[i] == low[i]) && step_ok(
                        *self,
                        state@,
                        chosen,
                        region_of(table@),
                    );
                assert(plays(*self, chosen, given));
                assert forall|i: int| 0 <= i < position implies chosen[i] == given[i] by {
                    assert(chosen[i] == low[i]);
                }
            }
            inputs.set(position, false);
            return true;
        }
        inputs.set(position, true);
        let ghost high = inputs@;
        let found = self.some_control(state, inputs, position + 1, table);
        proof {
            if found {
                let chosen = choose|chosen: Seq<bool>| #[trigger]
                    plays(*self, chosen, high) && (forall|i: int| 0 <= i < position + 1 ==> chosen[i] == high[i]) && step_ok(
                        *self,
                        state@,
                        chosen,
                        region_of(table@),
                    );
                assert(plays(*self, chosen, given));
                assert forall|i: int| 0 <= i < position implies chosen[i] == given[i] by {
                    assert(chosen[i] == high[i]);
                }
            }
            if exists|chosen: Seq<bool>| #[trigger]
                plays(*self, chosen, given) && (forall|i: int| 0 <= i < position ==> chosen[i] == given[i]) && step_ok(
                    *self,
                    state@,
                    chosen,
                    region_of(table@),
                ) {
                let chosen = choose|chosen: Seq<bool>| #[trigger]
                    plays(*self, chosen, given) && (forall|i: int| 0 <= i < position ==> chosen[i] == given[i]) && step_ok(
                        *self,
                        state@,
                        chosen,
                        region_of(table@),
                    );
                if chosen[position as int] {
                    assert(plays(*self, chosen, high));
                } else {
                    assert(plays(*self, chosen, low));
                }
            }
        }
        found
    }

    /// Whether the controller has an answer whatever the environment plays
    /// from a position on.
    fn all_moves(&self, state: &Vec<bool>, inputs: &mut Vec<bool>, position: usize, table: &Vec<bool>) -> (all: bool)
        requires
            self.wf(),
            self.complete(),
            state@.len() == self.aiger.latches@.len(),
            state@.len() <= STATE_LIMIT,
            old(inputs)@.len() == self.aiger.inputs@.len(),
            position <= old(inputs)@.len(),
        ensures
            final(inputs)@.len() == old(inputs)@.len(),
            forall|i: int| 0 <= i < position && !self.controllable@[i] ==> final(inputs)@[i] == old(inputs)@[i],
            all == forall|env: Seq<bool>| #[trigger]
                self.is_move(env) && (forall|i: int| 0 <= i < position && !self.controllable@[i] ==> env[i] == old(inputs)@[i]) ==> has_answer(
                    *self,
                    state@,
                    env,
                    region_of(table@),
                ),
        decreases old(inputs)@.len() - position,
    {
        let ghost given = inputs@;
        let ghost region = region_of(table@);
        if position >= inputs.len() {
            let found = self.some_control(state, inputs, 0, table);
            proof {
                assert(found == has_answer(*self, state@, given, region)) by {
                    if has_answer(*self, state@, given, region) {
                        let chosen = choose|chosen: Seq<bool>| #[trigger] plays(*self, chosen, given) && step_ok(*self, state@, chosen, region);
                    }
                }
                assert forall|env: Seq<bool>| #[trigger] self.is_move(env) && (forall|i: int|
                    0 <= i < position && !self.controllable@[i] ==> env[i] == given[i]) implies has_answer(*self, state@, env, region)
                    == found by {
                    if has_answer(*self, state@, given, region) {
                        let chosen = choose|chosen: Seq<bool>| #[trigger] plays(*self, chosen, given) && step_ok(*self, state@, chosen, region);
                        assert(plays(*self, chosen, env));
                    }
                    if has_answer(*self, state@, env, region) {
                        let chosen = choose|chosen: Seq<bool>| #[trigger] plays(*self, chosen, env) && step_ok(*self, state@, chosen, region);
                        assert(plays(*self, chosen, given));
                    }
                }
                assert(self.is_move(given));
            }
            return found;
        }
        if self.controllable[position] {
            return self.all_moves(state, inputs, position + 1, table);
        }
        inputs.set(position, false);
        let ghost low = inputs@;
        if !self.all_moves(state, inputs, position + 1, table) {
            proof {
                let env = choose|env: Seq<bool>| #[trigger]
                    self.is_move(env) && (forall|i: int| 0 <= i < position + 1 && !self.controllable@[i] ==> env[i] == low[i]) && !has_answer(
                        *self,
                        state@,
                        env,
                        region,
                    );
                assert forall|i: int| 0 <= i < position && !self.controllable@[i] implies env[i] == given[i] by {
                    assert(env[i] == low[i]);
                }
            }
            return false;
        }
        inputs.set(position, true);
        let ghost high = inputs@;
        assert forall|i: int| 0 <= i < position && !self.controllable@[i] implies high[i] == given[i] by {
            assert(low[i] == given[i]);
        }
        let all = self.all_moves(state, inputs, position + 1, table);
        proof {
            if all {
                assert forall|env: Seq<bool>| #[trigger] self.is_move(env) && (forall|i: int|
                    0 <= i < position && !self.controllable@[i] ==> env[i] == given[i]) implies has_answer(*self, state@, env, region) by {
                    if env[position as int] {
                        assert forall|i: int| 0 <= i < position + 1 && !self.controllable@[i] implies env[i] == high[i] by {}
                    } else {
                        assert forall|i: int| 0 <= i < position + 1 && !self.controllable@[i] implies env[i] == low[i] by {}
                    }
                }
            } else {
                let env = choose|env: Seq<bool>| #[trigger]
                    self.is_move(env) && (forall|i: int| 0 <= i < position + 1 && !self.controllable@[i] ==> env[i] == high[i]) && !has_answer(
                        *self,
                        state@,
                        env,
                        region,
                    );
                assert forall|i: int| 0 <= i < position && !self.controllable@[i] implies env[i] == given[i] by {
                    assert(env[i] == high[i]);
                }
            }
        }
        all
    }
}

/// The number of states that a table holds.
pub(crate) open spec fn count_true(table: Seq<bool>) -> nat
    decreases table.len(),
{
    if table.len() == 0 {
        0
    } else {
        count_true(table.drop_last()) + if table.last() { 1nat } else { 0nat }
    }
}

pub(crate) proof fn lemma_count(before: Seq<bool>, after: Seq<bool>, at: int)
    requires
        before.len() == after.len(),
        forall|i: int| 0 <= i < before.len() && after[i] ==> #[trigger] before[i],
    ensures
        count_true(after) <= count_true(before),
        0 <= at < before.len() && before[at] && !after[at] ==> count_true(after) < count_true(before),
    decreases before.len(),
{
    if before.len() > 0 {
        let b = before.drop_last();
        let c = after.drop_last();
        assert forall|i: int| 0 <= i < b.len() && c[i] implies #[trigger] b[i] by {
            assert(after[i] && before[i] == b[i]);
        }
        lemma_count(b, c, at);
        let last = before.len() - 1;
        assert(after[last] ==> before[last]);
    }
}

/// States that win are kept by an iteration that keeps them so far.
proof fn lemma_winning_kept(circuit: Circuit, table: Seq<bool>, state: Seq<bool>)
    requires
        circuit.is_state(state),
        winning(circuit, state),
        forall|s: Seq<bool>| circuit.is_state(s) && #[trigger] winning(circuit, s) ==> region_of(table)(s),
    ensures
        survives(circuit, state, region_of(table)),
{
    let region = choose|region: spec_fn(Seq<bool>) -> bool| #[trigger] stays(circuit, region) && region(state);
    assert forall|env: Seq<bool>| #[trigger] circuit.is_move(env) implies has_answer(circuit, state, env, region_of(table)) by {
        assert(has_answer(circuit, state, env, region));
        let inputs = choose|inputs: Seq<bool>| #[trigger] plays(circuit, inputs, env) && step_ok(circuit, state, inputs, region);
        let next = circuit.next(evaluated(circuit, state, inputs));
        assert(winning(circuit, next));
        assert(circuit.is_state(next));
        assert(step_ok(circuit, state, inputs, region_of(table)));
    }
}

/// The exact winning region of a safety game, by explicit backward
/// iteration over the state space: start with every state and drop those
/// from which some environment move defeats every controller move, until
/// nothing changes.
fn winning_region(circuit: &Circuit) -> (table: Vec<bool>)
    requires
        circuit.wf(),
        circuit.complete(),
        circuit.aiger.latches@.len() <= STATE_LIMIT,
    ensures
        table@.len() == states(circuit.aiger.latches@.len()),
        forall|n: int|
            0 <= n < table@.len() ==> #[trigger] table@[n] == winning(*circuit, state_of(n as nat, circuit.aiger.latches@.len())),
{
    let latches = circuit.aiger.latches.len();
    let ghost l = latches as nat;
    proof {
        lemma_states(l);
        assert(states(l) <= 1_073_741_824);
    }
    let mut count: usize = 1;
    let mut k: usize = 0;
    while k < latches
        invariant
            k <= latches <= STATE_LIMIT,
            count == states(k as nat),
            forall|j: nat| j <= STATE_LIMIT ==> #[trigger] states(j) <= 1_073_741_824,
        decreases latches - k,
    {
        assert(states((k + 1) as nat) <= 1_073_741_824);
        count = 2 * count;
        k += 1;
    }
    let mut table: Vec<bool> = Vec::new();
    while table.len() < count
        invariant
            table@.len() <= count,
            forall|n: int| 0 <= n < table@.len() ==> #[trigger] table@[n],
        decreases count - table.len(),
    {
        table.push(true);
    }
    let mut inputs: Vec<bool> = Vec::new();
    while inputs.len() < circuit.aiger.inputs.len()
        invariant
            inputs@.len() <= circuit.aiger.inputs@.len(),
        decreases circuit.aiger.inputs.len() - inputs.len(),
    {
        inputs.push(false);
    }
    proof {
        assert forall|s: Seq<bool>| circuit.is_state(s) && #[trigger] winning(*circuit, s) implies region_of(table@)(s) by {
            lemma_index_of(s);
        }
    }
    loop
        invariant
            circuit.wf(),
            circuit.complete(),
            l == circuit.aiger.latches@.len(),
            latches == l,
            l <= STATE_LIMIT,
            count == states(l),
            table@.len() == count,
            inputs@.len() == circuit.aiger.inputs@.len(),
            forall|s: Seq<bool>| circuit.is_state(s) && #[trigger] winning(*circuit, s) ==> region_of(table@)(s),
        decreases count_true(table@),
    {
        let ghost region = region_of(table@);
        let mut next: Vec<bool> = Vec::new();
        let mut changed: Option<usize> = None;
        let mut n: usize = 0;
        while n < count
            invariant
                n <= count,
                circuit.wf(),
                circuit.complete(),
                l == circuit.aiger.latches@.len(),
                latches == l,
                l <= STATE_LIMIT,
                count == states(l),
                table@.len() == count,
                region == region_of(table@),
                inputs@.len() == circuit.aiger.inputs@.len(),
                next@.len() == n,
                forall|i: int| 0 <= i < n ==> #[trigger] next@[i] == (table@[i] && survives(*circuit, state_of(i as nat, l), region)),
                match changed {
                    Some(at) => at < n && table@[at as int] && !next@[at as int],
                    None => forall|i: int| 0 <= i < n ==> next@[i] == #[trigger] table@[i],
                },
            decreases count - n,
        {
            if table[n] {
                let state = bits(n, latches);
                proof {
                    lemma_state_of(n as nat, l);
                }
                let survives_here = circuit.all_moves(&state, &mut inputs, 0, &table);
                if !survives_here && changed.is_none() {
                    changed = Some(n);
                }
                next.push(survives_here);
            } else {
                next.push(false);
            }
            n += 1;
        }
        proof {
            assert forall|s: Seq<bool>| circuit.is_state(s) && #[trigger] winning(*circuit, s) implies region_of(next@)(s) by {
                lemma_index_of(s);
                lemma_winning_kept(*circuit, table@, s);
            }
        }
        match changed {
            None => {
                proof {
                    assert(next@ =~= table@);
                    assert forall|s: Seq<bool>| circuit.is_state(s) && #[trigger] region(s) implies survives(*circuit, s, region) by {
                        lemma_index_of(s);
                        assert(next@[index_of(s) as int]);
                    }
                    assert(stays(*circuit, region));
                    assert forall|n: int| 0 <= n < table@.len() implies #[trigger] table@[n] == winning(*circuit, state_of(n as nat, l)) by {
                        lemma_state_of(n as nat, l);
                        if table@[n] {
                            assert(region(state_of(n as nat, l)));
                        }
                    }
                }
                return table;
            },
            Some(at) => {
                proof {
                    lemma_count(table@, next@, at as int);
                }
                table = next;
            },
        }
    }
}

/// What listing the losing states of a text gives.
pub open spec fn lists_losing(text: Seq<char>, latches: usize, result: Result<Vec<bool>, ParseError>) -> bool {
    match result {
        Ok(table) => exists|circuit: Circuit| #[trigger]
            reads_circuit(text, Ok(circuit)) && circuit.complete() && circuit.aiger.latches@.len() == latches && table@.len() == states(
                latches as nat,
            ) && forall|n: int| 0 <= n < table@.len() ==> #[trigger] table@[n] == !winning(circuit, state_of(n as nat, latches as nat)),
        Err(error) => reads_circuit(text, Err(error)) || exists|circuit: Circuit| #[trigger]
            reads_circuit(text, Ok(circuit)) && error.line == 1 && if !circuit.complete() {
                error.message@ == "an undefined variable is read"@
            } else if circuit.aiger.latches@.len() != latches {
                error.message@ == "the number of latches is another"@
            } else {
                latches > STATE_LIMIT && error.message@ == "the game is too large"@
            },
    }
}

/// The states from which the controller loses, by explicit backward
/// iteration over the whole state space.
pub fn losing_states(input: &str, latches: usize) -> (result: Result<Vec<bool>, ParseError>)
    ensures
        lists_losing(input@, latches, result),
{
    let circuit = match parse_circuit(input) {
        Err(error) => {
            return Err(error);
        },
        Ok(circuit) => circuit,
    };
    assert(reads_circuit(input@, Ok(circuit)));
    if !circuit.is_complete() {
        return Err(first_line_error("an undefined variable is read"));
    }
    if circuit.aiger.latches.len() != latches {
        return Err(first_line_error("the number of latches is another"));
    }
    if latches > STATE_LIMIT {
        return Err(first_line_error("the game is too large"));
    }
    let table = winning_region(&circuit);
    let mut losing: Vec<bool> = Vec::new();
    let mut k: usize = 0;
    while k < table.len()
        invariant
            k <= table@.len(),
            losing@.len() == k,
            forall|n: int| 0 <= n < k ==> #[trigger] losing@[n] == !table@[n],
        decreases table.len() - k,
    {
        losing.push(!table[k]);
        k += 1;
    }
    proof {
        assert forall|n: int| 0 <= n < losing@.len() implies #[trigger] losing@[n] == !winning(circuit, state_of(n as nat, latches as nat)) by {
            assert(table@[n] == winning(circuit, state_of(n as nat, circuit.aiger.latches@.len())));
        }
    }
    Ok(losing)
}

/// The literal reads no gate from a position on.
pub open spec fn reads_before(circuit: Circuit, lit: u64, gate: int) -> bool {
    lit < 2 || (circuit.classes@[lit as int / 2] matches Some(Class::Gate(i)) ==> i < gate)
}

/// Every gate reads gates before it only.
pub open spec fn ordered(circuit: Circuit) -> bool {
    forall|g: int|
        0 <= g < circuit.aiger.ands@.len() ==> reads_before(circuit, (#[trigger] circuit.aiger.ands@[g]).rhs0, g) && reads_before(
            circuit,
            circuit.aiger.ands@[g].rhs1,
            g,
        )
}

proof fn lemma_gates_len(circuit: Circuit, state: Seq<bool>, inputs: Seq<bool>, count: int)
    requires
        0 <= count,
    ensures
        gates_upto(circuit, state, inputs, count).len() == count,
    decreases count,
{
    if count > 0 {
        lemma_gates_len(circuit, state, inputs, count - 1);
    }
}

proof fn lemma_gates_prefix(circuit: Circuit, state: Seq<bool>, inputs: Seq<bool>, low: int, high: int)
    requires
        0 <= low <= high,
    ensures
        gates_upto(circuit, state, inputs, high).len() == high,
        gates_upto(circuit, state, inputs, low) == gates_upto(circuit, state, inputs, high).take(low),
    decreases high,
{
    lemma_gates_len(circuit, state, inputs, high);
    lemma_gates_len(circuit, state, inputs, low);
    if low < high {
        lemma_gates_prefix(circuit, state, inputs, low, high - 1);
        lemma_gates_len(circuit, state, inputs, high - 1);
        assert(gates_upto(circuit, state, inputs, high).take(low) =~= gates_upto(circuit, state, inputs, high - 1).take(low));
    } else {
        assert(gates_upto(circuit, state, inputs, high).take(low) =~= gates_upto(circuit, state, inputs, high));
    }
}

/// Evaluating the gates of an ordered circuit in file order gives them the
/// values of their conjunctions.
pub proof fn law_evaluation_is_consistent(circuit: Circuit, state: Seq<bool>, inputs: Seq<bool>)
    requires
        circuit.wf(),
        ordered(circuit),
        circuit.is_state(state),
        circuit.is_move(inputs),
    ensures
        circuit.consistent(evaluated(circuit, state, inputs)),
{
    let n = circuit.aiger.ands@.len() as int;
    let v = evaluated(circuit, state, inputs);
    lemma_gates_len(circuit, state, inputs, n);
    assert forall|g: int| 0 <= g < n implies #[trigger] v.gates[g] == (circuit.value(v, circuit.aiger.ands@[g].rhs0) && circuit.value(
        v,
        circuit.aiger.ands@[g].rhs1,
    )) by {
        lemma_gates_prefix(circuit, state, inputs, g, n);
        lemma_gates_prefix(circuit, state, inputs, g + 1, n);
        let before = gates_upto(circuit, state, inputs, g);
        let w = Values { state, inputs, gates: padded(before, circuit.aiger.ands@.len()) };
        assert(reads_before(circuit, circuit.aiger.ands@[g].rhs0, g));
        assert(before =~= v.gates.take(g));
        assert forall|i: int| 0 <= i < g implies w.gates[i] == v.gates[i] by {
            assert(before[i] == v.gates[i]);
        }
        assert(circuit.value(w, circuit.aiger.ands@[g].rhs0) == circuit.value(v, circuit.aiger.ands@[g].rhs0));
        assert(circuit.value(w, circuit.aiger.ands@[g].rhs1) == circuit.value(v, circuit.aiger.ands@[g].rhs1));
        assert(gates_upto(circuit, state, inputs, g + 1)[g] == v.gates[g]);
    }
}

/// The values of the gates of an ordered circuit are unique.
pub proof fn law_consistent_values_are_unique(circuit: Circuit, v: Values)
    requires
        circuit.wf(),
        ordered(circuit),
        circuit.consistent(v),
    ensures
        v == evaluated(circuit, v.state, v.inputs),
{
    let n = circuit.aiger.ands@.len() as int;
    lemma_unique_upto(circuit, v, n);
    lemma_gates_len(circuit, v.state, v.inputs, n);
    assert(v.gates =~= gates_upto(circuit, v.state, v.inputs, n));
}

proof fn lemma_unique_upto(circuit: Circuit, v: Values, count: int)
    requires
        circuit.wf(),
        ordered(circuit),
        circuit.consistent(v),
        0 <= count <= circuit.aiger.ands@.len(),
    ensures
        forall|g: int| 0 <= g < count ==> v.gates[g] == #[trigger] gates_upto(circuit, v.state, v.inputs, count)[g],
    decreases count,
{
    if count > 0 {
        lemma_unique_upto(circuit, v, count - 1);
        lemma_gates_len(circuit, v.state, v.inputs, count - 1);
        let g = count - 1;
        let before = gates_upto(circuit, v.state, v.inputs, g);
        let w = Values { state: v.state, inputs: v.inputs, gates: padded(before, circuit.aiger.ands@.len()) };
        assert(reads_before(circuit, circuit.aiger.ands@[g].rhs0, g));
        assert forall|i: int| 0 <= i < g implies w.gates[i] == v.gates[i] by {
            assert(before[i] == v.gates[i]);
        }
        assert(circuit.value(w, circuit.aiger.ands@[g].rhs0) == circuit.value(v, circuit.aiger.ands@[g].rhs0));
        assert(circuit.value(w, circuit.aiger.ands@[g].rhs1) == circuit.value(v, circuit.aiger.ands@[g].rhs1));
        assert forall|i: int| 0 <= i < count implies v.gates[i] == #[trigger] gates_upto(circuit, v.state, v.inputs, count)[i] by {
            if i < g {
                assert(before[i] == v.gates[i]);
            }
        }
    }
}

/// In an ordered circuit gates have values for every state and all inputs.
pub proof fn law_ordered_circuits_are_total(circuit: Circuit)
    requires
        circuit.wf(),
        ordered(circuit),
    ensures
        circuit.total(),
{
    assert forall|state: Seq<bool>, inputs: Seq<bool>| circuit.is_state(state) && circuit.is_move(inputs) implies #[trigger] circuit.settles(
        state,
        inputs,
    ) by {
        law_evaluation_is_consistent(circuit, state, inputs);
        assert(circuit.consistent(evaluated(circuit, state, inputs)));
    }
}

/// On an ordered circuit, explicit iteration and refinement by the solver
/// speak of the same game.
pub proof fn law_explicit_game_is_the_game(circuit: Circuit, state: Seq<bool>)
    requires
        circuit.wf(),
        ordered(circuit),
        circuit.is_state(state),
    ensures
        winning(circuit, state) == circuit.wins(state),
{
    if winning(circuit, state) {
        let region = choose|region: spec_fn(Seq<bool>) -> bool| #[trigger] stays(circuit, region) && region(state);
        assert forall|s: Seq<bool>| circuit.is_state(s) && #[trigger] region(s) implies circuit.controls(s, region) by {
            assert(survives(circuit, s, region));
            assert forall|env: Seq<bool>| #[trigger] circuit.is_move(env) implies circuit.responds(s, env, region) by {
                assert(has_answer(circuit, s, env, region));
                let inputs = choose|inputs: Seq<bool>| #[trigger] plays(circuit, inputs, env) && step_ok(circuit, s, inputs, region);
                let v = evaluated(circuit, s, inputs);
                law_evaluation_is_consistent(circuit, s, inputs);
                assert(circuit.answers(v, s, env));
            }
        }
        assert(circuit.invariant_region(region));
    }
    if circuit.wins(state) {
        let region = choose|region: spec_fn(Seq<bool>) -> bool| #[trigger] circuit.invariant_region(region) && region(state);
        assert forall|s: Seq<bool>| circuit.is_state(s) && #[trigger] region(s) implies survives(circuit, s, region) by {
            assert(circuit.controls(s, region));
            assert forall|env: Seq<bool>| #[trigger] circuit.is_move(env) implies has_answer(circuit, s, env, region) by {
                assert(circuit.responds(s, env, region));
                let v = choose|v: Values| #[trigger] circuit.answers(v, s, env) && circuit.safe(v) && region(circuit.next(v));
                law_consistent_values_are_unique(circuit, v);
                assert(plays(circuit, v.inputs, env));
            }
        }
        assert(stays(circuit, region));
    }
}

} // verus!
