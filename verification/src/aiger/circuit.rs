//! Circuits: what the variables of an AIGER file denote, and their values.
use crate::aiger::parse::{Aiger, Latch};
use crate::scan::chars_of;
use vstd::prelude::*;

verus! {

broadcast use crate::literal::group_literal;

/// What an AIGER variable denotes, by position in its section.
#[derive(Debug, Clone, Copy, PartialEq, Eq, Structural)]
pub enum Class {
    Input(usize),
    Latch(usize),
    Gate(usize),
}

/// The name starts with the text.
pub open spec fn starts_with(name: Seq<char>, text: Seq<char>) -> bool {
    name.len() >= text.len() && name.take(text.len() as int) == text
}

/// Whether an input symbol name marks a controllable (existential) input:
/// the QAIGER convention (`"2 "`) or the SYNTCOMP synthesis convention
/// (`"controllable_"`).
pub open spec fn controllable_name(name: Seq<char>) -> bool {
    starts_with(name, "2 "@) || starts_with(name, "controllable_"@)
}

/// An input is controllable by either convention, and by no other name.
pub proof fn law_controllable_names(name: Seq<char>, rest: Seq<char>)
    ensures
        name == "2 "@ + rest ==> controllable_name(name),
        name == "controllable_"@ + rest ==> controllable_name(name),
        controllable_name(name) ==> exists|end: Seq<char>| name == #[trigger] ("2 "@ + end) || name == "controllable_"@ + end,
{
    if name == "2 "@ + rest {
        assert(name.take("2 "@.len() as int) =~= "2 "@);
    }
    if name == "controllable_"@ + rest {
        assert(name.take("controllable_"@.len() as int) =~= "controllable_"@);
    }
    if starts_with(name, "2 "@) {
        let end = name.skip("2 "@.len() as int);
        assert(name =~= "2 "@ + end);
    } else if starts_with(name, "controllable_"@) {
        let end = name.skip("controllable_"@.len() as int);
        assert(name =~= "controllable_"@ + end);
        let same = "2 "@ + end;
    }
}

fn has_start(name: &Vec<char>, text: &str) -> (yes: bool)
    ensures
        yes == starts_with(name@, text@),
{
    let start = chars_of(text);
    if name.len() < start.len() {
        return false;
    }
    let mut k: usize = 0;
    while k < start.len()
        invariant
            k <= start@.len() <= name@.len(),
            start@ == text@,
            forall|i: int| 0 <= i < k ==> name@[i] == start@[i],
        decreases start.len() - k,
    {
        if name[k] != start[k] {
            assert(name@.take(text@.len() as int)[k as int] != text@[k as int]);
            return false;
        }
        k += 1;
    }
    assert(name@.take(text@.len() as int) =~= text@);
    true
}

fn is_controllable(name: &Vec<char>) -> (yes: bool)
    ensures
        yes == controllable_name(name@),
{
    has_start(name, "2 ") || has_start(name, "controllable_")
}

/// The input at a position is controllable.
pub open spec fn input_controllable(aiger: Aiger, position: int) -> bool {
    aiger.input_names@[position] matches Some(name) && controllable_name(name@)
}

/// What a variable denotes: its last definition, gates after latches after
/// inputs.
pub open spec fn class_at(aiger: Aiger, inputs: int, latches: int, ands: int, var: int) -> Option<Class>
    decreases inputs, latches, ands,
    when 0 <= inputs && 0 <= latches && 0 <= ands
{
    if ands > 0 {
        if aiger.ands@[ands - 1].lhs as int / 2 == var {
            Some(Class::Gate((ands - 1) as usize))
        } else {
            class_at(aiger, inputs, latches, ands - 1, var)
        }
    } else if latches > 0 {
        if aiger.latches@[latches - 1].lit as int / 2 == var {
            Some(Class::Latch((latches - 1) as usize))
        } else {
            class_at(aiger, inputs, latches - 1, 0, var)
        }
    } else if inputs > 0 {
        if aiger.inputs@[inputs - 1] as int / 2 == var {
            Some(Class::Input((inputs - 1) as usize))
        } else {
            class_at(aiger, inputs - 1, 0, 0, var)
        }
    } else {
        None
    }
}

/// What a variable of the file denotes.
pub open spec fn class_of(aiger: Aiger, var: int) -> Option<Class> {
    class_at(aiger, aiger.inputs@.len() as int, aiger.latches@.len() as int, aiger.ands@.len() as int, var)
}

/// A class is a position of its section.
pub proof fn lemma_class(aiger: Aiger, inputs: int, latches: int, ands: int, var: int)
    requires
        0 <= inputs <= aiger.inputs@.len(),
        0 <= latches <= aiger.latches@.len(),
        0 <= ands <= aiger.ands@.len(),
        aiger.inputs@.len() <= usize::MAX,
        aiger.latches@.len() <= usize::MAX,
        aiger.ands@.len() <= usize::MAX,
    ensures
        match class_at(aiger, inputs, latches, ands, var) {
            Some(Class::Input(i)) => i < inputs,
            Some(Class::Latch(i)) => i < latches,
            Some(Class::Gate(i)) => i < ands,
            None => true,
        },
    decreases inputs, latches, ands,
{
    if ands > 0 {
        lemma_class(aiger, inputs, latches, ands - 1, var);
    } else if latches > 0 {
        lemma_class(aiger, inputs, latches - 1, 0, var);
    } else if inputs > 0 {
        lemma_class(aiger, inputs - 1, 0, 0, var);
    }
}

/// Every literal is on a variable up to the largest one.
pub open spec fn literals_in_range(aiger: Aiger) -> bool {
    &&& forall|i: int| 0 <= i < aiger.inputs@.len() ==> (#[trigger] aiger.inputs@[i]) as int / 2 <= aiger.max_var
    &&& forall|i: int|
        0 <= i < aiger.latches@.len() ==> (#[trigger] aiger.latches@[i]).lit as int / 2 <= aiger.max_var && aiger.latches@[i].next as int / 2
            <= aiger.max_var
    &&& forall|i: int| 0 <= i < aiger.outputs@.len() ==> (#[trigger] aiger.outputs@[i]) as int / 2 <= aiger.max_var
    &&& forall|i: int|
        0 <= i < aiger.ands@.len() ==> (#[trigger] aiger.ands@[i]).lhs as int / 2 <= aiger.max_var && aiger.ands@[i].rhs0 as int / 2
            <= aiger.max_var && aiger.ands@[i].rhs1 as int / 2 <= aiger.max_var
}

/// Whether every literal is on a variable up to the largest one.
pub fn is_in_range(aiger: &Aiger) -> (yes: bool)
    ensures
        yes == literals_in_range(*aiger),
{
    let max = aiger.max_var;
    let mut k: usize = 0;
    while k < aiger.inputs.len()
        invariant
            max == aiger.max_var,
            k <= aiger.inputs@.len(),
            forall|i: int| 0 <= i < k ==> (#[trigger] aiger.inputs@[i]) as int / 2 <= max,
        decreases aiger.inputs.len() - k,
    {
        if aiger.inputs[k] / 2 > max {
            assert(aiger.inputs@[k as int] as int / 2 > max);
            return false;
        }
        k += 1;
    }
    let mut k: usize = 0;
    while k < aiger.latches.len()
        invariant
            max == aiger.max_var,
            k <= aiger.latches@.len(),
            forall|i: int|
                0 <= i < k ==> (#[trigger] aiger.latches@[i]).lit as int / 2 <= max && aiger.latches@[i].next as int / 2 <= max,
        decreases aiger.latches.len() - k,
    {
        if aiger.latches[k].lit / 2 > max || aiger.latches[k].next / 2 > max {
            assert(aiger.latches@[k as int].lit as int / 2 > max || aiger.latches@[k as int].next as int / 2 > max);
            return false;
        }
        k += 1;
    }
    let mut k: usize = 0;
    while k < aiger.outputs.len()
        invariant
            max == aiger.max_var,
            k <= aiger.outputs@.len(),
            forall|i: int| 0 <= i < k ==> (#[trigger] aiger.outputs@[i]) as int / 2 <= max,
        decreases aiger.outputs.len() - k,
    {
        if aiger.outputs[k] / 2 > max {
            assert(aiger.outputs@[k as int] as int / 2 > max);
            return false;
        }
        k += 1;
    }
    let mut k: usize = 0;
    while k < aiger.ands.len()
        invariant
            max == aiger.max_var,
            k <= aiger.ands@.len(),
            forall|i: int|
                0 <= i < k ==> (#[trigger] aiger.ands@[i]).lhs as int / 2 <= max && aiger.ands@[i].rhs0 as int / 2 <= max
                    && aiger.ands@[i].rhs1 as int / 2 <= max,
        decreases aiger.ands.len() - k,
    {
        let and = &aiger.ands[k];
        if and.lhs / 2 > max || and.rhs0 / 2 > max || and.rhs1 / 2 > max {
            assert(aiger.ands@[k as int].lhs as int / 2 > max || aiger.ands@[k as int].rhs0 as int / 2 > max || aiger.ands@[k as int].rhs1 as int / 2 > max);
            return false;
        }
        k += 1;
    }
    true
}

/// A circuit with the classes of its variables and the controllability of
/// its inputs.
#[derive(Debug)]
pub struct Circuit {
    pub aiger: Aiger,
    /// controllability of each input, by input position
    pub controllable: Vec<bool>,
    /// what each AIGER variable denotes, indexed by variable number
    pub classes: Vec<Option<Class>>,
}

/// The file is within the limits: every literal is on a variable up to the
/// largest one, and neither that nor the number of entries is too large.
pub open spec fn fits(aiger: Aiger) -> bool {
    &&& literals_in_range(aiger)
    &&& aiger.max_var < CIRCUIT_LIMIT
    &&& aiger.inputs@.len() + 2 * aiger.latches@.len() + aiger.ands@.len() < ENTRY_LIMIT
}

/// The largest variable is below this limit, so that one more has a
/// DIMACS number.
pub const CIRCUIT_LIMIT: u64 = 2_147_483_647;

/// The number of entries is below this limit, so that a step of the game
/// can be numbered twice.
pub const ENTRY_LIMIT: u64 = 1_000_000_000;

impl Circuit {
    /// The tables say what the file says, and every literal is on a
    /// variable up to the largest one.
    pub open spec fn wf(&self) -> bool {
        &&& fits(self.aiger)
        &&& self.aiger.input_names@.len() == self.aiger.inputs@.len()
        &&& self.controllable@.len() == self.aiger.inputs@.len()
        &&& forall|i: int| 0 <= i < self.controllable@.len() ==> #[trigger] self.controllable@[i] == input_controllable(self.aiger, i)
        &&& self.classes@.len() == self.aiger.max_var + 1
        &&& forall|v: int| 0 <= v < self.classes@.len() ==> #[trigger] self.classes@[v] == class_of(self.aiger, v)
        &&& forall|v: int|
            0 <= v < self.classes@.len() ==> match #[trigger] self.classes@[v] {
                Some(Class::Input(i)) => i < self.aiger.inputs@.len(),
                Some(Class::Latch(i)) => i < self.aiger.latches@.len(),
                Some(Class::Gate(i)) => i < self.aiger.ands@.len(),
                None => true,
            }
    }

    /// The circuit of a file; `None` if a literal is beyond the largest
    /// variable, or that is beyond the limit.
    pub fn new(aiger: Aiger) -> (result: Option<Circuit>)
        requires
            aiger.input_names@.len() == aiger.inputs@.len(),
        ensures
            result is Some <==> fits(aiger),
            result matches Some(circuit) ==> circuit.wf() && circuit.aiger == aiger,
    {
        if aiger.max_var >= CIRCUIT_LIMIT || !is_in_range(&aiger) {
            return None;
        }
        let entries = aiger.inputs.len() as u128 + 2 * aiger.latches.len() as u128 + aiger.ands.len() as u128;
        if entries >= ENTRY_LIMIT as u128 {
            return None;
        }
        let mut controllable: Vec<bool> = Vec::new();
        let mut k: usize = 0;
        while k < aiger.input_names.len()
            invariant
                k <= aiger.input_names@.len(),
                controllable@.len() == k,
                forall|i: int| 0 <= i < k ==> #[trigger] controllable@[i] == input_controllable(aiger, i),
            decreases aiger.input_names.len() - k,
        {
            let yes = match &aiger.input_names[k] {
                Some(name) => is_controllable(name),
                None => false,
            };
            controllable.push(yes);
            k += 1;
        }
        let count = aiger.max_var as usize + 1;
        let mut classes: Vec<Option<Class>> = Vec::new();
        while classes.len() < count
            invariant
                classes@.len() <= count,
                forall|v: int| 0 <= v < classes@.len() ==> (#[trigger] classes@[v]) is None,
            decreases count - classes.len(),
        {
            classes.push(None);
        }
        let mut k: usize = 0;
        while k < aiger.inputs.len()
            invariant
                k <= aiger.inputs@.len(),
                literals_in_range(aiger),
                aiger.max_var < CIRCUIT_LIMIT,
                classes@.len() == aiger.max_var + 1,
                forall|v: int| 0 <= v < classes@.len() ==> #[trigger] classes@[v] == class_at(aiger, k as int, 0, 0, v),
            decreases aiger.inputs.len() - k,
        {
            assert(aiger.inputs@[k as int] as int / 2 <= aiger.max_var);
            classes.set((aiger.inputs[k] / 2) as usize, Some(Class::Input(k)));
            k += 1;
        }
        let inputs = aiger.inputs.len();
        let mut k: usize = 0;
        while k < aiger.latches.len()
            invariant
                k <= aiger.latches@.len(),
                inputs == aiger.inputs@.len(),
                literals_in_range(aiger),
                aiger.max_var < CIRCUIT_LIMIT,
                classes@.len() == aiger.max_var + 1,
                forall|v: int| 0 <= v < classes@.len() ==> #[trigger] classes@[v] == class_at(aiger, inputs as int, k as int, 0, v),
            decreases aiger.latches.len() - k,
        {
            assert(aiger.latches@[k as int].lit as int / 2 <= aiger.max_var);
            classes.set((aiger.latches[k].lit / 2) as usize, Some(Class::Latch(k)));
            k += 1;
        }
        let latches = aiger.latches.len();
        let mut k: usize = 0;
        while k < aiger.ands.len()
            invariant
                k <= aiger.ands@.len(),
                inputs == aiger.inputs@.len(),
                latches == aiger.latches@.len(),
                literals_in_range(aiger),
                aiger.max_var < CIRCUIT_LIMIT,
                classes@.len() == aiger.max_var + 1,
                forall|v: int| 0 <= v < classes@.len() ==> #[trigger] classes@[v] == class_at(aiger, inputs as int, latches as int, k as int, v),
            decreases aiger.ands.len() - k,
        {
            assert(aiger.ands@[k as int].lhs as int / 2 <= aiger.max_var);
            classes.set((aiger.ands[k].lhs / 2) as usize, Some(Class::Gate(k)));
            k += 1;
        }
        let ands = aiger.ands.len();
        proof {
            assert forall|v: int| 0 <= v < classes@.len() implies match #[trigger] classes@[v] {
                Some(Class::Input(i)) => i < aiger.inputs@.len(),
                Some(Class::Latch(i)) => i < aiger.latches@.len(),
                Some(Class::Gate(i)) => i < aiger.ands@.len(),
                None => true,
            } by {
                lemma_class(aiger, inputs as int, latches as int, ands as int, v);
            }
        }
        Some(Circuit { aiger, controllable, classes })
    }

    /// The literal is a constant or on a defined variable.
    pub open spec fn defines(&self, lit: u64) -> bool {
        lit < 2 || self.classes@[lit as int / 2] is Some
    }

    /// Every literal that the circuit reads is defined.
    pub open spec fn complete(&self) -> bool {
        &&& forall|i: int| 0 <= i < self.aiger.latches@.len() ==> self.defines((#[trigger] self.aiger.latches@[i]).next)
        &&& forall|i: int| 0 <= i < self.aiger.outputs@.len() ==> self.defines(#[trigger] self.aiger.outputs@[i])
        &&& forall|i: int|
            0 <= i < self.aiger.ands@.len() ==> self.defines((#[trigger] self.aiger.ands@[i]).rhs0) && self.defines(self.aiger.ands@[i].rhs1)
    }

    /// Whether every literal that the circuit reads is defined.
    pub fn is_complete(&self) -> (yes: bool)
        requires
            self.wf(),
        ensures
            yes == self.complete(),
    {
        let mut k: usize = 0;
        while k < self.aiger.latches.len()
            invariant
                self.wf(),
                k <= self.aiger.latches@.len(),
                forall|i: int| 0 <= i < k ==> self.defines((#[trigger] self.aiger.latches@[i]).next),
            decreases self.aiger.latches.len() - k,
        {
            let next = self.aiger.latches[k].next;
            assert(self.aiger.latches@[k as int].next as int / 2 <= self.aiger.max_var);
            if next >= 2 && self.classes[(next / 2) as usize].is_none() {
                assert(!self.defines(self.aiger.latches@[k as int].next));
                return false;
            }
            k += 1;
        }
        let mut k: usize = 0;
        while k < self.aiger.outputs.len()
            invariant
                self.wf(),
                k <= self.aiger.outputs@.len(),
                forall|i: int| 0 <= i < k ==> self.defines(#[trigger] self.aiger.outputs@[i]),
            decreases self.aiger.outputs.len() - k,
        {
            let out = self.aiger.outputs[k];
            assert(self.aiger.outputs@[k as int] as int / 2 <= self.aiger.max_var);
            if out >= 2 && self.classes[(out / 2) as usize].is_none() {
                assert(!self.defines(self.aiger.outputs@[k as int]));
                return false;
            }
            k += 1;
        }
        let mut k: usize = 0;
        while k < self.aiger.ands.len()
            invariant
                self.wf(),
                k <= self.aiger.ands@.len(),
                forall|i: int|
                    0 <= i < k ==> self.defines((#[trigger] self.aiger.ands@[i]).rhs0) && self.defines(self.aiger.ands@[i].rhs1),
            decreases self.aiger.ands.len() - k,
        {
            let and = self.aiger.ands[k];
            assert(self.aiger.ands@[k as int].rhs0 as int / 2 <= self.aiger.max_var);
            if and.rhs0 >= 2 && self.classes[(and.rhs0 / 2) as usize].is_none() {
                assert(!self.defines(self.aiger.ands@[k as int].rhs0));
                return false;
            }
            if and.rhs1 >= 2 && self.classes[(and.rhs1 / 2) as usize].is_none() {
                assert(!self.defines(self.aiger.ands@[k as int].rhs1));
                return false;
            }
            k += 1;
        }
        true
    }

    /// The value of a literal, given those of latches, inputs and gates.
    pub open spec fn value(&self, v: Values, lit: u64) -> bool {
        if lit == 0 {
            false
        } else if lit == 1 {
            true
        } else {
            let plain = match self.classes@[lit as int / 2] {
                Some(Class::Input(i)) => v.inputs[i as int],
                Some(Class::Latch(i)) => v.state[i as int],
                Some(Class::Gate(i)) => v.gates[i as int],
                None => false,
            };
            plain == (lit % 2 == 0)
        }
    }

    /// Every gate has the value of its conjunction.
    pub open spec fn consistent(&self, v: Values) -> bool {
        &&& v.state.len() == self.aiger.latches@.len()
        &&& v.inputs.len() == self.aiger.inputs@.len()
        &&& v.gates.len() == self.aiger.ands@.len()
        &&& forall|g: int| 0 <= g < self.aiger.ands@.len() ==> #[trigger] v.gates[g] == (self.value(v, self.aiger.ands@[g].rhs0) && self.value(
            v,
            self.aiger.ands@[g].rhs1,
        ))
    }

    /// Gates have values for a state and inputs.
    pub open spec fn settles(&self, state: Seq<bool>, inputs: Seq<bool>) -> bool {
        exists|v: Values| #[trigger] self.consistent(v) && v.state == state && v.inputs == inputs
    }

    /// Gates have values for every state and all inputs, as where every
    /// gate reads gates before it.
    pub open spec fn total(&self) -> bool {
        forall|state: Seq<bool>, inputs: Seq<bool>|
            self.is_state(state) && self.is_move(inputs) ==> #[trigger] self.settles(state, inputs)
    }

    /// No error signal is raised.
    pub open spec fn safe(&self, v: Values) -> bool {
        forall|i: int| 0 <= i < self.aiger.outputs@.len() ==> !self.value(v, #[trigger] self.aiger.outputs@[i])
    }

    /// The next state.
    pub open spec fn next(&self, v: Values) -> Seq<bool> {
        Seq::new(self.aiger.latches@.len(), |i: int| self.value(v, self.aiger.latches@[i].next))
    }

    /// The initial state.
    pub open spec fn initial(&self) -> Seq<bool> {
        Seq::new(self.aiger.latches@.len(), |i: int| self.aiger.latches@[i].reset == 1)
    }

    /// The values start in a state, and the uncontrollable inputs are as
    /// the environment plays them.
    pub open spec fn answers(&self, v: Values, state: Seq<bool>, env: Seq<bool>) -> bool {
        &&& self.consistent(v)
        &&& v.state == state
        &&& forall|i: int| 0 <= i < self.aiger.inputs@.len() && !self.controllable@[i] ==> #[trigger] v.inputs[i] == env[i]
    }

    /// A state: a value for every latch.
    pub open spec fn is_state(&self, state: Seq<bool>) -> bool {
        state.len() == self.aiger.latches@.len()
    }

    /// The controller can answer a move of the environment such that no
    /// error is raised and the next state is in the region.
    pub open spec fn responds(&self, state: Seq<bool>, env: Seq<bool>, region: spec_fn(Seq<bool>) -> bool) -> bool {
        exists|v: Values| #[trigger] self.answers(v, state, env) && self.safe(v) && region(self.next(v))
    }

    /// A move of the environment: a value for every input, of which those
    /// of uncontrollable ones count.
    pub open spec fn is_move(&self, env: Seq<bool>) -> bool {
        env.len() == self.aiger.inputs@.len()
    }

    /// Whatever the environment plays, the controller can avoid an error
    /// now and reach the region.
    pub open spec fn controls(&self, state: Seq<bool>, region: spec_fn(Seq<bool>) -> bool) -> bool {
        forall|env: Seq<bool>| #[trigger] self.is_move(env) ==> self.responds(state, env, region)
    }

    /// A region the controller can stay in without an error.
    pub open spec fn invariant_region(&self, region: spec_fn(Seq<bool>) -> bool) -> bool {
        forall|state: Seq<bool>| self.is_state(state) && #[trigger] region(state) ==> self.controls(state, region)
    }

    /// The controller wins the safety game from a state: the state is in a
    /// region it can stay in without an error.
    pub open spec fn wins(&self, state: Seq<bool>) -> bool {
        exists|region: spec_fn(Seq<bool>) -> bool| #[trigger] self.invariant_region(region) && region(state)
    }

    /// The controller can avoid errors for a number of steps, answering
    /// the environment move by move.
    pub open spec fn wins_for(&self, state: Seq<bool>, steps: nat) -> bool
        decreases steps, 1nat,
    {
        steps == 0 || forall|env: Seq<bool>| #[trigger] self.is_move(env) ==> self.survives(state, env, steps)
    }

    /// The controller can answer a move of the environment and avoid
    /// errors for the remaining steps.
    pub open spec fn survives(&self, state: Seq<bool>, env: Seq<bool>, steps: nat) -> bool
        decreases steps, 0nat,
    {
        steps > 0 && exists|v: Values| #[trigger] self.answers(v, state, env) && self.safe(v) && self.wins_for(self.next(v), (steps - 1) as nat)
    }
}

/// The values of latches, inputs and gates.
pub ghost struct Values {
    pub state: Seq<bool>,
    pub inputs: Seq<bool>,
    pub gates: Seq<bool>,
}

/// A controller that can stay in a region can do so for any number of
/// steps.
pub proof fn law_winning_is_winning_for_any_bound(circuit: &Circuit, state: Seq<bool>, steps: nat)
    requires
        circuit.wins(state),
        circuit.is_state(state),
    ensures
        circuit.wins_for(state, steps),
    decreases steps,
{
    if steps > 0 {
        let region = choose|region: spec_fn(Seq<bool>) -> bool| #[trigger] circuit.invariant_region(region) && region(state);
        assert(circuit.controls(state, region));
        assert forall|env: Seq<bool>| #[trigger] circuit.is_move(env) implies circuit.survives(state, env, steps) by {
            assert(circuit.responds(state, env, region));
            let v = choose|v: Values| #[trigger] circuit.answers(v, state, env) && circuit.safe(v) && region(circuit.next(v));
            let next = circuit.next(v);
            assert(circuit.wins(next));
            law_winning_is_winning_for_any_bound(circuit, next, (steps - 1) as nat);
        }
    }
}

/// A controller that avoids errors for a number of steps avoids them for
/// fewer.
pub proof fn law_longer_games_win_shorter_ones(circuit: &Circuit, state: Seq<bool>, fewer: nat, steps: nat)
    requires
        circuit.wins_for(state, steps),
        fewer <= steps,
    ensures
        circuit.wins_for(state, fewer),
    decreases steps,
{
    if 0 < fewer {
        assert forall|env: Seq<bool>| #[trigger] circuit.is_move(env) implies circuit.survives(state, env, fewer) by {
            assert(circuit.survives(state, env, steps));
            let v = choose|v: Values| #[trigger]
                circuit.answers(v, state, env) && circuit.safe(v) && circuit.wins_for(circuit.next(v), (steps - 1) as nat);
            law_longer_games_win_shorter_ones(circuit, circuit.next(v), (fewer - 1) as nat, (steps - 1) as nat);
        }
    }
}

} // verus!
