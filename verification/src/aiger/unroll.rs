//! A sequential safety specification unrolled step by step.
use crate::aiger::alternating::{
    alternating_blocks, alternating_matrix, base, error_clauses, fits_depth, gate_num, gates_clauses, holds_upto, input_num, lemma_base,
    lemma_num, lemma_play, lemma_slot, lit_at, next_clauses, numbered, play, slot_at, start_clauses, state_at, state_num, step_clauses,
    step_existentials, step_inputs, values_at, width, UNROLL_LIMIT,
};
use crate::aiger::circuit::{Circuit, Class, Values};
use crate::aiger::parse::ParseError;
use crate::aiger::qaiger::{lemma_unit, parse_circuit, reads_circuit};
use crate::aiger::safety::{declare_fresh, define, lemma_number, lemma_one, lemma_two};
use crate::incremental::stack::{firsts, lemma_firsts, stacked_existentials, stacked_universals};
use crate::incremental::{clause_of, lit_numbered, IncrementalSolver};
use crate::literal::{lit_of, var_of, Lit, Var};
use crate::qcnf::{matrix_of, prefix_of, QCNF};
use crate::quantifier::QuantTy;
use crate::semantics::{
    agree_off, formula_true, lemma_exists_block, lemma_forall_block, lit_true, matrix_true, qbf, with_block, Assignment, Matrix, Prefix,
};
use vstd::prelude::*;

verus! {

broadcast use crate::literal::group_literal;

/// A sequential AIGER safety specification unrolled step by step into an
/// incremental solver: the per-depth bounded safety queries of a synthesis
/// loop.
///
/// Outputs (and bad signals) are *error* signals that the controllable
/// inputs must keep false at every step against every play of the
/// uncontrollable inputs; latches start at their reset values and advance
/// by their next-state functions. Each [`Unroller::step`] declares fresh
/// copies of the inputs and gates, connects the latches to the previous
/// step, and asserts the error signals false; solving after `k` steps asks
/// whether the system stays safe for `k` steps.
///
/// The Skolem function of a controllable input at a step may depend on the
/// whole universal input sequence, including later steps. A satisfiable
/// depth is therefore a *necessary* condition for realizability, and an
/// unsatisfiable depth refutes it outright.
pub struct Unroller {
    circuit: Circuit,
    /// solver variable of the constant true, allocated on the first step
    true_var: Option<u32>,
    /// solver variables of the latches at the frontier time step
    latch_vars: Vec<u32>,
    /// solver variables of the inputs of the most recent step, by input
    /// position
    input_vars: Vec<u32>,
    /// every input variable declared so far: `(solver var, step,
    /// controllable)` with steps numbered from 1
    declared_inputs: Vec<(u32, u32, bool)>,
    depth: u32,
}

/// The solver variables of a step.
pub ghost struct Wires {
    pub truth: u32,
    pub latches: Seq<u32>,
    pub inputs: Seq<u32>,
    pub gates: Seq<u32>,
    pub nexts: Seq<u32>,
}

/// Consecutive numbers.
pub open spec fn run(from: int, count: nat) -> Seq<u32> {
    Seq::new(count, |i: int| (from + i) as u32)
}

/// The values of variables.
pub open spec fn read(a: Assignment, vars: Seq<u32>) -> Seq<bool> {
    Seq::new(vars.len(), |i: int| a(var_of(vars[i] as int)))
}

impl Wires {
    /// The values of the circuit at the step.
    pub open spec fn values(self, a: Assignment) -> Values {
        Values { state: read(a, self.latches), inputs: read(a, self.inputs), gates: read(a, self.gates) }
    }

    /// There is a variable below the bound for every wire.
    pub open spec fn fit(self, c: Circuit, bound: u32) -> bool {
        &&& self.latches.len() == c.aiger.latches@.len()
        &&& self.inputs.len() == c.aiger.inputs@.len()
        &&& self.gates.len() == c.aiger.ands@.len()
        &&& 0 < self.truth < bound <= UNROLL_LIMIT
        &&& forall|i: int| 0 <= i < self.latches.len() ==> 0 < #[trigger] self.latches[i] < bound
        &&& forall|i: int| 0 <= i < self.inputs.len() ==> 0 < #[trigger] self.inputs[i] < bound
        &&& forall|i: int| 0 <= i < self.gates.len() ==> 0 < #[trigger] self.gates[i] < bound
    }

    /// The number that a literal is on.
    pub open spec fn slot(self, c: Circuit, lit: u64) -> u32 {
        if lit < 2 {
            self.truth
        } else {
            match c.classes@[lit as int / 2] {
                Some(Class::Input(i)) => self.inputs[i as int],
                Some(Class::Latch(i)) => self.latches[i as int],
                Some(Class::Gate(i)) => self.gates[i as int],
                None => 0,
            }
        }
    }

    /// The gates have their values, no error fires, and the next state is
    /// that of the circuit.
    pub open spec fn hold(self, c: Circuit, a: Assignment) -> bool {
        &&& c.consistent(self.values(a))
        &&& c.safe(self.values(a))
        &&& read(a, self.nexts) == c.next(self.values(a))
    }

    spec fn hold_first(self, c: Circuit, a: Assignment, gates: int, errors: int, nexts: int) -> bool {
        let v = self.values(a);
        &&& forall|g: int| 0 <= g < gates ==> #[trigger] v.gates[g] == (c.value(v, c.aiger.ands@[g].rhs0) && c.value(v, c.aiger.ands@[g].rhs1))
        &&& forall|i: int| 0 <= i < errors ==> !c.value(v, #[trigger] c.aiger.outputs@[i])
        &&& forall|i: int| 0 <= i < nexts ==> #[trigger] read(a, self.nexts)[i] == c.value(v, c.aiger.latches@[i].next)
    }
}

/// A literal has its value in the circuit.
proof fn lemma_wire_value(w: Wires, c: Circuit, bound: u32, a: Assignment, lit: u64, number: i32)
    requires
        c.wf(),
        w.fit(c, bound),
        lit as int / 2 <= c.aiger.max_var,
        c.defines(lit),
        number == (if lit == 0 || (lit >= 2 && lit % 2 == 1) { -(w.slot(c, lit) as int) } else { w.slot(c, lit) as int }),
        a(var_of(w.truth as int)),
    ensures
        lit_true(a, lit_numbered(number)) == c.value(w.values(a), lit),
        0 < w.slot(c, lit) < bound,
{
    let n = w.slot(c, lit) as int;
    if lit >= 2 {
        match c.classes@[lit as int / 2] {
            Some(Class::Input(i)) => {
                assert(w.values(a).inputs[i as int] == a(var_of(n)));
            },
            Some(Class::Latch(i)) => {
                assert(w.values(a).state[i as int] == a(var_of(n)));
            },
            Some(Class::Gate(i)) => {
                assert(w.values(a).gates[i as int] == a(var_of(n)));
            },
            None => {},
        }
    }
    lemma_num(n);
    assert(lit_numbered(number) == lit_of(var_of(n), number > 0));
}

/// The number of a literal over given variables.
fn wire_number(circuit: &Circuit, truth: u32, latches: &Vec<u32>, inputs: &Vec<u32>, gates: &Vec<u32>, lit: u64, Ghost(w): Ghost<Wires>, Ghost(
    bound,
): Ghost<u32>) -> (number: i32)
    requires
        circuit.wf(),
        w.fit(*circuit, bound),
        w.truth == truth,
        w.latches == latches@,
        w.inputs == inputs@,
        w.gates == gates@,
        lit as int / 2 <= circuit.aiger.max_var,
        circuit.defines(lit),
    ensures
        number == (if lit == 0 || (lit >= 2 && lit % 2 == 1) { -(w.slot(*circuit, lit) as int) } else { w.slot(*circuit, lit) as int }),
        number != 0,
        -(bound as int) < number < bound,
        forall|a: Assignment| #[trigger] a(var_of(w.truth as int)) ==> lit_true(a, lit_numbered(number)) == circuit.value(w.values(a), lit),
{
    let n: u32 = if lit < 2 {
        truth
    } else {
        match circuit.classes[(lit / 2) as usize] {
            Some(Class::Input(i)) => inputs[i],
            Some(Class::Latch(i)) => latches[i],
            Some(Class::Gate(i)) => gates[i],
            None => 0,
        }
    };
    let number = if lit == 0 || (lit >= 2 && lit % 2 == 1) {
        -(n as i32)
    } else {
        n as i32
    };
    proof {
        assert forall|a: Assignment| #[trigger] a(var_of(w.truth as int)) implies lit_true(a, lit_numbered(number)) == circuit.value(
            w.values(a),
            lit,
        ) by {
            lemma_wire_value(w, *circuit, bound, a, lit, number);
        }
        lemma_wire_value(w, *circuit, bound, |x: Var| true, lit, number);
    }
    number
}

/// Draws fresh variables and declares them.
fn declare_run(solver: &mut IncrementalSolver, universal: &Vec<bool>) -> (vars: Vec<u32>)
    requires
        old(solver).wf(),
        old(solver).fresh() + universal@.len() <= 2_147_483_647,
    ensures
        final(solver).wf(),
        final(solver).fresh() == old(solver).fresh() + universal@.len(),
        final(solver).clauses() == old(solver).clauses(),
        vars@ == run(old(solver).fresh() as int, universal@.len()),
        forall|x: Var| #[trigger]
            stacked_universals(final(solver).stack()).contains(x) <==> stacked_universals(old(solver).stack()).contains(x) || (old(
                solver,
            ).fresh() <= x.dimacs() < final(solver).fresh() && universal@[x.dimacs() - old(solver).fresh()]),
        forall|x: Var| #[trigger]
            stacked_existentials(final(solver).stack()).contains(x) <==> stacked_existentials(old(solver).stack()).contains(x) || (old(
                solver,
            ).fresh() <= x.dimacs() < final(solver).fresh() && !universal@[x.dimacs() - old(solver).fresh()]),
{
    let ghost before = *solver;
    let mut vars: Vec<u32> = Vec::new();
    let mut k: usize = 0;
    while k < universal.len()
        invariant
            k <= universal.len(),
            before == *old(solver),
            before.fresh() + universal@.len() <= 2_147_483_647,
            solver.wf(),
            solver.fresh() == before.fresh() + k,
            solver.clauses() == before.clauses(),
            vars@ == run(before.fresh() as int, k as nat),
            forall|x: Var| #[trigger]
                stacked_universals(solver.stack()).contains(x) <==> stacked_universals(before.stack()).contains(x) || (before.fresh() <= x.dimacs()
                    < solver.fresh() && universal@[x.dimacs() - before.fresh()]),
            forall|x: Var| #[trigger]
                stacked_existentials(solver.stack()).contains(x) <==> stacked_existentials(before.stack()).contains(x) || (before.fresh()
                    <= x.dimacs() < solver.fresh() && !universal@[x.dimacs() - before.fresh()]),
        decreases universal.len() - k,
    {
        let n = declare_fresh(solver, universal[k]);
        vars.push(n);
        assert(vars@ =~= run(before.fresh() as int, (k + 1) as nat));
        k += 1;
    }
    vars
}

impl Unroller {
    /// The circuit that is unrolled.
    pub closed spec fn circuit(&self) -> Circuit {
        self.circuit
    }

    /// The number of steps unrolled so far.
    pub closed spec fn steps(&self) -> u32 {
        self.depth
    }

    /// The variables of the latches at the frontier.
    pub closed spec fn frontier(&self) -> Seq<u32> {
        self.latch_vars@
    }

    /// The variable of the constant true, once there is one.
    pub closed spec fn truth(&self) -> Option<u32> {
        self.true_var
    }

    /// The variables of the inputs of the most recent step.
    pub closed spec fn inputs(&self) -> Seq<u32> {
        self.input_vars@
    }

    /// The input variables with their steps and whether they are
    /// controllable.
    pub closed spec fn declared(&self) -> Seq<(u32, u32, bool)> {
        self.declared_inputs@
    }

    /// The frontier exists from the first step on, below the number.
    pub open spec fn below(&self, bound: u32) -> bool {
        &&& self.circuit().wf()
        &&& self.steps() > 0 <==> self.truth() is Some
        &&& self.steps() > 0 ==> self.frontier().len() == self.circuit().aiger.latches@.len()
        &&& self.steps() == 0 ==> self.frontier().len() == 0
        &&& self.truth() matches Some(t) ==> 0 < t < bound
        &&& forall|i: int| 0 <= i < self.frontier().len() ==> 0 < #[trigger] self.frontier()[i] < bound
    }

    /// The number of the first input of the next step.
    pub open spec fn first_input(&self, fresh: int) -> int {
        if self.steps() == 0 {
            fresh + 1 + self.circuit().aiger.latches@.len()
        } else {
            fresh
        }
    }

    /// The variables of the next step: those of the frontier, and fresh
    /// ones in order.
    pub open spec fn next_wires(&self, fresh: int) -> Wires {
        let c = self.circuit();
        let first = self.first_input(fresh);
        let inputs = c.aiger.inputs@.len();
        let gates = c.aiger.ands@.len();
        Wires {
            truth: match self.truth() {
                Some(t) => t,
                None => fresh as u32,
            },
            latches: if self.steps() == 0 {
                run(fresh + 1, c.aiger.latches@.len())
            } else {
                self.frontier()
            },
            inputs: run(first, inputs),
            gates: run(first + inputs, gates),
            nexts: run(first + inputs + gates, c.aiger.latches@.len()),
        }
    }

    /// The variable is an uncontrollable input of the next step.
    pub open spec fn next_universal(&self, fresh: int, x: Var) -> bool {
        let first = self.first_input(fresh);
        first <= x.dimacs() < first + self.circuit().aiger.inputs@.len() && !self.circuit().controllable@[x.dimacs() - first]
    }

    /// The inputs that the next step declares.
    pub open spec fn next_declared(&self, fresh: int) -> Seq<(u32, u32, bool)> {
        Seq::new(
            self.circuit().aiger.inputs@.len(),
            |i: int| ((self.first_input(fresh) + i) as u32, (self.steps() + 1) as u32, self.circuit().controllable@[i]),
        )
    }

    /// Parses a sequential ASCII AIGER safety specification.
    pub fn new(input: &str) -> (result: Result<Unroller, ParseError>)
        ensures
            match result {
                Ok(unroller) => {
                    &&& reads_circuit(input@, Ok(unroller.circuit()))
                    &&& unroller.steps() == 0
                    &&& unroller.truth() is None
                    &&& unroller.frontier().len() == 0
                    &&& unroller.inputs().len() == 0
                    &&& unroller.declared().len() == 0
                },
                Err(error) => reads_circuit(input@, Err(error)),
            },
    {
        match parse_circuit(input) {
            Ok(circuit) => Ok(
                Unroller {
                    circuit,
                    true_var: None,
                    latch_vars: Vec::new(),
                    input_vars: Vec::new(),
                    declared_inputs: Vec::new(),
                    depth: 0,
                },
            ),
            Err(error) => Err(error),
        }
    }

    /// The number of steps unrolled so far.
    pub fn depth(&self) -> (depth: u32)
        ensures
            depth == self.steps(),
    {
        self.depth
    }

    pub(crate) fn declared_list(&self) -> (list: &Vec<(u32, u32, bool)>)
        ensures
            list@ == self.declared(),
    {
        &self.declared_inputs
    }

    /// Whether every literal that the circuit reads is defined, as a step
    /// requires.
    pub fn is_complete(&self) -> (yes: bool)
        requires
            self.circuit().wf(),
        ensures
            yes == self.circuit().complete(),
    {
        self.circuit.is_complete()
    }

    /// The solver variables of the inputs of the most recent step, by input
    /// position: the handles a synthesis loop needs to probe current-step
    /// moves with assumption queries. Empty before the first step.
    pub fn current_inputs(&self) -> (vars: &[u32])
        ensures
            vars@ == self.inputs(),
    {
        self.input_vars.as_slice()
    }

    /// Unrolls one time step into the solver: fresh input and gate copies,
    /// the latch connection to the previous step, and the error signals
    /// asserted false. Solve after stepping to obtain the bounded-safety
    /// verdict for the new depth.
    #[verifier::rlimit(60)]
    pub fn step(&mut self, solver: &mut IncrementalSolver)
        requires
            old(solver).wf(),
            old(self).below(old(solver).fresh()),
            old(self).circuit().complete(),
            old(self).steps() < u32::MAX,
            old(solver).fresh() + 1 + old(self).circuit().aiger.latches@.len() + width(old(self).circuit()) <= 2_147_483_646,
        ensures
            final(solver).wf(),
            steps_to(*old(self), *old(solver), *final(self), *final(solver)),
    {
        let ghost before = *self;
        let ghost start = *solver;
        let ghost fresh = start.fresh() as int;
        let ghost c = self.circuit;
        let ghost w = self.next_wires(fresh);
        let latches = self.circuit.aiger.latches.len();
        proof {
            solver.lemma_has_frame();
        }
        let truth: u32;
        if self.depth == 0 {
            truth = declare_fresh(solver, false);
            self.reset(solver, truth);
        } else {
            truth = match self.true_var {
                Some(truth) => truth,
                None => 0,
            };
        }
        let ghost m1 = solver.clauses();
        let ghost declared = *solver;
        let ghost first = self.first_input(fresh);
        assert(solver.fresh() == first);
        let mut universal: Vec<bool> = Vec::new();
        let mut k: usize = 0;
        while k < self.circuit.controllable.len()
            invariant
                k <= self.circuit.controllable.len(),
                universal@ == Seq::new(k as nat, |i: int| !self.circuit.controllable@[i]),
            decreases self.circuit.controllable.len() - k,
        {
            universal.push(!self.circuit.controllable[k]);
            k += 1;
            assert(universal@ =~= Seq::new(k as nat, |i: int| !self.circuit.controllable@[i]));
        }
        let input_vars = declare_run(solver, &universal);
        let mut plain: Vec<bool> = Vec::new();
        let mut k: usize = 0;
        while k < self.circuit.aiger.ands.len()
            invariant
                k <= self.circuit.aiger.ands.len(),
                plain@ == Seq::new(k as nat, |i: int| false),
            decreases self.circuit.aiger.ands.len() - k,
        {
            plain.push(false);
            k += 1;
            assert(plain@ =~= Seq::new(k as nat, |i: int| false));
        }
        let gate_vars = declare_run(solver, &plain);
        let ghost bound = solver.fresh();
        assert(w.fit(c, bound));
        assert(w.inputs == input_vars@ && w.gates == gate_vars@ && w.latches == self.latch_vars@ && w.truth == truth);
        let ghost drawn = *solver;
        let mut k: usize = 0;
        while k < self.circuit.aiger.ands.len()
            invariant
                k <= self.circuit.aiger.ands.len(),
                *self == (Unroller { latch_vars: self.latch_vars, ..before }),
                c == self.circuit,
                c.wf(),
                c.complete(),
                w == before.next_wires(fresh),
                w.fit(c, bound),
                bound <= 2_147_483_646,
                w.inputs == input_vars@ && w.gates == gate_vars@ && w.latches == self.latch_vars@ && w.truth == truth,
                solver.wf(),
                solver.fresh() == bound,
                stacked_universals(solver.stack()) == stacked_universals(drawn.stack()),
                forall|x: Var| #[trigger]
                    stacked_existentials(solver.stack()).contains(x) <==> stacked_existentials(drawn.stack()).contains(x),
                forall|x: Var| first + c.aiger.inputs@.len() <= x.dimacs() < bound ==> #[trigger] stacked_existentials(drawn.stack()).contains(x),
                first + c.aiger.inputs@.len() + c.aiger.ands@.len() == bound,
                first >= 1,
                first == before.first_input(fresh),
                forall|a: Assignment| #[trigger] matrix_true(a, solver.clauses()) ==> matrix_true(a, m1),
                forall|a: Assignment|
                    a(var_of(truth as int)) ==> (#[trigger] matrix_true(a, solver.clauses()) <==> matrix_true(a, m1) && w.hold_first(
                        c,
                        a,
                        k as int,
                        0,
                        0,
                    )),
            decreases self.circuit.aiger.ands.len() - k,
        {
            let and = self.circuit.aiger.ands[k];
            assert(c.aiger.ands@[k as int].rhs0 as int / 2 <= c.aiger.max_var && c.aiger.ands@[k as int].rhs1 as int / 2 <= c.aiger.max_var);
            assert(c.defines(c.aiger.ands@[k as int].rhs0) && c.defines(c.aiger.ands@[k as int].rhs1));
            let left = wire_number(&self.circuit, truth, &self.latch_vars, &input_vars, &gate_vars, and.rhs0, Ghost(w), Ghost(bound));
            let right = wire_number(&self.circuit, truth, &self.latch_vars, &input_vars, &gate_vars, and.rhs1, Ghost(w), Ghost(bound));
            let lits: Vec<i32> = vec![left, right];
            let ghost m = solver.clauses();
            let gate = gate_vars[k];
            assert(gate == w.gates[k as int]);
            define(solver, gate, &lits);
            proof {
                assert forall|a: Assignment| a(var_of(truth as int)) implies (#[trigger] matrix_true(a, solver.clauses()) <==> matrix_true(a, m1)
                    && w.hold_first(c, a, k + 1, 0, 0)) by {
                    assert(matrix_true(a, m) <==> matrix_true(a, m1) && w.hold_first(c, a, k as int, 0, 0));
                    lemma_two(a, clause_of(lits@), lit_numbered(left), lit_numbered(right));
                    assert(a(var_of(w.truth as int)));
                    assert(w.values(a).gates[k as int] == a(var_of(gate as int)));
                }
            }
            k += 1;
        }
        let mut k: usize = 0;
        while k < self.circuit.aiger.outputs.len()
            invariant
                k <= self.circuit.aiger.outputs.len(),
                *self == (Unroller { latch_vars: self.latch_vars, ..before }),
                c == self.circuit,
                c.wf(),
                c.complete(),
                w.fit(c, bound),
                bound <= 2_147_483_646,
                w.inputs == input_vars@ && w.gates == gate_vars@ && w.latches == self.latch_vars@ && w.truth == truth,
                solver.wf(),
                solver.fresh() == bound,
                stacked_universals(solver.stack()) == stacked_universals(drawn.stack()),
                forall|x: Var| #[trigger]
                    stacked_existentials(solver.stack()).contains(x) <==> stacked_existentials(drawn.stack()).contains(x),
                forall|a: Assignment| #[trigger] matrix_true(a, solver.clauses()) ==> matrix_true(a, m1),
                forall|a: Assignment|
                    a(var_of(truth as int)) ==> (#[trigger] matrix_true(a, solver.clauses()) <==> matrix_true(a, m1) && w.hold_first(
                        c,
                        a,
                        c.aiger.ands@.len() as int,
                        k as int,
                        0,
                    )),
            decreases self.circuit.aiger.outputs.len() - k,
        {
            let out = self.circuit.aiger.outputs[k];
            assert(c.aiger.outputs@[k as int] as int / 2 <= c.aiger.max_var);
            assert(c.defines(c.aiger.outputs@[k as int]));
            let number = wire_number(&self.circuit, truth, &self.latch_vars, &input_vars, &gate_vars, out, Ghost(w), Ghost(bound));
            let negated: i32 = -number;
            let lits: Vec<i32> = vec![negated];
            let ghost m = solver.clauses();
            solver.add_clause(lits.as_slice());
            proof {
                assert(clause_of(lits@) =~= seq![lit_numbered(negated)]);
                assert forall|a: Assignment| #[trigger] matrix_true(a, solver.clauses()) <==> matrix_true(a, m) && !lit_true(
                    a,
                    lit_numbered(number),
                ) by {
                    lemma_unit(a, lit_numbered(negated));
                    lemma_negated(number, a);
                    crate::simplify::lemma_push_true(a, m, clause_of(lits@));
                }
                assert forall|a: Assignment| a(var_of(truth as int)) implies (#[trigger] matrix_true(a, solver.clauses()) <==> matrix_true(a, m1)
                    && w.hold_first(c, a, c.aiger.ands@.len() as int, k + 1, 0)) by {
                    assert(matrix_true(a, m) <==> matrix_true(a, m1) && w.hold_first(c, a, c.aiger.ands@.len() as int, k as int, 0));
                    assert(a(var_of(w.truth as int)));
                }
            }
            k += 1;
        }
        let ghost m2 = solver.clauses();
        let mut next_vars: Vec<u32> = Vec::new();
        let mut k: usize = 0;
        while k < latches
            invariant
                k <= latches,
                latches == c.aiger.latches@.len(),
                *self == (Unroller { latch_vars: self.latch_vars, ..before }),
                c == self.circuit,
                c.wf(),
                c.complete(),
                w == before.next_wires(fresh),
                w.fit(c, bound),
                bound + latches <= 2_147_483_646,
                first + c.aiger.inputs@.len() + c.aiger.ands@.len() == bound,
                first == before.first_input(fresh),
                before.circuit() == c,
                w.inputs == input_vars@ && w.gates == gate_vars@ && w.latches == self.latch_vars@ && w.truth == truth,
                solver.wf(),
                solver.fresh() == bound + k,
                next_vars@ == run(bound as int, k as nat),
                stacked_universals(solver.stack()) == stacked_universals(drawn.stack()),
                forall|x: Var| #[trigger]
                    stacked_existentials(solver.stack()).contains(x) <==> stacked_existentials(drawn.stack()).contains(x) || bound <= x.dimacs() < bound
                        + k,
                forall|a: Assignment| #[trigger] matrix_true(a, solver.clauses()) ==> matrix_true(a, m1),
                forall|a: Assignment|
                    a(var_of(truth as int)) ==> (#[trigger] matrix_true(a, solver.clauses()) <==> matrix_true(a, m1) && w.hold_first(
                        c,
                        a,
                        c.aiger.ands@.len() as int,
                        c.aiger.outputs@.len() as int,
                        k as int,
                    )),
            decreases latches - k,
        {
            let next = self.circuit.aiger.latches[k].next;
            assert(c.aiger.latches@[k as int].next as int / 2 <= c.aiger.max_var);
            assert(c.defines(c.aiger.latches@[k as int].next));
            let number = wire_number(&self.circuit, truth, &self.latch_vars, &input_vars, &gate_vars, next, Ghost(w), Ghost(bound));
            let ghost m = solver.clauses();
            let v = solver.fresh_var();
            let lits: Vec<i32> = vec![number];
            define(solver, v, &lits);
            next_vars.push(v);
            proof {
                assert(next_vars@ =~= run(bound as int, (k + 1) as nat));
                assert forall|a: Assignment| a(var_of(truth as int)) implies (#[trigger] matrix_true(a, solver.clauses()) <==> matrix_true(a, m1)
                    && w.hold_first(c, a, c.aiger.ands@.len() as int, c.aiger.outputs@.len() as int, k + 1)) by {
                    assert(matrix_true(a, m) <==> matrix_true(a, m1) && w.hold_first(
                        c,
                        a,
                        c.aiger.ands@.len() as int,
                        c.aiger.outputs@.len() as int,
                        k as int,
                    ));
                    lemma_one(a, clause_of(lits@), lit_numbered(number));
                    assert(a(var_of(w.truth as int)));
                    assert(w.nexts[k as int] == v);
                    assert(read(a, w.nexts)[k as int] == a(var_of(v as int)));
                }
            }
            k += 1;
        }
        let step: u32 = self.depth + 1;
        let mut k: usize = 0;
        while k < input_vars.len()
            invariant
                k <= input_vars.len(),
                *self == (Unroller { latch_vars: self.latch_vars, declared_inputs: self.declared_inputs, ..before }),
                self.latch_vars@ == w.latches,
                c == self.circuit,
                c == before.circuit(),
                c.wf(),
                input_vars@ == w.inputs,
                w == before.next_wires(fresh),
                step == before.steps() + 1,
                before.steps() < u32::MAX,
                self.declared_inputs@ == before.declared() + before.next_declared(fresh).take(k as int),
            decreases input_vars.len() - k,
        {
            self.declared_inputs.push((input_vars[k], step, self.circuit.controllable[k]));
            k += 1;
            proof {
                let all = before.next_declared(fresh);
                assert(all.take(k as int) =~= all.take(k - 1).push(all[k - 1]));
                assert(self.declared_inputs@ =~= before.declared() + all.take(k as int));
            }
        }
        proof {
            assert(before.next_declared(fresh).take(input_vars.len() as int) =~= before.next_declared(fresh));
        }
        self.true_var = Some(truth);
        self.latch_vars = next_vars;
        self.input_vars = input_vars;
        self.depth = step;
        proof {
            assert(w.nexts =~= next_vars@);
            assert forall|a: Assignment| a(var_of(truth as int)) implies (w.hold_first(
                c,
                a,
                c.aiger.ands@.len() as int,
                c.aiger.outputs@.len() as int,
                c.aiger.latches@.len() as int,
            ) <==> #[trigger] w.hold(c, a)) by {
                lemma_hold_first(w, c, bound, a);
            }
        }
    }

    /// The constant is true, and the latches take their reset values.
    fn reset(&mut self, solver: &mut IncrementalSolver, truth: u32)
        requires
            old(solver).wf(),
            old(self).circuit().wf(),
            old(self).frontier().len() == 0,
            truth == old(solver).fresh() - 1,
            0 < truth,
            old(solver).fresh() + old(self).circuit().aiger.latches@.len() <= 2_147_483_646,
        ensures
            final(solver).wf(),
            final(solver).fresh() == old(solver).fresh() + old(self).circuit().aiger.latches@.len(),
            *final(self) == (Unroller { latch_vars: final(self).latch_vars, ..*old(self) }),
            final(self).frontier() == run(old(solver).fresh() as int, old(self).circuit().aiger.latches@.len()),
            stacked_universals(final(solver).stack()) == stacked_universals(old(solver).stack()),
            forall|x: Var| #[trigger]
                stacked_existentials(final(solver).stack()).contains(x) <==> stacked_existentials(old(solver).stack()).contains(x) || old(
                    solver,
                ).fresh() <= x.dimacs() < final(solver).fresh(),
            forall|a: Assignment| #[trigger]
                matrix_true(a, final(solver).clauses()) <==> matrix_true(a, old(solver).clauses()) && a(var_of(truth as int)) && read(
                    a,
                    final(self).frontier(),
                ) == old(self).circuit().initial(),
    {
        let ghost before = *self;
        let ghost start = *solver;
        let lits: Vec<i32> = vec![truth as i32];
        solver.add_clause(lits.as_slice());
        proof {
            lemma_num(truth as int);
            assert(clause_of(lits@) =~= seq![lit_numbered(truth as i32)]);
            assert forall|a: Assignment| #[trigger] matrix_true(a, solver.clauses()) <==> matrix_true(a, start.clauses()) && a(
                var_of(truth as int),
            ) by {
                lemma_unit(a, lit_numbered(truth as i32));
                crate::simplify::lemma_push_true(a, start.clauses(), clause_of(lits@));
            }
        }
        let mut k: usize = 0;
        while k < self.circuit.aiger.latches.len()
            invariant
                k <= self.circuit.aiger.latches.len(),
                before == *old(self),
                start == *old(solver),
                *self == (Unroller { latch_vars: self.latch_vars, ..before }),
                before.circuit().wf(),
                start.fresh() + before.circuit().aiger.latches@.len() <= 2_147_483_646,
                start.fresh() > 1,
                solver.wf(),
                solver.fresh() == start.fresh() + k,
                self.latch_vars@ == run(start.fresh() as int, k as nat),
                forall|x: Var| #[trigger]
                    stacked_universals(solver.stack()).contains(x) <==> stacked_universals(start.stack()).contains(x),
                stacked_universals(solver.stack()) == stacked_universals(start.stack()),
                forall|x: Var| #[trigger]
                    stacked_existentials(solver.stack()).contains(x) <==> stacked_existentials(start.stack()).contains(x) || start.fresh()
                        <= x.dimacs() < solver.fresh(),
                forall|a: Assignment| #[trigger]
                    matrix_true(a, solver.clauses()) <==> matrix_true(a, start.clauses()) && a(var_of(truth as int)) && forall|i: int|
                        0 <= i < k ==> a(#[trigger] var_of(start.fresh() + i)) == (before.circuit().aiger.latches@[i].reset == 1),
            decreases self.circuit.aiger.latches.len() - k,
        {
            let ghost m = solver.clauses();
            let v = declare_existential_fresh(solver);
            let number = if self.circuit.aiger.latches[k].reset == 1 {
                v as i32
            } else {
                -(v as i32)
            };
            let lits: Vec<i32> = vec![number];
            solver.add_clause(lits.as_slice());
            self.latch_vars.push(v);
            proof {
                assert(self.latch_vars@ =~= run(start.fresh() as int, (k + 1) as nat));
                lemma_num(v as int);
                assert(clause_of(lits@) =~= seq![lit_numbered(number)]);
                assert forall|a: Assignment| #[trigger] matrix_true(a, solver.clauses()) <==> matrix_true(a, start.clauses()) && a(
                    var_of(truth as int),
                ) && forall|i: int|
                    0 <= i < k + 1 ==> a(#[trigger] var_of(start.fresh() + i)) == (before.circuit().aiger.latches@[i].reset == 1) by {
                    lemma_unit(a, lit_numbered(number));
                    crate::simplify::lemma_push_true(a, m, clause_of(lits@));
                    assert(var_of(start.fresh() + k) == var_of(v as int));
                }
            }
            k += 1;
        }
        proof {
            let n = before.circuit().aiger.latches@.len();
            assert forall|a: Assignment| (forall|i: int|
                0 <= i < n ==> a(#[trigger] var_of(start.fresh() + i)) == (before.circuit().aiger.latches@[i].reset == 1)) <==> #[trigger] read(
                a,
                self.latch_vars@,
            ) == before.circuit().initial() by {
                let state = read(a, self.latch_vars@);
                let initial = before.circuit().initial();
                if forall|i: int|
                    0 <= i < n ==> a(#[trigger] var_of(start.fresh() + i)) == (before.circuit().aiger.latches@[i].reset == 1) {
                    assert(state =~= initial);
                }
                if state == initial {
                    assert forall|i: int| 0 <= i < n implies a(#[trigger] var_of(start.fresh() + i)) == (before.circuit().aiger.latches@[i].reset
                        == 1) by {
                        assert(state[i] == initial[i]);
                    }
                }
            }
        }
    }
}

/// Draws a fresh variable and declares it existential.
fn declare_existential_fresh(solver: &mut IncrementalSolver) -> (n: u32)
    requires
        old(solver).wf(),
        old(solver).fresh() < 2_147_483_647,
    ensures
        final(solver).wf(),
        n == old(solver).fresh(),
        final(solver).fresh() == n + 1,
        final(solver).clauses() == old(solver).clauses(),
        stacked_universals(final(solver).stack()) == stacked_universals(old(solver).stack()),
        forall|x: Var| #[trigger]
            stacked_existentials(final(solver).stack()).contains(x) <==> stacked_existentials(old(solver).stack()).contains(x) || x.dimacs() == n,
{
    let ghost before = solver.stack();
    proof {
        solver.lemma_has_frame();
    }
    let n = solver.fresh_var();
    solver.declare_existential(n);
    proof {
        crate::incremental::lemma_declares(before, solver.stack(), n, QuantTy::Exists);
        assert forall|x: Var| #[trigger]
            stacked_existentials(solver.stack()).contains(x) <==> stacked_existentials(before).contains(x) || x.dimacs() == n by {
            lemma_number(x, n as int);
            crate::datastructure::lemma_push_contains(stacked_existentials(before), var_of(n as int), x);
        }
    }
    n
}

proof fn lemma_negated(number: i32, a: Assignment)
    requires
        number != 0,
        -2_147_483_646 < number < 2_147_483_646,
    ensures
        lit_true(a, lit_numbered((-number) as i32)) == !lit_true(a, lit_numbered(number)),
{
    let n = if number > 0 { number as int } else { -(number as int) };
    lemma_num(n);
}

proof fn lemma_hold_first(w: Wires, c: Circuit, bound: u32, a: Assignment)
    requires
        w.fit(c, bound),
        w.nexts.len() == c.aiger.latches@.len(),
    ensures
        w.hold_first(c, a, c.aiger.ands@.len() as int, c.aiger.outputs@.len() as int, c.aiger.latches@.len() as int) <==> w.hold(c, a),
{
    let v = w.values(a);
    let nexts = read(a, w.nexts);
    if forall|i: int| 0 <= i < c.aiger.latches@.len() ==> #[trigger] nexts[i] == c.value(v, c.aiger.latches@[i].next) {
        assert(nexts =~= c.next(v));
    }
}

/// Appends the variables of consecutive numbers.
fn push_numbered(vars: &mut Vec<Var>, from: u32, count: usize)
    requires
        1 <= from,
        from + count < UNROLL_LIMIT,
    ensures
        final(vars)@ == old(vars)@ + numbered(from as int, count as nat),
{
    let ghost before = vars@;
    let mut k: usize = 0;
    while k < count
        invariant
            k <= count,
            1 <= from,
            from + count < UNROLL_LIMIT,
            vars@ == before + numbered(from as int, k as nat),
        decreases count - k,
    {
        let x = Var::from_dimacs(from as i32 + k as i32);
        proof {
            crate::literal::lemma_var_of(x);
        }
        vars.push(x);
        k += 1;
        assert(vars@ =~= before + numbered(from as int, k as nat));
    }
    assert(vars@ =~= before + numbered(from as int, count as nat));
}

/// The literal of a numbered variable.
fn numbered_lit(n: u32, polarity: bool) -> (lit: Lit)
    requires
        1 <= n < UNROLL_LIMIT,
    ensures
        lit == lit_of(var_of(n as int), polarity),
{
    let x = Var::from_dimacs(n as i32);
    let lit = Lit::from_var(x, polarity);
    proof {
        crate::literal::lemma_var_of(x);
        lemma_num(n as int);
        crate::literal::lemma_lit_ext(lit, lit_of(var_of(n as int), polarity));
    }
    lit
}

/// A literal of the circuit at a step whose latches and inputs start at
/// the given numbers.
fn literal_at(circuit: &Circuit, lit: u64, state: u32, inputs: u32, Ghost(t): Ghost<nat>) -> (result: Lit)
    requires
        circuit.wf(),
        fits_depth(*circuit, t + 1),
        lit as int / 2 <= circuit.aiger.max_var,
        circuit.defines(lit),
        state == state_num(*circuit, t, 0),
        inputs == base(*circuit, t),
    ensures
        result == lit_at(*circuit, t, lit),
{
    proof {
        lemma_slot(*circuit, t, lit);
        lemma_num(slot_at(*circuit, t, lit));
    }
    let n: u32 = if lit < 2 {
        1
    } else {
        match circuit.classes[(lit / 2) as usize] {
            Some(Class::Input(i)) => inputs + i as u32,
            Some(Class::Latch(i)) => state + i as u32,
            Some(Class::Gate(i)) => inputs + circuit.aiger.inputs.len() as u32 + i as u32,
            None => 1,
        }
    };
    numbered_lit(n, lit == 1 || (lit >= 2 && lit % 2 == 0))
}

/// Appends a clause.
fn push_clause(matrix: &mut Vec<Vec<Lit>>, clause: Vec<Lit>)
    ensures
        matrix_of(final(matrix)@) == matrix_of(old(matrix)@).push(clause@),
{
    let ghost before = matrix@;
    matrix.push(clause);
    assert(matrix_of(matrix@) =~= matrix_of(before).push(clause@));
}

/// Appends the clauses of a step.
fn push_step(circuit: &Circuit, matrix: &mut Vec<Vec<Lit>>, state: u32, inputs: u32, Ghost(t): Ghost<nat>)
    requires
        circuit.wf(),
        circuit.complete(),
        fits_depth(*circuit, t + 1),
        state == state_num(*circuit, t, 0),
        inputs == base(*circuit, t),
    ensures
        matrix_of(final(matrix)@) == matrix_of(old(matrix)@) + step_clauses(*circuit, t),
{
    let ghost c = *circuit;
    let ghost m0 = matrix_of(matrix@);
    let ands = circuit.aiger.ands.len();
    let outputs = circuit.aiger.outputs.len();
    let latches = circuit.aiger.latches.len();
    proof {
        lemma_base(c, t, t + 1);
        assert(m0 + gates_clauses(c, t, 0) =~= m0);
    }
    let mut k: usize = 0;
    while k < ands
        invariant
            k <= ands,
            ands == c.aiger.ands@.len(),
            c == *circuit,
            c.wf(),
            c.complete(),
            fits_depth(c, t + 1),
            base(c, t) + width(c) == base(c, t + 1),
            base(c, t) >= 2,
            state == state_num(c, t, 0),
            inputs == base(c, t),
            matrix_of(matrix@) == m0 + gates_clauses(c, t, k as int),
        decreases ands - k,
    {
        let and = circuit.aiger.ands[k];
        assert(c.aiger.ands@[k as int].rhs0 as int / 2 <= c.aiger.max_var && c.aiger.ands@[k as int].rhs1 as int / 2 <= c.aiger.max_var);
        assert(c.defines(c.aiger.ands@[k as int].rhs0) && c.defines(c.aiger.ands@[k as int].rhs1));
        let rhs0 = literal_at(circuit, and.rhs0, state, inputs, Ghost(t));
        let rhs1 = literal_at(circuit, and.rhs1, state, inputs, Ghost(t));
        let n = inputs + circuit.aiger.inputs.len() as u32 + k as u32;
        let lhs = numbered_lit(n, true);
        let first: Vec<Lit> = vec![lhs.negated(), rhs0];
        let second: Vec<Lit> = vec![lhs.negated(), rhs1];
        let third: Vec<Lit> = vec![lhs, rhs0.negated(), rhs1.negated()];
        proof {
            assert(first@ =~= seq![lhs.neg(), rhs0]);
            assert(second@ =~= seq![lhs.neg(), rhs1]);
            assert(third@ =~= seq![lhs, rhs0.neg(), rhs1.neg()]);
        }
        push_clause(matrix, first);
        push_clause(matrix, second);
        push_clause(matrix, third);
        k += 1;
        proof {
            assert(gates_clauses(c, t, k as int) == gates_clauses(c, t, k - 1) + seq![first@, second@, third@]);
            assert(matrix_of(matrix@) =~= m0 + gates_clauses(c, t, k as int));
        }
    }
    let ghost m1 = matrix_of(matrix@);
    assert(m1 + error_clauses(c, t, 0) =~= m1);
    let mut k: usize = 0;
    while k < outputs
        invariant
            k <= outputs,
            outputs == c.aiger.outputs@.len(),
            c == *circuit,
            c.wf(),
            c.complete(),
            fits_depth(c, t + 1),
            state == state_num(c, t, 0),
            inputs == base(c, t),
            matrix_of(matrix@) == m1 + error_clauses(c, t, k as nat),
        decreases outputs - k,
    {
        let out = circuit.aiger.outputs[k];
        assert(c.aiger.outputs@[k as int] as int / 2 <= c.aiger.max_var);
        assert(c.defines(c.aiger.outputs@[k as int]));
        let error = literal_at(circuit, out, state, inputs, Ghost(t));
        let clause: Vec<Lit> = vec![error.negated()];
        assert(clause@ =~= seq![error.neg()]);
        push_clause(matrix, clause);
        k += 1;
        assert(matrix_of(matrix@) =~= m1 + error_clauses(c, t, k as nat));
    }
    let ghost m2 = matrix_of(matrix@);
    assert(m2 + next_clauses(c, t, 0) =~= m2);
    let mut k: usize = 0;
    while k < latches
        invariant
            k <= latches,
            latches == c.aiger.latches@.len(),
            c == *circuit,
            c.wf(),
            c.complete(),
            fits_depth(c, t + 1),
            base(c, t) + width(c) == base(c, t + 1),
            base(c, t) >= 2,
            state == state_num(c, t, 0),
            inputs == base(c, t),
            matrix_of(matrix@) == m2 + next_clauses(c, t, k as int),
        decreases latches - k,
    {
        let next = circuit.aiger.latches[k].next;
        assert(c.aiger.latches@[k as int].next as int / 2 <= c.aiger.max_var);
        assert(c.defines(c.aiger.latches@[k as int].next));
        let value = literal_at(circuit, next, state, inputs, Ghost(t));
        let n = inputs + circuit.aiger.inputs.len() as u32 + circuit.aiger.ands.len() as u32 + k as u32;
        let lit = numbered_lit(n, true);
        let first: Vec<Lit> = vec![lit.negated(), value];
        let second: Vec<Lit> = vec![lit, value.negated()];
        proof {
            assert(first@ =~= seq![lit.neg(), value]);
            assert(second@ =~= seq![lit, value.neg()]);
        }
        push_clause(matrix, first);
        push_clause(matrix, second);
        k += 1;
        proof {
            assert(next_clauses(c, t, k as int) == next_clauses(c, t, k - 1) + seq![first@, second@]);
            assert(matrix_of(matrix@) =~= m2 + next_clauses(c, t, k as int));
        }
    }
    assert(matrix_of(matrix@) =~= m0 + step_clauses(c, t));
}

impl Unroller {
    /// Unrolls the specification into a *reactive* formula: one quantifier
    /// alternation per time step, with the variables of gates, latches and
    /// controllable inputs of a step in the existential block of that step. A
    /// controllable input may therefore depend only on the uncontrollable
    /// inputs of its own step and earlier, which is what the game actually
    /// grants the controller. Causality is a property of the prefix, so a
    /// satisfiable answer *is* realizability for the depth, paid for with
    /// `2 * depth` quantifier blocks instead of two.
    pub fn alternating(&self, depth: u32) -> (qcnf: QCNF)
        requires
            self.circuit().wf(),
            self.circuit().complete(),
            fits_depth(self.circuit(), depth as nat),
        ensures
            qcnf.blocks() == alternating_blocks(self.circuit(), depth as nat),
            qcnf.clauses() == alternating_matrix(self.circuit(), depth as nat),
            qcnf.truth() == self.circuit().wins_for(self.circuit().initial(), depth as nat),
    {
        let circuit = &self.circuit;
        let ghost c = self.circuit;
        let latches = circuit.aiger.latches.len();
        let inputs = circuit.aiger.inputs.len();
        let ands = circuit.aiger.ands.len();
        proof {
            lemma_base(c, 0, depth as nat);
            lemma_num(1);
        }
        let mut prefix: Vec<(QuantTy, Vec<Var>)> = Vec::new();
        let mut matrix: Vec<Vec<Lit>> = Vec::new();
        let mut pending: Vec<Var> = Vec::new();
        push_numbered(&mut pending, 1, 1 + latches);
        let clause: Vec<Lit> = vec![numbered_lit(1, true)];
        assert(clause@ =~= seq![lit_of(var_of(1), true)]);
        push_clause(&mut matrix, clause);
        assert(matrix_of(matrix@) =~= start_clauses(c, 0));
        let mut k: usize = 0;
        while k < latches
            invariant
                k <= latches,
                latches == c.aiger.latches@.len(),
                c == *circuit,
                2 + latches < UNROLL_LIMIT,
                matrix_of(matrix@) == start_clauses(c, k as nat),
            decreases latches - k,
        {
            let clause: Vec<Lit> = vec![numbered_lit(2 + k as u32, circuit.aiger.latches[k].reset == 1)];
            assert(clause@ =~= seq![lit_of(var_of(state_num(c, 0, k as int)), c.aiger.latches@[k as int].reset == 1)]);
            push_clause(&mut matrix, clause);
            k += 1;
            assert(matrix_of(matrix@) =~= start_clauses(c, k as nat));
        }
        let mut state: u32 = 2;
        let mut next: u32 = 2 + latches as u32;
        let mut t: u32 = 0;
        assert(prefix_of(prefix@) =~= alternating_blocks(c, 0));
        while t < depth
            invariant
                t <= depth,
                c == *circuit,
                c == self.circuit(),
                c.wf(),
                c.complete(),
                fits_depth(c, depth as nat),
                latches == c.aiger.latches@.len(),
                inputs == c.aiger.inputs@.len(),
                ands == c.aiger.ands@.len(),
                state == state_num(c, t as nat, 0),
                next == base(c, t as nat),
                pending@ == (if t == 0 { numbered(1, 1 + c.aiger.latches@.len()) } else { Seq::<Var>::empty() }),
                matrix_of(matrix@) == alternating_matrix(c, t as nat),
                prefix_of(prefix@) == alternating_blocks(c, t as nat),
            decreases depth - t,
        {
            proof {
                lemma_base(c, t as nat, t as nat + 1);
                lemma_base(c, t as nat + 1, depth as nat);
            }
            let ghost blocks = prefix_of(prefix@);
            let ghost starting = pending@;
            let mut universal: Vec<Var> = Vec::new();
            let mut existential: Vec<Var> = pending;
            let mut k: usize = 0;
            while k < inputs
                invariant
                    k <= inputs,
                    inputs == c.aiger.inputs@.len(),
                    c == *circuit,
                    c.wf(),
                    1 <= next,
                    next == base(c, t as nat),
                    base(c, t as nat) + inputs < UNROLL_LIMIT,
                    universal@ == step_inputs(c, t as nat, k as int, false),
                    existential@ == starting + step_inputs(c, t as nat, k as int, true),
                decreases inputs - k,
            {
                let x = Var::from_dimacs(next as i32 + k as i32);
                proof {
                    crate::literal::lemma_var_of(x);
                }
                if circuit.controllable[k] {
                    existential.push(x);
                } else {
                    universal.push(x);
                }
                k += 1;
                proof {
                    assert(step_inputs(c, t as nat, k as int, true) == (if c.controllable@[k - 1] {
                        step_inputs(c, t as nat, k - 1, true).push(x)
                    } else {
                        step_inputs(c, t as nat, k - 1, true)
                    }));
                    assert(existential@ =~= starting + step_inputs(c, t as nat, k as int, true));
                }
            }
            push_numbered(&mut existential, next + inputs as u32, ands);
            push_numbered(&mut existential, next + inputs as u32 + ands as u32, latches);
            assert(existential@ =~= step_existentials(c, t as nat));
            push_step(circuit, &mut matrix, state, next, Ghost(t as nat));
            state = next + inputs as u32 + ands as u32;
            next = state + latches as u32;
            prefix.push((QuantTy::Forall, universal));
            prefix.push((QuantTy::Exists, existential));
            pending = Vec::new();
            t += 1;
            proof {
                assert(prefix_of(prefix@) =~= blocks + seq![
                    (QuantTy::Forall, step_inputs(c, (t - 1) as nat, c.aiger.inputs@.len() as int, false)),
                    (QuantTy::Exists, step_existentials(c, (t - 1) as nat)),
                ]);
                assert(prefix_of(prefix@) =~= alternating_blocks(c, t as nat));
                assert(matrix_of(matrix@) =~= alternating_matrix(c, t as nat));
            }
        }
        proof {
            crate::aiger::alternating::law_alternating_is_the_bounded_game(c, depth as nat);
        }
        QCNF { prefix, matrix }
    }
}

/// One step: fresh variables for the inputs, the gates and the next state
/// (in the first step also for the constant and the initial state), and
/// clauses that say that the step goes as the circuit says, without an
/// error.
pub open spec fn steps_to(u: Unroller, before: IncrementalSolver, v: Unroller, after: IncrementalSolver) -> bool {
    let fresh = before.fresh() as int;
    let w = u.next_wires(fresh);
    &&& v.circuit() == u.circuit()
    &&& v.steps() == u.steps() + 1
    &&& v.below(after.fresh())
    &&& v.truth() == Some(w.truth)
    &&& v.frontier() == w.nexts
    &&& v.inputs() == w.inputs
    &&& v.declared() == u.declared() + u.next_declared(fresh)
    &&& after.fresh() == u.first_input(fresh) + width(u.circuit())
    &&& forall|x: Var| #[trigger]
        stacked_universals(after.stack()).contains(x) <==> stacked_universals(before.stack()).contains(x) || u.next_universal(fresh, x)
    &&& forall|x: Var| #[trigger]
        stacked_existentials(after.stack()).contains(x) <==> stacked_existentials(before.stack()).contains(x) || (fresh <= x.dimacs()
            < after.fresh() && !u.next_universal(fresh, x))
    &&& forall|a: Assignment| #[trigger]
        matrix_true(a, after.clauses()) ==> matrix_true(a, before.clauses()) && (u.steps() == 0 ==> a(var_of(fresh)))
    &&& forall|a: Assignment|
        a(var_of(w.truth as int)) ==> (#[trigger] matrix_true(a, after.clauses()) <==> {
            &&& matrix_true(a, before.clauses())
            &&& u.steps() == 0 ==> read(a, w.latches) == u.circuit().initial()
            &&& w.hold(u.circuit(), a)
        })
}

/// The solver holds exactly the steps that the unroller has unrolled.
pub open spec fn unrolls(u: Unroller, solver: IncrementalSolver) -> bool {
    let c = u.circuit();
    let t = u.steps() as nat;
    &&& c.wf()
    &&& c.complete()
    &&& fits_depth(c, t)
    &&& u.below(solver.fresh())
    &&& forall|a: Assignment| #[trigger] matrix_true(a, solver.clauses()) <==> (t > 0 ==> holds_upto(c, t, a))
    &&& solver.fresh() == (if t == 0 { 1 } else { base(c, t) as int })
    &&& t > 0 ==> u.truth() == Some(1u32) && u.frontier() == run(state_num(c, t, 0), c.aiger.latches@.len())
    &&& forall|x: Var| #[trigger] stacked_universals(solver.stack()).contains(x) <==> past_universal(c, t, x)
    &&& forall|x: Var| #[trigger] stacked_existentials(solver.stack()).contains(x) <==> x.dimacs() < solver.fresh() && !past_universal(c, t, x)
}

/// The variable is an uncontrollable input of one of the first steps.
pub open spec fn past_universal(c: Circuit, t: nat, x: Var) -> bool
    decreases t,
{
    t > 0 && (past_universal(c, (t - 1) as nat, x) || {
        let first = base(c, (t - 1) as nat);
        first <= x.dimacs() < first + c.aiger.inputs@.len() && !c.controllable@[x.dimacs() - first]
    })
}

/// Stepping keeps the solver at exactly the steps of the unroller.
pub proof fn law_steps_unroll(u: Unroller, before: IncrementalSolver, v: Unroller, after: IncrementalSolver)
    requires
        unrolls(u, before),
        fits_depth(u.circuit(), u.steps() as nat + 1),
        steps_to(u, before, v, after),
    ensures
        unrolls(v, after),
{
    let c = u.circuit();
    let t = u.steps() as nat;
    let w = u.next_wires(before.fresh() as int);
    lemma_base(c, t, t + 1);
    lemma_base(c, 0, t);
    assert(u.first_input(before.fresh() as int) == base(c, t));
    assert(v.frontier() =~= run(state_num(c, t + 1, 0), c.aiger.latches@.len()));
    assert((t + 1 - 1) as nat == t);
    assert forall|a: Assignment| #[trigger] matrix_true(a, after.clauses()) <==> holds_upto(c, t + 1, a) by {
        assert(read(a, w.latches) =~= state_at(c, t, a));
        assert(w.values(a).inputs =~= values_at(c, t, a).inputs);
        assert(w.values(a).gates =~= values_at(c, t, a).gates);
        assert(w.values(a) == values_at(c, t, a));
        assert(read(a, w.nexts) =~= state_at(c, t + 1, a));
        assert(w.hold(c, a) == crate::aiger::alternating::step_holds(c, t, a));
        assert(holds_upto(c, t + 1, a) == (holds_upto(c, t, a) && w.hold(c, a)));
        if holds_upto(c, t + 1, a) {
            crate::aiger::alternating::lemma_truth_upto(c, t + 1, a);
        }
        assert(v.truth()->0 == 1);
        assert(matrix_true(a, before.clauses()) <==> (t > 0 ==> holds_upto(c, t, a)));
        if matrix_true(a, after.clauses()) {
            if t > 0 {
                assert(matrix_true(a, before.clauses()));
                crate::aiger::alternating::lemma_truth_upto(c, t, a);
            }
        }
    }
    assert forall|x: Var| #[trigger] stacked_universals(after.stack()).contains(x) <==> past_universal(c, t + 1, x) by {
        assert(past_universal(c, t, x) <==> stacked_universals(before.stack()).contains(x));
    }
    assert forall|x: Var| #[trigger] stacked_existentials(after.stack()).contains(x) <==> x.dimacs() < after.fresh() && !past_universal(
        c,
        t + 1,
        x,
    ) by {
        crate::literal::lemma_var_of(x);
        if past_universal(c, t, x) {
            lemma_past(c, t, x);
        }
    }
}

proof fn lemma_past(c: Circuit, t: nat, x: Var)
    requires
        past_universal(c, t, x),
    ensures
        base(c, 0) <= x.dimacs() < base(c, t),
    decreases t,
{
    lemma_base(c, (t - 1) as nat, t);
    lemma_base(c, 0, (t - 1) as nat);
    if past_universal(c, (t - 1) as nat, x) {
        lemma_past(c, (t - 1) as nat, x);
    }
}

/// A play in which the controller answers the first moves of the
/// environment.
proof fn lemma_answered(c: Circuit, t: nat, depth: nat, b: Assignment) -> (a: Assignment)
    requires
        c.wf(),
        c.complete(),
        fits_depth(c, depth),
        0 < t <= depth,
        c.wins_for(c.initial(), depth),
    ensures
        holds_upto(c, t, a),
        c.wins_for(state_at(c, t, a), (depth - t) as nat),
        forall|x: Var| past_universal(c, depth, x) || x.dimacs() >= base(c, t) ==> #[trigger] a(x) == b(x),
    decreases t,
{
    let s = (t - 1) as nat;
    let p = if s == 0 { b } else { lemma_answered(c, s, depth, b) };
    let state = if s == 0 { c.initial() } else { state_at(c, s, p) };
    let env = Seq::new(c.aiger.inputs@.len(), |i: int| p(var_of(input_num(c, s, i))));
    let left = (depth - s) as nat;
    assert(c.is_move(env));
    assert(c.survives(state, env, left));
    let v = choose|v: Values| #[trigger] c.answers(v, state, env) && c.safe(v) && c.wins_for(c.next(v), (left - 1) as nat);
    lemma_base(c, s, t);
    lemma_base(c, t, depth);
    lemma_base(c, 0, s);
    lemma_play(c, s, p, v, env, state);
    let a = play(c, s, p, v);
    assert forall|x: Var| past_universal(c, depth, x) || x.dimacs() >= base(c, t) implies #[trigger] a(x) == b(x) by {
        crate::literal::lemma_var_of(x);
        if past_universal(c, depth, x) {
            lemma_past(c, depth, x);
            lemma_past_step(c, s, depth, x);
        }
        if x.dimacs() < UNROLL_LIMIT {
            crate::aiger::alternating::lemma_step_existentials(c, s, x.dimacs());
            assert(var_of(x.dimacs()) == x);
        }
        assert(!step_existentials(c, s).contains(x)) by {
            if x.dimacs() >= UNROLL_LIMIT && step_existentials(c, s).contains(x) {
                lemma_existential_bound(c, s, x);
            }
        }
        assert(p(x) == a(x));
    }
    a
}

/// A variable that a step binds existentially is below the next step.
proof fn lemma_existential_bound(c: Circuit, t: nat, x: Var)
    requires
        c.wf(),
        fits_depth(c, t + 1),
        step_existentials(c, t).contains(x),
    ensures
        x.dimacs() < UNROLL_LIMIT,
{
    let es = step_existentials(c, t);
    lemma_base(c, t, t + 1);
    lemma_base(c, 0, t);
    let k = choose|k: int| 0 <= k < es.len() && es[k] == x;
    lemma_input_vars(c, t, c.aiger.inputs@.len() as int);
    let start = if t == 0 {
        numbered(1, 1 + c.aiger.latches@.len())
    } else {
        Seq::empty()
    };
    let inputs = step_inputs(c, t, c.aiger.inputs@.len() as int, true);
    if k < start.len() {
        lemma_num(1 + k);
    } else if k < start.len() + inputs.len() {
        assert(es[k] == inputs[k - start.len()]);
    } else if k < start.len() + inputs.len() + c.aiger.ands@.len() {
        lemma_num(gate_num(c, t, 0) + (k - start.len() - inputs.len()));
    } else {
        lemma_num(state_num(c, t + 1, 0) + (k - start.len() - inputs.len() - c.aiger.ands@.len()));
    }
}

proof fn lemma_input_vars(c: Circuit, t: nat, count: int)
    requires
        0 <= count <= c.aiger.inputs@.len(),
        1 <= base(c, t),
        base(c, t) + count < UNROLL_LIMIT,
    ensures
        forall|k: int| 0 <= k < step_inputs(c, t, count, true).len() ==> (#[trigger] step_inputs(c, t, count, true)[k]).dimacs() < UNROLL_LIMIT,
    decreases count,
{
    if count > 0 {
        lemma_input_vars(c, t, count - 1);
        lemma_num(input_num(c, t, count - 1));
        let all = step_inputs(c, t, count, true);
        let before = step_inputs(c, t, count - 1, true);
        assert forall|k: int| 0 <= k < all.len() implies (#[trigger] all[k]).dimacs() < UNROLL_LIMIT by {
            if k < before.len() {
                assert(all[k] == before[k]);
            }
        }
    }
}

/// An uncontrollable input is not bound existentially at a step.
proof fn lemma_past_step(c: Circuit, s: nat, depth: nat, x: Var)
    requires
        c.wf(),
        past_universal(c, depth, x),
        s < depth,
    ensures
        base(c, s) <= x.dimacs() < base(c, s + 1) ==> x.dimacs() < base(c, s) + c.aiger.inputs@.len() && !c.controllable@[x.dimacs() - base(c, s)],
        x.dimacs() >= base(c, 0),
    decreases depth,
{
    let d = (depth - 1) as nat;
    lemma_past(c, depth, x);
    if past_universal(c, d, x) {
        lemma_past(c, d, x);
        if s < d {
            lemma_past_step(c, s, d, x);
        }
    } else if s < d {
        lemma_base(c, s + 1, d);
    }
}

/// A depth that the controller wins is a satisfiable unrolling: an
/// unsatisfiable depth refutes realizability outright.
pub proof fn law_satisfiable_unrolling_is_necessary(u: Unroller, solver: IncrementalSolver)
    requires
        solver.wf(),
        unrolls(u, solver),
        u.circuit().wins_for(u.circuit().initial(), u.steps() as nat),
    ensures
        formula_true(solver.blocks(), solver.clauses()),
{
    let c = u.circuit();
    let t = u.steps() as nat;
    let p = solver.blocks();
    let m = solver.clauses();
    assert forall|b: Assignment| #[trigger] answerable(c, t, solver.fresh(), m, b) by {
        if t == 0 {
            assert(matrix_true(b, m));
        } else {
            let a = lemma_answered(c, t, t, b);
            assert(matrix_true(a, m));
        }
    }
    lemma_flat(c, t, solver);
}

/// The clauses can be satisfied whatever the uncontrollable inputs are.
spec fn answerable(c: Circuit, t: nat, fresh: u32, m: Matrix, b: Assignment) -> bool {
    exists|a: Assignment| #[trigger]
        matrix_true(a, m) && forall|x: Var| past_universal(c, t, x) || x.dimacs() >= fresh ==> #[trigger] a(x) == b(x)
}

/// The formula of a stack with the universals of the steps.
proof fn lemma_flat(c: Circuit, t: nat, solver: IncrementalSolver)
    requires
        forall|x: Var| #[trigger] stacked_universals(solver.stack()).contains(x) <==> past_universal(c, t, x),
        forall|x: Var| #[trigger]
            stacked_existentials(solver.stack()).contains(x) <==> x.dimacs() < solver.fresh() && !past_universal(c, t, x),
        forall|b: Assignment| #[trigger] answerable(c, t, solver.fresh(), solver.clauses(), b),
    ensures
        formula_true(solver.blocks(), solver.clauses()),
{
    let us = stacked_universals(solver.stack());
    let es = stacked_existentials(solver.stack());
    let inner = firsts(es, Seq::empty());
    let outer = firsts(us, inner);
    lemma_firsts(es, Seq::empty());
    lemma_firsts(us, inner);
    let p = solver.blocks();
    let m = solver.clauses();
    let none: Prefix = Seq::empty();
    let q = with_block(QuantTy::Exists, inner, none);
    assert forall|b: Assignment| #[trigger] qbf(q, m, b) by {
        assert(answerable(c, t, solver.fresh(), m, b));
        let a = choose|a: Assignment| #[trigger]
            matrix_true(a, m) && forall|x: Var| past_universal(c, t, x) || x.dimacs() >= solver.fresh() ==> #[trigger] a(x) == b(x);
        assert forall|x: Var| !inner.contains(x) implies #[trigger] b(x) == a(x) by {
            assert(!es.contains(x));
        }
        assert(agree_off(b, a, inner));
        assert(qbf(none, m, a));
        lemma_exists_block(inner, none, m, b);
    }
    let a = |x: Var| true;
    if outer.len() == 0 {
        assert(p =~= q);
        assert(qbf(p, m, a));
    } else {
        assert(p =~= with_block(QuantTy::Forall, outer, q));
        lemma_forall_block(outer, q, m, a);
        assert(qbf(p, m, a));
    }
}

} // verus!
