//! Safety games, solved by shrinking the winning region.
//!
//! The winning region starts as *all* states and is refined by the query
//! "from every state of the region, whatever the environment plays, can the
//! controller avoid the error and stay in the region?", which is 2QBF
//! whatever the game's depth. An unsatisfiable answer yields a universal
//! witness: a cube of states, with an environment move, from which the
//! controller cannot stay; the cube leaves the region and the query is
//! asked again. A satisfiable answer means that the region is the greatest
//! fixpoint, and the controller wins iff the initial state survived.
use crate::aiger::circuit::{Circuit, Class, Values};
use crate::aiger::parse::ParseError;
use crate::aiger::qaiger::{parse_circuit, reads_circuit};
use crate::incdet::load::universal_first;
use crate::incdet::{in_range, refutes, Options};
use crate::incremental::stack::{firsts, lemma_firsts, stacked_existentials, stacked_universals};
use crate::incremental::{clause_of, lit_numbered, same_declarations, IncrementalSolver};
use crate::literal::{lit_of, var_of, Lit, Var};
use crate::normal::{has_free, shape};
use crate::quantifier::QuantTy;
use crate::semantics::{
    agree_off, bound, bound_by, clause_mentions, clause_true, cube_true, formula_true, lemma_exists_block, lemma_forall_block,
    lemma_matrix_coincide, lit_true, matrix_true, mentions, qbf, set_var, with_block, Assignment, Matrix, Prefix,
};
use crate::SolverResult;
use vstd::prelude::*;
use vstd::string::*;

verus! {

broadcast use crate::literal::group_literal;

/// The outcome of a safety-game fixpoint computation.
#[derive(Debug, Clone, PartialEq, Eq)]
pub struct SafetyOutcome {
    /// whether the controller wins from the initial state: an *unbounded*
    /// answer, not a bounded approximation
    pub realizable: bool,
    /// the losing region, as cubes over the latches (index, value); its
    /// complement is the greatest fixpoint
    pub losing: Vec<Vec<(usize, bool)>>,
    /// refinement rounds taken, i.e. incremental solves
    pub rounds: u32,
    /// how many of those computed the *safe states* before the backward
    /// induction began
    pub safe_rounds: u32,
    /// in-place monotone extensions the incremental core managed over the
    /// run
    pub extensions: u32,
    /// rounds whose refutation carried no verifiable universal witness
    pub fallback_rounds: u32,
}

/// The state is in the cube.
pub open spec fn in_cube(cube: Seq<(usize, bool)>, state: Seq<bool>) -> bool {
    forall|i: int| 0 <= i < cube.len() ==> state[(#[trigger] cube[i]).0 as int] == cube[i].1
}

/// The state is in one of the cubes.
pub open spec fn lost(cubes: Seq<Vec<(usize, bool)>>, state: Seq<bool>) -> bool {
    exists|k: int| 0 <= k < cubes.len() && in_cube((#[trigger] cubes[k])@, state)
}

/// The cubes are over the latches.
pub open spec fn cubes_ok(cubes: Seq<Vec<(usize, bool)>>, latches: nat) -> bool {
    forall|k: int, i: int| 0 <= k < cubes.len() && 0 <= i < cubes[k]@.len() ==> (#[trigger] cubes[k]@[i]).0 < latches
}

/// The variables of the encoding: latches, inputs, the constant, gates,
/// and the next values of the latches, in order.
pub ghost struct Layout {
    pub latches: nat,
    pub inputs: nat,
    pub gates: nat,
}

impl Layout {
    pub open spec fn of(circuit: Circuit) -> Layout {
        Layout {
            latches: circuit.aiger.latches@.len(),
            inputs: circuit.aiger.inputs@.len(),
            gates: circuit.aiger.ands@.len(),
        }
    }

    pub open spec fn state(self, i: int) -> int {
        1 + i
    }

    pub open spec fn input(self, i: int) -> int {
        1 + self.latches + i
    }

    pub open spec fn truth(self) -> int {
        1 + self.latches as int + self.inputs as int
    }

    pub open spec fn gate(self, i: int) -> int {
        2 + self.latches + self.inputs + i
    }

    pub open spec fn next(self, i: int) -> int {
        2 + self.latches + self.inputs + self.gates + i
    }

    pub open spec fn end(self) -> int {
        2 + 2 * self.latches as int + self.inputs as int + self.gates as int
    }

    /// The values that an assignment gives to the circuit.
    pub open spec fn values(self, a: Assignment) -> Values {
        Values {
            state: Seq::new(self.latches, |i: int| a(var_of(self.state(i)))),
            inputs: Seq::new(self.inputs, |i: int| a(var_of(self.input(i)))),
            gates: Seq::new(self.gates, |i: int| a(var_of(self.gate(i)))),
        }
    }

    /// The next state that an assignment gives.
    pub open spec fn next_state(self, a: Assignment) -> Seq<bool> {
        Seq::new(self.latches, |i: int| a(var_of(self.next(i))))
    }

    /// The variable is universal: a latch, or an uncontrollable input.
    pub open spec fn universal(self, circuit: Circuit, x: Var) -> bool {
        let n = x.dimacs();
        1 <= n <= self.latches || (self.latches < n <= self.latches + self.inputs && !circuit.controllable@[n - 1 - self.latches])
    }
}

/// The number of the variable that a literal of the circuit is on.
pub open spec fn slot(circuit: Circuit, lit: u64) -> int {
    let layout = Layout::of(circuit);
    if lit < 2 {
        layout.truth()
    } else {
        match circuit.classes@[lit as int / 2] {
            Some(Class::Input(i)) => layout.input(i as int),
            Some(Class::Latch(i)) => layout.state(i as int),
            Some(Class::Gate(i)) => layout.gate(i as int),
            None => 0,
        }
    }
}

/// The DIMACS number of a literal of the circuit.
pub open spec fn number_of(circuit: Circuit, lit: u64) -> int {
    if lit == 0 || (lit >= 2 && lit % 2 == 1) {
        -slot(circuit, lit)
    } else {
        slot(circuit, lit)
    }
}

proof fn lemma_slot(circuit: Circuit, lit: u64)
    requires
        circuit.wf(),
        lit as int / 2 <= circuit.aiger.max_var,
        circuit.defines(lit),
    ensures
        1 <= slot(circuit, lit) < Layout::of(circuit).next(0),
        Layout::of(circuit).end() < 2_000_000_010,
{
}

/// A literal of the circuit has the value that the assignment gives it.
proof fn lemma_value(circuit: Circuit, a: Assignment, lit: u64, number: i32)
    requires
        circuit.wf(),
        lit as int / 2 <= circuit.aiger.max_var,
        circuit.defines(lit),
        number == number_of(circuit, lit),
        a(var_of(Layout::of(circuit).truth())),
    ensures
        lit_true(a, lit_numbered(number)) == circuit.value(Layout::of(circuit).values(a), lit),
{
    let n = slot(circuit, lit);
    lemma_slot(circuit, lit);
    crate::literal::lemma_var_index(n - 1);
    crate::literal::lemma_lit_of(var_of(n), number > 0);
    assert(lit_numbered(number) == lit_of(var_of(n), number > 0));
    if lit >= 2 {
        match circuit.classes@[lit as int / 2] {
            Some(Class::Input(i)) => {},
            Some(Class::Latch(i)) => {},
            Some(Class::Gate(i)) => {},
            None => {},
        }
    }
}

/// What the clauses say of an assignment: the circuit has the values of its
/// gates, the next state is named, and so is whether the two states are
/// lost.
pub open spec fn facts(circuit: Circuit, losing: Seq<Vec<(usize, bool)>>, clear: Option<u32>, next_clear: Option<u32>, a: Assignment) -> bool {
    let layout = Layout::of(circuit);
    let v = layout.values(a);
    &&& a(var_of(layout.truth()))
    &&& circuit.consistent(v)
    &&& layout.next_state(a) == circuit.next(v)
    &&& match clear {
        Some(x) => a(var_of(x as int)) == !lost(losing, v.state),
        None => losing.len() == 0,
    }
    &&& match next_clear {
        Some(x) => a(var_of(x as int)) == !lost(losing, layout.next_state(a)),
        None => losing.len() == 0,
    }
}

/// Some assignment that satisfies the clauses has the values.
#[verifier::opaque]
pub open spec fn realized(circuit: Circuit, m: Matrix, v: Values) -> bool {
    exists|a: Assignment| Layout::of(circuit).values(a) == v && #[trigger] matrix_true(a, m)
}

/// The clauses encode the circuit and its losing states.
pub open spec fn encodes(circuit: Circuit, m: Matrix, losing: Seq<Vec<(usize, bool)>>, clear: Option<u32>, next_clear: Option<u32>) -> bool {
    &&& forall|a: Assignment| #[trigger] matrix_true(a, m) ==> facts(circuit, losing, clear, next_clear, a)
    &&& forall|v: Values| #[trigger] circuit.consistent(v) ==> realized(circuit, m, v)
}

/// The stack declares the variables below a number: the universal ones of
/// the layout, and the others existential.
pub open spec fn declared(circuit: Circuit, solver: IncrementalSolver) -> bool {
    let us = stacked_universals(solver.stack());
    let es = stacked_existentials(solver.stack());
    let layout = Layout::of(circuit);
    &&& forall|x: Var| #[trigger] us.contains(x) ==> layout.universal(circuit, x) && x.dimacs() < solver.fresh()
    &&& forall|x: Var| #[trigger] es.contains(x) ==> !layout.universal(circuit, x) && x.dimacs() < solver.fresh()
    &&& forall|x: Var| #![trigger us.contains(x)] #![trigger es.contains(x)] x.dimacs() < solver.fresh() ==> us.contains(x) || es.contains(x)
}

/// The blocks bind the declared variables.
proof fn lemma_blocks(circuit: Circuit, solver: IncrementalSolver)
    requires
        declared(circuit, solver),
        Layout::of(circuit).truth() <= solver.fresh(),
    ensures
        forall|x: Var| #[trigger] bound_by(solver.blocks(), QuantTy::Forall, x) <==> Layout::of(circuit).universal(circuit, x),
        forall|x: Var| x.dimacs() < solver.fresh() ==> #[trigger] bound(solver.blocks(), x),
        forall|x: Var| #[trigger] bound(solver.blocks(), x) ==> x.dimacs() < solver.fresh(),
        ({
            let p = solver.blocks();
            ||| p.len() == 1 && p[0].0 == QuantTy::Exists && forall|x: Var| p[0].1.contains(x) ==> !#[trigger] Layout::of(circuit).universal(circuit, x)
            ||| p.len() == 2 && p[0].0 == QuantTy::Forall && p[1].0 == QuantTy::Exists && p[0].1.len() > 0 && forall|x: Var|
                p[1].1.contains(x) ==> !#[trigger] Layout::of(circuit).universal(circuit, x)
        }),
{
    let us = stacked_universals(solver.stack());
    let es = stacked_existentials(solver.stack());
    let layout = Layout::of(circuit);
    let inner = firsts(es, Seq::empty());
    let outer = firsts(us, inner);
    lemma_firsts(es, Seq::empty());
    lemma_firsts(us, inner);
    let p = solver.blocks();
    assert forall|x: Var| #[trigger] outer.contains(x) <==> layout.universal(circuit, x) by {
        if layout.universal(circuit, x) {
            assert(us.contains(x) || es.contains(x));
        }
        if outer.contains(x) {
            assert(us.contains(x));
        }
        if inner.contains(x) {
            assert(es.contains(x));
        }
    }
    assert forall|x: Var| #[trigger] inner.contains(x) implies !layout.universal(circuit, x) by {
        assert(es.contains(x));
    }
    if outer.len() == 0 {
        assert(p =~= seq![(QuantTy::Exists, inner)]);
    } else {
        assert(p =~= seq![(QuantTy::Forall, outer), (QuantTy::Exists, inner)]);
    }
    assert forall|x: Var| #[trigger] bound_by(p, QuantTy::Forall, x) <==> layout.universal(circuit, x) by {
        if layout.universal(circuit, x) {
            assert(outer.contains(x));
            assert(outer.len() > 0);
            assert(p[0].0 == QuantTy::Forall && p[0].1.contains(x));
        }
        if bound_by(p, QuantTy::Forall, x) {
            let k = choose|k: int| 0 <= k < p.len() && (#[trigger] p[k]).0 == QuantTy::Forall && p[k].1.contains(x);
            assert(outer.contains(x));
        }
    }
    assert forall|x: Var| x.dimacs() < solver.fresh() implies #[trigger] bound(p, x) by {
        assert(us.contains(x) || es.contains(x));
        if es.contains(x) {
            assert(inner.contains(x));
            assert(p[p.len() - 1].1.contains(x));
        } else {
            assert(outer.contains(x));
            assert(p[0].1.contains(x));
        }
    }
    assert forall|x: Var| #[trigger] bound(p, x) implies x.dimacs() < solver.fresh() by {
        let k = choose|k: int| 0 <= k < p.len() && (#[trigger] p[k]).1.contains(x);
        if outer.contains(x) {
            assert(us.contains(x));
        } else {
            assert(inner.contains(x));
            assert(es.contains(x));
        }
    }
}

/// A fresh definition can be satisfied without touching the circuit.
proof fn lemma_realized_step(circuit: Circuit, m: Matrix, after: Matrix, n: u32, lits: Seq<Lit>)
    requires
        Layout::of(circuit).next(0) <= n,
        n <= 2_147_483_647,
        forall|x: Var| #[trigger] mentions(m, x) ==> x.dimacs() < n,
        forall|i: int| 0 <= i < lits.len() ==> (#[trigger] lits[i]).v().dimacs() < n,
        forall|a: Assignment| #[trigger] matrix_true(a, after) <==> matrix_true(a, m) && (a(var_of(n as int)) == cube_true(a, lits)),
    ensures
        forall|v: Values| realized(circuit, m, v) ==> #[trigger] realized(circuit, after, v),
{
    let layout = Layout::of(circuit);
    crate::literal::lemma_var_index(n - 1);
    let x = var_of(n as int);
    assert forall|v: Values| realized(circuit, m, v) implies #[trigger] realized(circuit, after, v) by {
        reveal(realized);
        let a = choose|a: Assignment| layout.values(a) == v && #[trigger] matrix_true(a, m);
        let b = set_var(a, x, cube_true(a, lits));
        assert forall|y: Var| mentions(m, y) implies #[trigger] a(y) == b(y) by {}
        lemma_matrix_coincide(m, a, b);
        assert forall|i: int| 0 <= i < lits.len() implies lit_true(a, #[trigger] lits[i]) == lit_true(b, lits[i]) by {}
        assert(cube_true(a, lits) == cube_true(b, lits));
        assert(matrix_true(b, after));
        assert forall|i: int| 1 <= i < n implies a(#[trigger] var_of(i)) == b(var_of(i)) by {
            crate::literal::lemma_var_index(i - 1);
        }
        let w = layout.values(b);
        assert(w.state =~= v.state);
        assert(w.inputs =~= v.inputs);
        assert(w.gates =~= v.gates);
        assert(w == v);
    }
}

/// The circuit's numbering of a variable.
pub(crate) proof fn lemma_number(x: Var, n: int)
    requires
        1 <= n <= 2_147_483_647,
    ensures
        x == var_of(n) <==> x.dimacs() == n,
        var_of(n).dimacs() == n,
{
    crate::literal::lemma_var_index(n - 1);
    crate::literal::lemma_var_of(x);
}

/// Declares a fresh variable.
pub(crate) fn declare_fresh(solver: &mut IncrementalSolver, universal: bool) -> (n: u32)
    requires
        old(solver).wf(),
        old(solver).fresh() < 2_147_483_647,
    ensures
        final(solver).wf(),
        final(solver).continues() == old(solver).continues(),
        final(solver).total() == old(solver).total(),
        n == old(solver).fresh(),
        final(solver).fresh() == n + 1,
        final(solver).stack().len() == old(solver).stack().len(),
        final(solver).clauses() == old(solver).clauses(),
        forall|x: Var| #[trigger]
            stacked_universals(final(solver).stack()).contains(x) <==> stacked_universals(old(solver).stack()).contains(x) || (universal
                && x.dimacs() == n),
        forall|x: Var| #[trigger]
            stacked_existentials(final(solver).stack()).contains(x) <==> stacked_existentials(old(solver).stack()).contains(x) || (!universal
                && x.dimacs() == n),
{
    let ghost before = solver.stack();
    proof {
        solver.lemma_has_frame();
    }
    let n = solver.fresh_var();
    if universal {
        solver.declare_universal(n);
    } else {
        solver.declare_existential(n);
    }
    proof {
        let q = if universal { QuantTy::Forall } else { QuantTy::Exists };
        crate::incremental::lemma_declares(before, solver.stack(), n, q);
        let y = var_of(n as int);
        assert forall|x: Var| #[trigger]
            stacked_universals(solver.stack()).contains(x) <==> stacked_universals(before).contains(x) || (universal && x.dimacs() == n) by {
            lemma_number(x, n as int);
            crate::datastructure::lemma_push_contains(stacked_universals(before), y, x);
        }
        assert forall|x: Var| #[trigger]
            stacked_existentials(solver.stack()).contains(x) <==> stacked_existentials(before).contains(x) || (!universal && x.dimacs()
                == n) by {
            lemma_number(x, n as int);
            crate::datastructure::lemma_push_contains(stacked_existentials(before), y, x);
        }
    }
    n
}

/// Defines a number as a conjunction, with the number declared
/// existential.
pub(crate) fn define(solver: &mut IncrementalSolver, n: u32, lits: &Vec<i32>)
    requires
        old(solver).wf(),
        0 < n < old(solver).fresh(),
        old(solver).fresh() < 2_147_483_647,
        crate::incremental::below_fresh(lits@, old(solver).fresh()),
        forall|i: int| 0 <= i < lits@.len() ==> #[trigger] lits@[i] != 0,
    ensures
        final(solver).wf(),
        final(solver).continues() == old(solver).continues(),
        final(solver).total() == old(solver).total(),
        final(solver).fresh() == old(solver).fresh(),
        final(solver).stack().len() == old(solver).stack().len(),
        stacked_universals(final(solver).stack()) == stacked_universals(old(solver).stack()),
        forall|x: Var| #[trigger]
            stacked_existentials(final(solver).stack()).contains(x) <==> stacked_existentials(old(solver).stack()).contains(x) || x.dimacs() == n,
        forall|a: Assignment| #[trigger]
            matrix_true(a, final(solver).clauses()) <==> matrix_true(a, old(solver).clauses()) && (a(var_of(n as int)) == cube_true(
                a,
                clause_of(lits@),
            )),
{
    let ghost before = solver.stack();
    solver.define_and(n, lits.as_slice());
    proof {
        let y = var_of(n as int);
        assert forall|x: Var| #[trigger]
            stacked_existentials(solver.stack()).contains(x) <==> stacked_existentials(before).contains(x) || x.dimacs() == n by {
            lemma_number(x, n as int);
            crate::datastructure::lemma_push_contains(stacked_existentials(before), y, x);
        }
    }
}

impl Circuit {
    /// The number of a literal of the circuit in the encoding.
    fn encoded(&self, lit: u64) -> (number: i32)
        requires
            self.wf(),
            lit as int / 2 <= self.aiger.max_var,
            self.defines(lit),
        ensures
            number == number_of(*self, lit),
            number != 0,
            -(Layout::of(*self).next(0)) < number < Layout::of(*self).next(0),
    {
        proof {
            lemma_slot(*self, lit);
        }
        let latches = self.aiger.latches.len();
        let inputs = self.aiger.inputs.len();
        let n = if lit < 2 {
            1 + latches + inputs
        } else {
            match self.classes[(lit / 2) as usize] {
                Some(Class::Input(i)) => 1 + latches + i,
                Some(Class::Latch(i)) => 1 + i,
                Some(Class::Gate(i)) => 2 + latches + inputs + i,
                None => 0,
            }
        };
        if lit == 0 || (lit >= 2 && lit % 2 == 1) {
            -(n as i32)
        } else {
            n as i32
        }
    }
}

/// An assignment with the given values.
spec fn assign(circuit: Circuit, v: Values) -> Assignment {
    let layout = Layout::of(circuit);
    |x: Var|
        {
            let n = x.dimacs();
            if n < layout.input(0) {
                v.state[n - 1]
            } else if n < layout.truth() {
                v.inputs[n - layout.input(0)]
            } else if n == layout.truth() {
                true
            } else if n < layout.next(0) {
                v.gates[n - layout.gate(0)]
            } else {
                circuit.next(v)[n - layout.next(0)]
            }
        }
}

/// The first gates and next values are what they are defined to be.
spec fn defined(circuit: Circuit, gates: int, nexts: int, a: Assignment) -> bool {
    let layout = Layout::of(circuit);
    let v = layout.values(a);
    &&& a(var_of(layout.truth()))
    &&& forall|g: int| 0 <= g < gates ==> #[trigger] v.gates[g] == (circuit.value(v, circuit.aiger.ands@[g].rhs0) && circuit.value(
        v,
        circuit.aiger.ands@[g].rhs1,
    ))
    &&& forall|i: int| 0 <= i < nexts ==> #[trigger] layout.next_state(a)[i] == circuit.value(v, circuit.aiger.latches@[i].next)
}

/// A safety game under refinement.
pub(crate) struct Game {
    circuit: Circuit,
    solver: IncrementalSolver,
    /// variables that hold iff the state, or the next state, is in none of
    /// the losing cubes
    clear: Option<u32>,
    next_clear: Option<u32>,
    losing: Vec<Vec<(usize, bool)>>,
}

impl Game {
    spec fn wf(&self) -> bool {
        &&& self.circuit.wf()
        &&& self.circuit.complete()
        &&& self.solver.wf()
        &&& self.solver.stack().len() == 1
        &&& declared(self.circuit, self.solver)
        &&& Layout::of(self.circuit).end() <= self.solver.fresh()
        &&& encodes(self.circuit, self.solver.clauses(), self.losing@, self.clear, self.next_clear)
        &&& cubes_ok(self.losing@, self.circuit.aiger.latches@.len())
        &&& self.clear matches Some(x) ==> 0 < x < self.solver.fresh()
        &&& self.next_clear matches Some(x) ==> 0 < x < self.solver.fresh()
    }

    /// The game of a circuit, with no state lost.
    fn new(circuit: Circuit, options: Options, continuation: bool) -> (game: Game)
        requires
            circuit.wf(),
            circuit.complete(),
        ensures
            game.wf(),
            game.circuit == circuit,
            game.losing@.len() == 0,
            game.solver.continues() == continuation,
            game.solver.total() == 0,
            game.solver.fresh() == Layout::of(circuit).end(),
    {
        let ghost layout = Layout::of(circuit);
        let mut solver = IncrementalSolver::new(options);
        solver.set_continuation(continuation);
        proof {
            assert(solver.stack().drop_last() =~= Seq::<crate::incremental::stack::Frame>::empty());
            assert(stacked_universals(solver.stack().drop_last()) == Seq::<Var>::empty());
            assert(stacked_existentials(solver.stack().drop_last()) == Seq::<Var>::empty());
            assert(stacked_universals(solver.stack()) =~= Seq::<Var>::empty());
            assert(stacked_existentials(solver.stack()) =~= Seq::<Var>::empty());
        }
        let latches = circuit.aiger.latches.len();
        let inputs = circuit.aiger.inputs.len();
        let gates = circuit.aiger.ands.len();
        let mut k: usize = 0;
        while k < latches
            invariant
                k <= latches,
                circuit.wf(),
                layout == Layout::of(circuit),
                latches == layout.latches,
                solver.wf(),
                solver.continues() == continuation,
                solver.total() == 0,
                solver.stack().len() == 1,
                solver.clauses() == Matrix::empty(),
                solver.fresh() == 1 + k,
                forall|x: Var| #[trigger] stacked_universals(solver.stack()).contains(x) <==> 1 <= x.dimacs() <= k,
                forall|x: Var| !#[trigger] stacked_existentials(solver.stack()).contains(x),
            decreases latches - k,
        {
            let n = declare_fresh(&mut solver, true);
            k += 1;
        }
        let mut k: usize = 0;
        while k < inputs
            invariant
                k <= inputs,
                circuit.wf(),
                layout == Layout::of(circuit),
                latches == layout.latches,
                inputs == layout.inputs,
                solver.wf(),
                solver.continues() == continuation,
                solver.total() == 0,
                solver.stack().len() == 1,
                solver.clauses() == Matrix::empty(),
                solver.fresh() == layout.input(k as int),
                forall|x: Var| #[trigger]
                    stacked_universals(solver.stack()).contains(x) <==> layout.universal(circuit, x) && x.dimacs() < solver.fresh(),
                forall|x: Var| #[trigger]
                    stacked_existentials(solver.stack()).contains(x) <==> latches < x.dimacs() < solver.fresh() && circuit.controllable@[x.dimacs() - 1 - latches],
            decreases inputs - k,
        {
            let controllable = circuit.controllable[k];
            let n = declare_fresh(&mut solver, !controllable);
            k += 1;
        }
        let truth = declare_fresh(&mut solver, false);
        let truth_clause: Vec<i32> = vec![truth as i32];
        solver.add_clause(truth_clause.as_slice());
        let mut k: usize = 0;
        while k < gates + latches
            invariant
                k <= gates + latches,
                circuit.wf(),
                layout == Layout::of(circuit),
                latches == layout.latches,
                inputs == layout.inputs,
                gates == layout.gates,
                solver.wf(),
                solver.continues() == continuation,
                solver.total() == 0,
                solver.stack().len() == 1,
                solver.fresh() == layout.gate(0) + k,
                solver.clauses() == Matrix::empty().push(clause_of(truth_clause@)),
                forall|x: Var| #[trigger]
                    stacked_universals(solver.stack()).contains(x) <==> layout.universal(circuit, x) && x.dimacs() < layout.truth(),
                forall|x: Var| #[trigger]
                    stacked_existentials(solver.stack()).contains(x) <==> x.dimacs() == layout.truth() || (latches < x.dimacs() < layout.truth() && circuit.controllable@[x.dimacs() - 1 - latches]),
            decreases gates + latches - k,
        {
            let n = solver.fresh_var();
            k += 1;
        }
        proof {
            let c = clause_of(truth_clause@);
            assert forall|a: Assignment| #[trigger] matrix_true(a, solver.clauses()) <==> defined(circuit, 0, 0, a) by {
                lemma_truth_clause(circuit, a, c, truth as i32);
                crate::simplify::lemma_push_true(a, Matrix::empty(), c);
            }
        }
        let mut k: usize = 0;
        while k < gates
            invariant
                k <= gates,
                circuit.wf(),
                circuit.complete(),
                layout == Layout::of(circuit),
                latches == layout.latches,
                inputs == layout.inputs,
                gates == layout.gates,
                solver.wf(),
                solver.continues() == continuation,
                solver.total() == 0,
                solver.stack().len() == 1,
                solver.fresh() == layout.end(),
                forall|x: Var| #[trigger]
                    stacked_universals(solver.stack()).contains(x) <==> layout.universal(circuit, x) && x.dimacs() < layout.truth(),
                forall|x: Var| #[trigger]
                    stacked_existentials(solver.stack()).contains(x) <==> layout.truth() <= x.dimacs() < layout.gate(k as int) || (latches < x.dimacs() < layout.truth()
                        && circuit.controllable@[x.dimacs() - 1 - latches]),
                forall|a: Assignment| #[trigger] matrix_true(a, solver.clauses()) <==> defined(circuit, k as int, 0, a),
            decreases gates - k,
        {
            let and = circuit.aiger.ands[k];
            assert(circuit.aiger.ands@[k as int].rhs0 as int / 2 <= circuit.aiger.max_var);
            assert(circuit.defines(circuit.aiger.ands@[k as int].rhs0) && circuit.defines(circuit.aiger.ands@[k as int].rhs1));
            let left = circuit.encoded(and.rhs0);
            let right = circuit.encoded(and.rhs1);
            let n = 2 + latches + inputs + k;
            let lits: Vec<i32> = vec![left, right];
            let ghost m = solver.clauses();
            define(&mut solver, n as u32, &lits);
            proof {
                assert forall|a: Assignment| #[trigger] matrix_true(a, solver.clauses()) <==> defined(circuit, k + 1, 0, a) by {
                    assert(matrix_true(a, m) <==> defined(circuit, k as int, 0, a));
                    lemma_two(a, clause_of(lits@), lit_numbered(left), lit_numbered(right));
                    if a(var_of(layout.truth())) {
                        lemma_value(circuit, a, and.rhs0, left);
                        lemma_value(circuit, a, and.rhs1, right);
                    }
                    assert(layout.values(a).gates[k as int] == a(var_of(n as int)));
                }
            }
            k += 1;
        }
        let mut k: usize = 0;
        while k < latches
            invariant
                k <= latches,
                circuit.wf(),
                circuit.complete(),
                layout == Layout::of(circuit),
                latches == layout.latches,
                inputs == layout.inputs,
                gates == layout.gates,
                solver.wf(),
                solver.continues() == continuation,
                solver.total() == 0,
                solver.stack().len() == 1,
                solver.fresh() == layout.end(),
                forall|x: Var| #[trigger]
                    stacked_universals(solver.stack()).contains(x) <==> layout.universal(circuit, x) && x.dimacs() < layout.truth(),
                forall|x: Var| #[trigger]
                    stacked_existentials(solver.stack()).contains(x) <==> layout.truth() <= x.dimacs() < layout.next(k as int) || (latches < x.dimacs() < layout.truth()
                        && circuit.controllable@[x.dimacs() - 1 - latches]),
                forall|a: Assignment| #[trigger] matrix_true(a, solver.clauses()) <==> defined(circuit, gates as int, k as int, a),
            decreases latches - k,
        {
            let next = circuit.aiger.latches[k].next;
            assert(circuit.aiger.latches@[k as int].next as int / 2 <= circuit.aiger.max_var);
            assert(circuit.defines(circuit.aiger.latches@[k as int].next));
            let number = circuit.encoded(next);
            let n = 2 + latches + inputs + gates + k;
            let lits: Vec<i32> = vec![number];
            let ghost m = solver.clauses();
            define(&mut solver, n as u32, &lits);
            proof {
                assert forall|a: Assignment| #[trigger] matrix_true(a, solver.clauses()) <==> defined(circuit, gates as int, k + 1, a) by {
                    assert(matrix_true(a, m) <==> defined(circuit, gates as int, k as int, a));
                    lemma_one(a, clause_of(lits@), lit_numbered(number));
                    if a(var_of(layout.truth())) {
                        lemma_value(circuit, a, next, number);
                    }
                    assert(layout.next_state(a)[k as int] == a(var_of(n as int)));
                }
            }
            k += 1;
        }
        let game = Game { circuit, solver, clear: None, next_clear: None, losing: Vec::new() };
        proof {
            lemma_encodes_start(circuit, game.solver.clauses());
            assert forall|x: Var| #[trigger] stacked_universals(game.solver.stack()).contains(x) implies layout.universal(circuit, x) && x.dimacs()
                < game.solver.fresh() by {}
            assert forall|x: Var| #[trigger] stacked_existentials(game.solver.stack()).contains(x) implies !layout.universal(circuit, x) && x.dimacs()
                < game.solver.fresh() by {}
            assert forall|x: Var| x.dimacs() < game.solver.fresh() implies stacked_universals(game.solver.stack()).contains(x)
                || stacked_existentials(game.solver.stack()).contains(x) by {
                crate::literal::lemma_var_of(x);
            }
        }
        game
    }
}

proof fn lemma_truth_clause(circuit: Circuit, a: Assignment, c: Seq<Lit>, truth: i32)
    requires
        circuit.wf(),
        truth == Layout::of(circuit).truth(),
        c.len() == 1,
        c[0] == lit_numbered(truth),
    ensures
        clause_true(a, c) == a(var_of(truth as int)),
{
    crate::literal::lemma_var_index(truth - 1);
    crate::literal::lemma_lit_of(var_of(truth as int), true);
    assert(c =~= seq![lit_numbered(truth)]);
    crate::aiger::qaiger::lemma_unit(a, lit_numbered(truth));
}

pub(crate) proof fn lemma_two(a: Assignment, c: Seq<Lit>, l: Lit, m: Lit)
    requires
        c.len() == 2,
        c[0] == l,
        c[1] == m,
    ensures
        cube_true(a, c) == (lit_true(a, l) && lit_true(a, m)),
{
    if cube_true(a, c) {
        assert(lit_true(a, c[0]) && lit_true(a, c[1]));
    }
    if lit_true(a, l) && lit_true(a, m) {
        assert forall|i: int| 0 <= i < c.len() implies lit_true(a, #[trigger] c[i]) by {
            assert(i == 0 || i == 1);
        }
    }
}

pub(crate) proof fn lemma_one(a: Assignment, c: Seq<Lit>, l: Lit)
    requires
        c.len() == 1,
        c[0] == l,
    ensures
        cube_true(a, c) == lit_true(a, l),
{
    if cube_true(a, c) {
        assert(lit_true(a, c[0]));
    }
}

/// The definitions of gates and next values encode the circuit.
proof fn lemma_encodes_start(circuit: Circuit, m: Matrix)
    requires
        circuit.wf(),
        circuit.complete(),
        forall|a: Assignment| #[trigger]
            matrix_true(a, m) <==> defined(circuit, circuit.aiger.ands@.len() as int, circuit.aiger.latches@.len() as int, a),
    ensures
        encodes(circuit, m, Seq::empty(), None, None),
{
    let layout = Layout::of(circuit);
    assert forall|a: Assignment| #[trigger] matrix_true(a, m) implies facts(circuit, Seq::empty(), None, None, a) by {
        assert(layout.next_state(a) =~= circuit.next(layout.values(a)));
    }
    assert forall|v: Values| #[trigger] circuit.consistent(v) implies realized(circuit, m, v) by {
        reveal(realized);
        let a = assign(circuit, v);
        assert forall|n: int| 1 <= n < layout.end() implies (#[trigger] var_of(n)).dimacs() == n by {
            lemma_number(var_of(n), n);
        }
        let w = layout.values(a);
        assert(w.state =~= v.state);
        assert(w.inputs =~= v.inputs);
        assert(w.gates =~= v.gates);
        assert(w == v);
        assert(a(var_of(layout.truth())));
        assert forall|i: int| 0 <= i < circuit.aiger.latches@.len() implies #[trigger] layout.next_state(a)[i] == circuit.value(
            v,
            circuit.aiger.latches@[i].next,
        ) by {
            assert(layout.next_state(a)[i] == a(var_of(layout.next(i))));
        }
        assert(defined(circuit, circuit.aiger.ands@.len() as int, circuit.aiger.latches@.len() as int, a));
        assert(matrix_true(a, m));
    }
}

/// What the constraints of a round say of an assignment: unless the state
/// is lost, no error is raised and, in the induction, the next state is not
/// lost.
pub open spec fn round_holds(circuit: Circuit, losing: Seq<Vec<(usize, bool)>>, induction: bool, a: Assignment) -> bool {
    let layout = Layout::of(circuit);
    let v = layout.values(a);
    lost(losing, v.state) || (circuit.safe(v) && (induction ==> !lost(losing, circuit.next(v))))
}

impl Game {
    /// Adds the constraints of a round in a frame of their own.
    fn push_round(&mut self, induction: bool)
        requires
            old(self).wf(),
            old(self).solver.fresh() < 2_147_483_647,
        ensures
            final(self).circuit == old(self).circuit,
            final(self).losing == old(self).losing,
            final(self).clear == old(self).clear,
            final(self).next_clear == old(self).next_clear,
            final(self).solver.wf(),
            final(self).solver.continues() == old(self).solver.continues(),
            final(self).solver.total() == old(self).solver.total(),
            final(self).solver.fresh() == old(self).solver.fresh(),
            final(self).solver.stack().len() == 2,
            final(self).solver.stack().drop_last() == old(self).solver.stack(),
            same_declarations(old(self).solver.stack(), final(self).solver.stack()),
            forall|a: Assignment| #[trigger]
                matrix_true(a, final(self).solver.clauses()) <==> matrix_true(a, old(self).solver.clauses()) && round_holds(
                    old(self).circuit,
                    old(self).losing@,
                    induction,
                    a,
                ),
    {
        let ghost circuit = self.circuit;
        let ghost losing = self.losing@;
        let ghost layout = Layout::of(circuit);
        let ghost m = self.solver.clauses();
        let ghost fresh = self.solver.fresh();
        self.solver.push();
        let mut k: usize = 0;
        proof {
            lemma_slot_range(circuit);
        }
        while k < self.circuit.aiger.outputs.len()
            invariant
                k <= circuit.aiger.outputs@.len(),
                self.circuit == circuit,
                self.losing@ == losing,
                self.losing == old(self).losing,
                self.clear == old(self).clear,
                self.next_clear == old(self).next_clear,
                layout == Layout::of(circuit),
                circuit.wf(),
                circuit.complete(),
                encodes(circuit, m, losing, self.clear, self.next_clear),
                fresh == old(self).solver.fresh(),
                layout.end() <= fresh < 2_147_483_647,
                self.clear matches Some(x) ==> 0 < x < fresh,
                self.solver.wf(),
                self.solver.continues() == old(self).solver.continues(),
                self.solver.total() == old(self).solver.total(),
                self.solver.fresh() == fresh,
                self.solver.stack().len() == 2,
                self.solver.stack().drop_last() == old(self).solver.stack(),
                same_declarations(old(self).solver.stack(), self.solver.stack()),
                forall|a: Assignment| #[trigger]
                    matrix_true(a, self.solver.clauses()) <==> matrix_true(a, m) && (lost(losing, layout.values(a).state) || forall|i: int|
                        0 <= i < k ==> !circuit.value(layout.values(a), #[trigger] circuit.aiger.outputs@[i])),
            decreases circuit.aiger.outputs@.len() - k,
        {
            let out = self.circuit.aiger.outputs[k];
            assert(circuit.aiger.outputs@[k as int] as int / 2 <= circuit.aiger.max_var);
            assert(circuit.defines(circuit.aiger.outputs@[k as int]));
            let number = self.circuit.encoded(out);
            let opposite: i32 = -number;
            let mut clause: Vec<i32> = vec![opposite];
            match self.clear {
                Some(x) => {
                    clause.push(-(x as i32));
                },
                None => {},
            }
            let ghost held = self.solver.clauses();
            assert(crate::incremental::below_fresh(clause@, fresh));
            self.solver.add_clause(clause.as_slice());
            proof {
                let c = clause_of(clause@);
                let clear = self.clear;
                assert forall|a: Assignment| #[trigger] matrix_true(a, self.solver.clauses()) <==> matrix_true(a, m) && (lost(
                    losing,
                    layout.values(a).state,
                ) || forall|i: int| 0 <= i < k + 1 ==> !circuit.value(layout.values(a), #[trigger] circuit.aiger.outputs@[i])) by {
                    crate::simplify::lemma_push_true(a, held, c);
                    assert(matrix_true(a, held) <==> matrix_true(a, m) && (lost(losing, layout.values(a).state) || forall|i: int|
                        0 <= i < k ==> !circuit.value(layout.values(a), #[trigger] circuit.aiger.outputs@[i])));
                    if matrix_true(a, m) {
                        assert(facts(circuit, losing, clear, self.next_clear, a));
                        lemma_value(circuit, a, out, number);
                        lemma_opposite(a, number);
                        match clear {
                            Some(x) => {
                                lemma_opposite_var(a, x);
                                assert(c =~= seq![lit_numbered((-number) as i32), lit_numbered((-(x as int)) as i32)]);
                                crate::aiger::qaiger::lemma_pair(a, lit_numbered((-number) as i32), lit_numbered((-(x as int)) as i32));
                            },
                            None => {
                                assert(c =~= seq![lit_numbered((-number) as i32)]);
                                crate::aiger::qaiger::lemma_unit(a, lit_numbered((-number) as i32));
                                assert(!lost(losing, layout.values(a).state));
                            },
                        }
                    }
                }
            }
            k += 1;
        }
        let ghost held = self.solver.clauses();
        if induction {
            match self.next_clear {
                Some(y) => {
                    let mut clause: Vec<i32> = vec![y as i32];
                    match self.clear {
                        Some(x) => {
                            clause.push(-(x as i32));
                        },
                        None => {},
                    }
                    assert(crate::incremental::below_fresh(clause@, fresh));
                    self.solver.add_clause(clause.as_slice());
                    proof {
                        let c = clause_of(clause@);
                        assert forall|a: Assignment| #[trigger] matrix_true(a, self.solver.clauses()) <==> matrix_true(a, m) && round_holds(
                            circuit,
                            losing,
                            true,
                            a,
                        ) by {
                            crate::simplify::lemma_push_true(a, held, c);
                            if matrix_true(a, m) {
                                assert(facts(circuit, losing, self.clear, self.next_clear, a));
                                lemma_own_var(a, y);
                                match self.clear {
                                    Some(x) => {
                                        lemma_opposite_var(a, x);
                                        assert(c =~= seq![lit_numbered(y as i32), lit_numbered((-(x as int)) as i32)]);
                                        crate::aiger::qaiger::lemma_pair(a, lit_numbered(y as i32), lit_numbered((-(x as int)) as i32));
                                    },
                                    None => {
                                        assert(c =~= seq![lit_numbered(y as i32)]);
                                        crate::aiger::qaiger::lemma_unit(a, lit_numbered(y as i32));
                                    },
                                }
                            }
                        }
                    }
                },
                None => {
                    proof {
                        assert forall|a: Assignment| #[trigger] matrix_true(a, self.solver.clauses()) <==> matrix_true(a, m) && round_holds(
                            circuit,
                            losing,
                            true,
                            a,
                        ) by {
                            if matrix_true(a, m) {
                                assert(facts(circuit, losing, self.clear, self.next_clear, a));
                                assert(!lost(losing, circuit.next(layout.values(a))));
                            }
                        }
                    }
                },
            }
        }
    }
}

/// Names whether a state is clear of one more cube, given the numbers of
/// the cube's literals and the name for the cubes before.
fn add_link(solver: &mut IncrementalSolver, numbers: &Vec<i32>, previous: Option<u32>, Ghost(circuit): Ghost<Circuit>) -> (clear: u32)
    requires
        old(solver).wf(),
        old(solver).stack().len() == 1,
        declared(circuit, *old(solver)),
        circuit.wf(),
        Layout::of(circuit).end() <= old(solver).fresh(),
        old(solver).fresh() + 2 < 2_147_483_647,
        crate::incremental::below_fresh(numbers@, old(solver).fresh()),
        forall|i: int| 0 <= i < numbers@.len() ==> #[trigger] numbers@[i] != 0,
        previous matches Some(x) ==> 0 < x < old(solver).fresh(),
    ensures
        final(solver).wf(),
        final(solver).stack().len() == 1,
        declared(circuit, *final(solver)),
        final(solver).continues() == old(solver).continues(),
        final(solver).total() == old(solver).total(),
        final(solver).fresh() == old(solver).fresh() + 2,
        0 < clear < final(solver).fresh(),
        forall|a: Assignment| #[trigger]
            matrix_true(a, final(solver).clauses()) ==> matrix_true(a, old(solver).clauses()) && (a(var_of(clear as int)) == (!cube_true(
                a,
                clause_of(numbers@),
            ) && (previous matches Some(x) ==> a(var_of(x as int))))),
        forall|v: Values| realized(circuit, old(solver).clauses(), v) ==> #[trigger] realized(circuit, final(solver).clauses(), v),
{
    let ghost m = solver.clauses();
    proof {
        solver.lemma_has_frame();
        assert forall|x: Var| #[trigger] mentions(m, x) implies x.dimacs() < solver.fresh() by {
            solver.lemma_fresh(x);
        }
    }
    let inside = solver.fresh_var();
    define(solver, inside, numbers);
    let ghost middle = solver.clauses();
    proof {
        lemma_numbers_below(numbers@, inside);
        lemma_realized_step(circuit, m, middle, inside, clause_of(numbers@));
        assert forall|x: Var| #[trigger] mentions(middle, x) implies x.dimacs() < solver.fresh() by {
            solver.lemma_fresh(x);
        }
    }
    let clear = solver.fresh_var();
    let opposite: i32 = -(inside as i32);
    let mut lits: Vec<i32> = vec![opposite];
    match previous {
        Some(x) => {
            lits.push(x as i32);
        },
        None => {},
    }
    assert(crate::incremental::below_fresh(lits@, clear));
    define(solver, clear, &lits);
    proof {
        let c = clause_of(lits@);
        lemma_numbers_below(lits@, clear);
        lemma_realized_step(circuit, middle, solver.clauses(), clear, c);
        assert forall|a: Assignment| #[trigger] matrix_true(a, solver.clauses()) implies matrix_true(a, m) && (a(var_of(clear as int))
            == (!cube_true(a, clause_of(numbers@)) && (previous matches Some(x) ==> a(var_of(x as int))))) by {
            assert(matrix_true(a, middle));
            lemma_opposite_var(a, inside);
            match previous {
                Some(x) => {
                    lemma_own_var(a, x);
                    lemma_two(a, c, lit_numbered(opposite), lit_numbered(x as i32));
                },
                None => {
                    lemma_one(a, c, lit_numbered(opposite));
                },
            }
        }
        assert forall|v: Values| realized(circuit, m, v) implies #[trigger] realized(circuit, solver.clauses(), v) by {
            assert(realized(circuit, middle, v));
        }
    }
    clear
}

proof fn lemma_numbers_below(numbers: Seq<i32>, n: u32)
    requires
        n < 2_147_483_647,
        crate::incremental::below_fresh(numbers, n),
        forall|i: int| 0 <= i < numbers.len() ==> #[trigger] numbers[i] != 0,
    ensures
        forall|i: int| 0 <= i < clause_of(numbers).len() ==> (#[trigger] clause_of(numbers)[i]).v().dimacs() < n,
{
    assert forall|i: int| 0 <= i < clause_of(numbers).len() implies (#[trigger] clause_of(numbers)[i]).v().dimacs() < n by {
        let number = numbers[i];
        assert(number != 0);
        let k = if number > 0 { number as int } else { -(number as int) };
        lemma_number(var_of(k), k);
        crate::literal::lemma_lit_of(var_of(k), number > 0);
    }
}

/// The numbers of a cube over variables numbered from a base on.
spec fn cube_numbers(cube: Seq<(usize, bool)>, base: int) -> Seq<i32> {
    Seq::new(cube.len(), |i: int| (if cube[i].1 { base + cube[i].0 } else { -(base + cube[i].0) }) as i32)
}

fn numbers_from(cube: &Vec<(usize, bool)>, base: u32, Ghost(latches): Ghost<nat>) -> (numbers: Vec<i32>)
    requires
        0 < base,
        base + latches <= 2_000_000_000,
        forall|i: int| 0 <= i < cube@.len() ==> (#[trigger] cube@[i]).0 < latches,
    ensures
        numbers@ == cube_numbers(cube@, base as int),
        crate::incremental::below_fresh(numbers@, (base + latches) as u32),
        forall|i: int| 0 <= i < numbers@.len() ==> #[trigger] numbers@[i] != 0,
{
    let mut numbers: Vec<i32> = Vec::new();
    let mut k: usize = 0;
    while k < cube.len()
        invariant
            k <= cube@.len(),
            0 < base,
            base + latches <= 2_000_000_000,
            forall|i: int| 0 <= i < cube@.len() ==> (#[trigger] cube@[i]).0 < latches,
            numbers@.len() == k,
            forall|i: int|
                0 <= i < k ==> #[trigger] numbers@[i] == (if cube@[i].1 { base + cube@[i].0 } else { -(base + cube@[i].0) }),
        decreases cube.len() - k,
    {
        let (index, value) = cube[k];
        assert(cube@[k as int].0 < latches);
        let n = base as i32 + index as i32;
        if value {
            numbers.push(n);
        } else {
            numbers.push(-n);
        }
        k += 1;
    }
    assert(numbers@ =~= cube_numbers(cube@, base as int));
    numbers
}

/// The literals of a cube hold iff the state is in the cube.
proof fn lemma_cube(cube: Seq<(usize, bool)>, base: int, state: Seq<bool>, a: Assignment)
    requires
        0 < base,
        base + state.len() <= 2_000_000_000,
        forall|i: int| 0 <= i < cube.len() ==> (#[trigger] cube[i]).0 < state.len(),
        forall|i: int| 0 <= i < state.len() ==> #[trigger] state[i] == a(var_of(base + i)),
    ensures
        cube_true(a, clause_of(cube_numbers(cube, base))) == in_cube(cube, state),
{
    let c = clause_of(cube_numbers(cube, base));
    assert forall|i: int| 0 <= i < cube.len() implies lit_true(a, #[trigger] c[i]) == (state[cube[i].0 as int] == cube[i].1) by {
        let n = base + cube[i].0;
        lemma_number(var_of(n), n);
        crate::literal::lemma_lit_of(var_of(n), cube[i].1);
        assert(state[cube[i].0 as int] == a(var_of(base + cube[i].0)));
    }
    if cube_true(a, c) {
        assert forall|i: int| 0 <= i < cube.len() implies state[(#[trigger] cube[i]).0 as int] == cube[i].1 by {
            assert(lit_true(a, c[i]));
        }
    }
    if in_cube(cube, state) {
        assert forall|i: int| 0 <= i < c.len() implies lit_true(a, #[trigger] c[i]) by {
            assert(state[cube[i].0 as int] == cube[i].1);
        }
    }
}

pub(crate) proof fn lemma_lost_push(cubes: Seq<Vec<(usize, bool)>>, cube: Vec<(usize, bool)>, state: Seq<bool>)
    ensures
        lost(cubes.push(cube), state) <==> lost(cubes, state) || in_cube(cube@, state),
{
    let all = cubes.push(cube);
    if lost(cubes, state) {
        let k = choose|k: int| 0 <= k < cubes.len() && in_cube((#[trigger] cubes[k])@, state);
        assert(all[k] == cubes[k]);
    }
    if in_cube(cube@, state) {
        assert(all[cubes.len() as int] == cube);
    }
    if lost(all, state) {
        let k = choose|k: int| 0 <= k < all.len() && in_cube((#[trigger] all[k])@, state);
        if k < cubes.len() {
            assert(cubes[k] == all[k]);
        }
    }
}

impl Game {
    /// Removes a cube of states from the region.
    fn link(&mut self, cube: Vec<(usize, bool)>)
        requires
            old(self).wf(),
            old(self).solver.fresh() + 4 < 2_147_483_647,
            forall|i: int| 0 <= i < cube@.len() ==> (#[trigger] cube@[i]).0 < old(self).circuit.aiger.latches@.len(),
        ensures
            final(self).wf(),
            final(self).circuit == old(self).circuit,
            final(self).losing@ == old(self).losing@.push(cube),
            final(self).solver.continues() == old(self).solver.continues(),
            final(self).solver.total() == old(self).solver.total(),
            final(self).solver.fresh() == old(self).solver.fresh() + 4,
    {
        let ghost circuit = self.circuit;
        let ghost layout = Layout::of(circuit);
        let ghost losing = self.losing@;
        let ghost m = self.solver.clauses();
        let latches = self.circuit.aiger.latches.len();
        let inputs = self.circuit.aiger.inputs.len();
        let gates = self.circuit.aiger.ands.len();
        let state_numbers = numbers_from(&cube, 1, Ghost(layout.latches));
        let base = 2 + latches + inputs + gates;
        let next_numbers = numbers_from(&cube, base as u32, Ghost(layout.latches));
        let ghost old_clear = self.clear;
        let ghost old_next = self.next_clear;
        let clear = add_link(&mut self.solver, &state_numbers, self.clear, Ghost(circuit));
        let ghost middle = self.solver.clauses();
        let next_clear = add_link(&mut self.solver, &next_numbers, self.next_clear, Ghost(circuit));
        self.clear = Some(clear);
        self.next_clear = Some(next_clear);
        proof {
            let all = losing.push(cube);
            assert forall|a: Assignment| #[trigger] matrix_true(a, self.solver.clauses()) implies facts(
                circuit,
                all,
                Some(clear),
                Some(next_clear),
                a,
            ) by {
                assert(matrix_true(a, middle));
                assert(matrix_true(a, m));
                assert(facts(circuit, losing, old_clear, old_next, a));
                let state = layout.values(a).state;
                let next = layout.next_state(a);
                lemma_cube(cube@, 1, state, a);
                lemma_cube(cube@, base as int, next, a);
                lemma_lost_push(losing, cube, state);
                lemma_lost_push(losing, cube, next);
            }
            assert forall|v: Values| #[trigger] circuit.consistent(v) implies realized(circuit, self.solver.clauses(), v) by {
                assert(realized(circuit, m, v));
                assert(realized(circuit, middle, v));
            }
            assert forall|k: int, i: int| 0 <= k < all.len() && 0 <= i < all[k]@.len() implies (#[trigger] all[k]@[i]).0 < layout.latches by {
                if k < losing.len() {
                    assert(all[k] == losing[k]);
                    assert(losing[k]@[i].0 < layout.latches);
                }
            }
        }
        self.losing.push(cube);
    }
}

proof fn lemma_slot_range(circuit: Circuit)
    requires
        circuit.wf(),
    ensures
        Layout::of(circuit).end() < 2_000_000_010,
{
}

proof fn lemma_own_var(a: Assignment, x: u32)
    requires
        0 < x < 2_147_483_647,
    ensures
        lit_true(a, lit_numbered(x as i32)) == a(var_of(x as int)),
{
    crate::literal::lemma_var_index(x - 1);
    crate::literal::lemma_lit_of(var_of(x as int), true);
}

proof fn lemma_opposite_var(a: Assignment, x: u32)
    requires
        0 < x < 2_147_483_647,
    ensures
        lit_true(a, lit_numbered((-(x as int)) as i32)) == !a(var_of(x as int)),
{
    crate::literal::lemma_var_index(x - 1);
    crate::literal::lemma_lit_of(var_of(x as int), false);
}

proof fn lemma_opposite(a: Assignment, number: i32)
    requires
        number != 0,
        -2_147_483_647 < number < 2_147_483_647,
    ensures
        lit_true(a, lit_numbered((-number) as i32)) == !lit_true(a, lit_numbered(number)),
{
    let n = if number > 0 { number as int } else { -(number as int) };
    crate::literal::lemma_var_index(n - 1);
    crate::literal::lemma_lit_of(var_of(n), true);
    crate::literal::lemma_lit_of(var_of(n), false);
}

/// The stack of a round: its blocks, and no free variables.
proof fn lemma_round_shape(circuit: Circuit, solver: IncrementalSolver)
    requires
        solver.wf(),
        declared(circuit, solver),
        Layout::of(circuit).truth() <= solver.fresh(),
        solver.fresh() <= crate::sat::MAX_NUMBER,
    ensures
        shape(solver.blocks(), solver.clauses()).len() <= 2,
        universal_first(solver.blocks(), solver.clauses()),
        in_range(solver.blocks(), solver.clauses()),
{
    let p = solver.blocks();
    let m = solver.clauses();
    lemma_blocks(circuit, solver);
    assert forall|x: Var| #[trigger] mentions(m, x) implies x.dimacs() < solver.fresh() && bound(p, x) by {
        solver.lemma_fresh(x);
    }
    assert(!has_free(p, m));
    let none = Seq::<QuantTy>::empty();
    if p.len() == 1 {
        assert(p.drop_last() =~= Prefix::empty());
        assert(crate::normal::shape_after(none, p.drop_last()) == none);
    } else {
        assert(p.drop_last().drop_last() =~= Prefix::empty());
        assert(p.drop_last().last() == p[0]);
        assert(crate::normal::shape_after(none, p.drop_last().drop_last()) == none);
        assert(crate::normal::shape_after(none, p.drop_last()) == none.push(QuantTy::Forall));
    }
    assert forall|i: int| 0 <= i < m.len() implies crate::sat::lits_ok(#[trigger] m[i]) by {
        assert forall|j: int| 0 <= j < m[i].len() implies crate::sat::lit_ok(#[trigger] m[i][j]) by {
            assert(clause_mentions(m[i], m[i][j].v()));
            assert(mentions(m, m[i][j].v()));
        }
    }
}

/// A true formula answers every state and every move.
proof fn lemma_answered(circuit: Circuit, solver: IncrementalSolver, state: Seq<bool>, env: Seq<bool>) -> (a: Assignment)
    requires
        circuit.wf(),
        declared(circuit, solver),
        Layout::of(circuit).truth() <= solver.fresh(),
        formula_true(solver.blocks(), solver.clauses()),
        circuit.is_state(state),
        circuit.is_move(env),
    ensures
        matrix_true(a, solver.clauses()),
        Layout::of(circuit).values(a).state == state,
        forall|i: int|
            0 <= i < circuit.aiger.inputs@.len() && !circuit.controllable@[i] ==> #[trigger] Layout::of(circuit).values(a).inputs[i] == env[i],
{
    let layout = Layout::of(circuit);
    let p = solver.blocks();
    let m = solver.clauses();
    lemma_blocks(circuit, solver);
    let start = choose|start: Assignment| #[trigger] qbf(p, m, start);
    let none = Prefix::empty();
    let b = |x: Var|
        if layout.universal(circuit, x) {
            if x.dimacs() <= layout.latches {
                state[x.dimacs() - 1]
            } else {
                env[x.dimacs() - layout.input(0)]
            }
        } else {
            start(x)
        };
    let c = if p.len() == 1 {
        let es = p[0].1;
        assert(p =~= with_block(QuantTy::Exists, es, none));
        lemma_exists_block(es, none, m, start);
        let c = choose|c: Assignment| #[trigger] agree_off(start, c, es) && qbf(none, m, c);
        assert forall|x: Var| !layout.universal(circuit, x) by {
            assert(!bound_by(p, QuantTy::Forall, x)) by {
                if bound_by(p, QuantTy::Forall, x) {
                    let k = choose|k: int| 0 <= k < p.len() && (#[trigger] p[k]).0 == QuantTy::Forall && p[k].1.contains(x);
                }
            }
        }
        c
    } else {
        let us = p[0].1;
        let es = p[1].1;
        let inner = with_block(QuantTy::Exists, es, none);
        assert(p =~= with_block(QuantTy::Forall, us, inner));
        lemma_forall_block(us, inner, m, start);
        assert forall|x: Var| !us.contains(x) implies #[trigger] start(x) == b(x) by {
            if layout.universal(circuit, x) {
                assert(bound_by(p, QuantTy::Forall, x));
                let k = choose|k: int| 0 <= k < p.len() && (#[trigger] p[k]).0 == QuantTy::Forall && p[k].1.contains(x);
                assert(k == 0);
            }
        }
        assert(agree_off(start, b, us));
        assert(qbf(inner, m, b));
        lemma_exists_block(es, none, m, b);
        choose|c: Assignment| #[trigger] agree_off(b, c, es) && qbf(none, m, c)
    };
    assert(matrix_true(c, m));
    assert forall|n: int| 1 <= n < layout.truth() implies (#[trigger] var_of(n)).dimacs() == n by {
        lemma_number(var_of(n), n);
    }
    let v = layout.values(c);
    assert forall|i: int| 0 <= i < layout.latches implies v.state[i] == state[i] by {
        let x = var_of(layout.state(i));
        assert(layout.universal(circuit, x));
        assert(c(x) == b(x));
    }
    assert(v.state =~= state);
    assert forall|i: int| 0 <= i < circuit.aiger.inputs@.len() && !circuit.controllable@[i] implies #[trigger] v.inputs[i] == env[i] by {
        let x = var_of(layout.input(i));
        assert(layout.universal(circuit, x));
        assert(c(x) == b(x));
    }
    c
}

/// The clauses of a round.
spec fn round_clauses(circuit: Circuit, m: Matrix, after: Matrix, losing: Seq<Vec<(usize, bool)>>, induction: bool) -> bool {
    forall|a: Assignment| #[trigger] matrix_true(a, after) <==> matrix_true(a, m) && round_holds(circuit, losing, induction, a)
}

/// The region of the states that are not lost.
pub open spec fn kept(losing: Seq<Vec<(usize, bool)>>) -> spec_fn(Seq<bool>) -> bool {
    |state: Seq<bool>| !lost(losing, state)
}

/// A satisfiable round of the induction: the controller can stay among the
/// states that are not lost.
proof fn lemma_fixpoint(
    circuit: Circuit,
    solver: IncrementalSolver,
    m: Matrix,
    losing: Seq<Vec<(usize, bool)>>,
    clear: Option<u32>,
    next_clear: Option<u32>,
)
    requires
        circuit.wf(),
        declared(circuit, solver),
        Layout::of(circuit).truth() <= solver.fresh(),
        formula_true(solver.blocks(), solver.clauses()),
        encodes(circuit, m, losing, clear, next_clear),
        round_clauses(circuit, m, solver.clauses(), losing, true),
    ensures
        circuit.invariant_region(kept(losing)),
{
    let layout = Layout::of(circuit);
    let region = kept(losing);
    assert forall|state: Seq<bool>| circuit.is_state(state) && #[trigger] region(state) implies circuit.controls(state, region) by {
        assert forall|env: Seq<bool>| #[trigger] circuit.is_move(env) implies circuit.responds(state, env, region) by {
            let a = lemma_answered(circuit, solver, state, env);
            let v = layout.values(a);
            assert(matrix_true(a, m));
            assert(facts(circuit, losing, clear, next_clear, a));
            assert(round_holds(circuit, losing, true, a));
            assert(circuit.answers(v, state, env));
        }
    }
}

/// The cube holds the literals of the witness on latches.
spec fn projects(witness: Seq<i32>, latches: nat, cube: Seq<(usize, bool)>) -> bool {
    forall|state: Seq<bool>, i: int|
        #![trigger in_cube(cube, state), witness[i]]
        in_cube(cube, state) && 0 <= i < witness.len() && state.len() == latches ==> {
            let n = if witness[i] > 0 { witness[i] as int } else { -(witness[i] as int) };
            n <= latches ==> state[n - 1] == (witness[i] > 0)
        }
}

/// A refuted round: no state of the cube can be kept, and if gates always
/// have values, none of them was lost before.
proof fn lemma_refuted_round(
    circuit: Circuit,
    p: Prefix,
    after: Matrix,
    m: Matrix,
    losing: Seq<Vec<(usize, bool)>>,
    clear: Option<u32>,
    next_clear: Option<u32>,
    induction: bool,
    witness: Seq<i32>,
    cube: Seq<(usize, bool)>,
    state: Seq<bool>,
)
    requires
        circuit.wf(),
        forall|x: Var| #[trigger] bound_by(p, QuantTy::Forall, x) <==> Layout::of(circuit).universal(circuit, x),
        encodes(circuit, m, losing, clear, next_clear),
        round_clauses(circuit, m, after, losing, induction),
        crate::incremental::proper_numbers(witness),
        refutes(p, after, clause_of(witness)),
        crate::sat::consistent(clause_of(witness)),
        projects(witness, circuit.aiger.latches@.len(), cube),
        circuit.is_state(state),
        in_cube(cube, state),
    ensures
        !circuit.controls(state, kept(losing)),
        circuit.total() ==> !lost(losing, state),
{
    let layout = Layout::of(circuit);
    let c = clause_of(witness);
    let env = Seq::new(circuit.aiger.inputs@.len(), |i: int| env_value(c, layout.input(i)));
    assert(circuit.is_move(env));
    if circuit.controls(state, kept(losing)) {
        assert(circuit.responds(state, env, kept(losing)));
        let v = choose|v: Values| #[trigger] circuit.answers(v, state, env) && circuit.safe(v) && kept(losing)(circuit.next(v));
        lemma_no_answer(circuit, p, after, m, losing, clear, next_clear, induction, witness, cube, state, env, v);
    }
    if circuit.total() && lost(losing, state) {
        assert(circuit.settles(state, env));
        let v = choose|v: Values| #[trigger] circuit.consistent(v) && v.state == state && v.inputs == env;
        lemma_no_answer(circuit, p, after, m, losing, clear, next_clear, induction, witness, cube, state, env, v);
    }
}

/// The value that literals give to a variable.
spec fn env_value(c: Seq<Lit>, n: int) -> bool {
    exists|j: int| 0 <= j < c.len() && (#[trigger] c[j]).v().dimacs() == n && c[j].pos()
}

proof fn lemma_no_answer(
    circuit: Circuit,
    p: Prefix,
    after: Matrix,
    m: Matrix,
    losing: Seq<Vec<(usize, bool)>>,
    clear: Option<u32>,
    next_clear: Option<u32>,
    induction: bool,
    witness: Seq<i32>,
    cube: Seq<(usize, bool)>,
    state: Seq<bool>,
    env: Seq<bool>,
    v: Values,
)
    requires
        circuit.wf(),
        forall|x: Var| #[trigger] bound_by(p, QuantTy::Forall, x) <==> Layout::of(circuit).universal(circuit, x),
        encodes(circuit, m, losing, clear, next_clear),
        round_clauses(circuit, m, after, losing, induction),
        crate::incremental::proper_numbers(witness),
        refutes(p, after, clause_of(witness)),
        crate::sat::consistent(clause_of(witness)),
        projects(witness, circuit.aiger.latches@.len(), cube),
        circuit.is_state(state),
        in_cube(cube, state),
        env == Seq::new(circuit.aiger.inputs@.len(), |i: int| env_value(clause_of(witness), Layout::of(circuit).input(i))),
        circuit.answers(v, state, env),
    ensures
        !(lost(losing, state) || (circuit.safe(v) && !lost(losing, circuit.next(v)))),
{
    let layout = Layout::of(circuit);
    let c = clause_of(witness);
    assert(realized(circuit, m, v));
    reveal(realized);
    let a = choose|a: Assignment| layout.values(a) == v && #[trigger] matrix_true(a, m);
    assert(facts(circuit, losing, clear, next_clear, a));
    assert forall|j: int| 0 <= j < c.len() implies lit_true(a, #[trigger] c[j]) by {
        let x = c[j].v();
        assert(bound_by(p, QuantTy::Forall, x));
        assert(layout.universal(circuit, x));
        let n = x.dimacs();
        crate::literal::lemma_var_of(x);
        let number = witness[j];
        assert(witness[j] != 0 && witness[j] > i32::MIN);
        assert(c[j] == lit_numbered(number));
        lemma_witness_number(number, c[j]);
        if n <= layout.latches {
            assert(state[n - 1] == (witness[j] > 0));
            assert(v.state[n - 1] == a(var_of(layout.state(n - 1))));
        } else {
            let i = n - layout.input(0);
            assert(v.inputs[i] == a(var_of(layout.input(i))));
            assert(v.inputs[i] == env[i]);
            if env_value(c, n) {
                let k = choose|k: int| 0 <= k < c.len() && (#[trigger] c[k]).v().dimacs() == n && c[k].pos();
                crate::literal::lemma_var_of(c[k].v());
                assert(c[k].v() == c[j].v());
            } else if c[j].pos() {
                assert(env_value(c, n));
            }
        }
    }
    assert(cube_true(a, c));
    assert(!matrix_true(a, after));
    assert(!round_holds(circuit, losing, induction, a));
}

/// What a number says of its literal, where the literal is on a variable of
/// the circuit.
proof fn lemma_witness_number(number: i32, lit: Lit)
    requires
        lit == lit_numbered(number),
        number != 0,
        number > i32::MIN,
    ensures
        lit.v().dimacs() == (if number > 0 { number as int } else { -(number as int) }),
        lit.pos() == (number > 0),
{
    crate::incremental::lemma_lit_numbered(number);
}

/// The controller does not win from a state that it cannot keep in a
/// region that holds all winning states.
proof fn lemma_not_winning(circuit: Circuit, losing: Seq<Vec<(usize, bool)>>, state: Seq<bool>)
    requires
        circuit.is_state(state),
        forall|s: Seq<bool>| circuit.is_state(s) && #[trigger] circuit.wins(s) ==> !lost(losing, s),
        !circuit.controls(state, kept(losing)),
    ensures
        !circuit.wins(state),
{
    if circuit.wins(state) {
        let region = choose|region: spec_fn(Seq<bool>) -> bool| #[trigger] circuit.invariant_region(region) && region(state);
        assert(circuit.controls(state, region));
        assert forall|env: Seq<bool>| #[trigger] circuit.is_move(env) implies circuit.responds(state, env, kept(losing)) by {
            assert(circuit.responds(state, env, region));
            let v = choose|v: Values| #[trigger] circuit.answers(v, state, env) && circuit.safe(v) && region(circuit.next(v));
            assert(circuit.wins(circuit.next(v)));
            assert(circuit.is_state(circuit.next(v)));
            assert(kept(losing)(circuit.next(v)));
        }
    }
}

/// Two to a power.
pub open spec fn power(n: nat) -> nat
    decreases n,
{
    if n == 0 {
        1
    } else {
        2 * power((n - 1) as nat)
    }
}

/// The number of states behind some first latches that are not lost.
pub(crate) open spec fn left(prefix: Seq<bool>, n: nat, losing: Seq<Vec<(usize, bool)>>) -> nat
    decreases n,
{
    if n == 0 {
        if lost(losing, prefix) {
            0
        } else {
            1
        }
    } else {
        left(prefix.push(false), (n - 1) as nat, losing) + left(prefix.push(true), (n - 1) as nat, losing)
    }
}

pub(crate) proof fn lemma_left_bound(prefix: Seq<bool>, n: nat, losing: Seq<Vec<(usize, bool)>>)
    ensures
        left(prefix, n, losing) <= power(n),
    decreases n,
{
    if n > 0 {
        lemma_left_bound(prefix.push(false), (n - 1) as nat, losing);
        lemma_left_bound(prefix.push(true), (n - 1) as nat, losing);
    }
}

/// More cubes leave fewer states, and strictly fewer if they take one.
pub(crate) proof fn lemma_left_less(prefix: Seq<bool>, n: nat, before: Seq<Vec<(usize, bool)>>, after: Seq<Vec<(usize, bool)>>, state: Seq<bool>)
    requires
        forall|s: Seq<bool>| lost(before, s) ==> #[trigger] lost(after, s),
    ensures
        left(prefix, n, after) <= left(prefix, n, before),
        state.len() == prefix.len() + n && state.take(prefix.len() as int) == prefix && !lost(before, state) && lost(after, state) ==> left(
            prefix,
            n,
            after,
        ) < left(prefix, n, before),
    decreases n,
{
    if n == 0 {
        if state.len() == prefix.len() {
            assert(state.take(prefix.len() as int) =~= state);
        }
    } else {
        lemma_left_less(prefix.push(false), (n - 1) as nat, before, after, state);
        lemma_left_less(prefix.push(true), (n - 1) as nat, before, after, state);
        if state.len() == prefix.len() + n && state.take(prefix.len() as int) == prefix {
            let bit = state[prefix.len() as int];
            assert(state.take(prefix.len() as int + 1) =~= prefix.push(bit));
        }
    }
}

/// The number of an entry of a cube.
spec fn entry_number(entry: (usize, bool)) -> i32 {
    (if entry.1 { entry.0 + 1 } else { -(entry.0 + 1) }) as i32
}

/// The solver declares what it declared before.
proof fn lemma_declared_same(circuit: Circuit, before: IncrementalSolver, after: IncrementalSolver)
    requires
        declared(circuit, before),
        same_declarations(before.stack(), after.stack()),
        after.fresh() == before.fresh(),
    ensures
        declared(circuit, after),
{
}

/// A cube of a move that does not contradict itself holds a state.
proof fn lemma_some_state(circuit: Circuit, cube: Seq<(usize, bool)>, witness: Seq<i32>) -> (state: Seq<bool>)
    requires
        circuit.wf(),
        crate::incremental::proper_numbers(witness),
        crate::sat::consistent(clause_of(witness)),
        forall|i: int| 0 <= i < cube.len() ==> (#[trigger] cube[i]).0 < circuit.aiger.latches@.len(),
        forall|i: int| 0 <= i < cube.len() ==> witness.contains(entry_number(#[trigger] cube[i])),
    ensures
        circuit.is_state(state),
        in_cube(cube, state),
{
    let state = Seq::new(circuit.aiger.latches@.len(), |n: int| set_by(cube, n));
    let c = clause_of(witness);
    assert forall|i: int| 0 <= i < cube.len() implies state[(#[trigger] cube[i]).0 as int] == cube[i].1 by {
        let n = cube[i].0 as int;
        assert(state[n] == set_by(cube, n));
        if cube[i].1 {
            assert(set_by(cube, n));
        } else if set_by(cube, n) {
            let j = choose|j: int| 0 <= j < cube.len() && (#[trigger] cube[j]).0 == n && cube[j].1;
            assert(witness.contains(entry_number(cube[i])));
            assert(witness.contains(entry_number(cube[j])));
            let k = choose|k: int| 0 <= k < witness.len() && witness[k] == entry_number(cube[i]);
            let l = choose|l: int| 0 <= l < witness.len() && witness[l] == entry_number(cube[j]);
            crate::incremental::lemma_lit_numbered(witness[k]);
            crate::incremental::lemma_lit_numbered(witness[l]);
            crate::literal::lemma_var_of(c[k].v());
            crate::literal::lemma_var_of(c[l].v());
            assert(c[k].v() == c[l].v());
        }
    }
    state
}

spec fn set_by(cube: Seq<(usize, bool)>, n: int) -> bool {
    exists|j: int| 0 <= j < cube.len() && (#[trigger] cube[j]).0 == n && cube[j].1
}

/// A cube with a state that was not lost leaves fewer states.
proof fn lemma_next_left(circuit: Circuit, losing: Seq<Vec<(usize, bool)>>, cube: Vec<(usize, bool)>, state: Seq<bool>)
    requires
        circuit.is_state(state),
        in_cube(cube@, state),
    ensures
        !lost(losing, state) ==> left(Seq::empty(), circuit.aiger.latches@.len(), losing.push(cube)) < left(
            Seq::empty(),
            circuit.aiger.latches@.len(),
            losing,
        ),
{
    assert forall|s: Seq<bool>| lost(losing, s) implies #[trigger] lost(losing.push(cube), s) by {
        lemma_lost_push(losing, cube, s);
    }
    lemma_lost_push(losing, cube, state);
    assert(state.take(0) =~= Seq::<bool>::empty());
    lemma_left_less(Seq::empty(), circuit.aiger.latches@.len(), losing, losing.push(cube), state);
}

/// The literals of a witness on latches, as a cube of states.
fn extract_cube(witness: &Vec<i32>, latches: usize) -> (cube: Vec<(usize, bool)>)
    requires
        crate::incremental::proper_numbers(witness@),
    ensures
        projects(witness@, latches as nat, cube@),
        forall|i: int| 0 <= i < cube@.len() ==> (#[trigger] cube@[i]).0 < latches,
        forall|i: int| 0 <= i < cube@.len() ==> witness@.contains(entry_number(#[trigger] cube@[i])),
{
    let mut cube: Vec<(usize, bool)> = Vec::new();
    let mut k: usize = 0;
    while k < witness.len()
        invariant
            k <= witness@.len(),
            crate::incremental::proper_numbers(witness@),
            forall|i: int| 0 <= i < cube@.len() ==> (#[trigger] cube@[i]).0 < latches,
            forall|i: int| 0 <= i < cube@.len() ==> witness@.contains(entry_number(#[trigger] cube@[i])),
            forall|i: int|
                #![trigger witness@[i]]
                0 <= i < k ==> {
                    let n = if witness@[i] > 0 { witness@[i] as int } else { -(witness@[i] as int) };
                    n <= latches ==> cube@.contains(((n - 1) as usize, witness@[i] > 0))
                },
        decreases witness.len() - k,
    {
        let number = witness[k];
        assert(witness@[k as int] != 0 && witness@[k as int] > i32::MIN);
        let n: u32 = if number > 0 {
            number as u32
        } else {
            (-number) as u32
        };
        let ghost before = cube@;
        if n as usize <= latches {
            let entry = (n as usize - 1, number > 0);
            cube.push(entry);
            assert(entry_number(entry) == witness@[k as int]);
            assert(witness@.contains(witness@[k as int]));
            proof {
                assert forall|i: int|
                    #![trigger witness@[i]]
                    0 <= i < k + 1 implies {
                    let n = if witness@[i] > 0 { witness@[i] as int } else { -(witness@[i] as int) };
                    n <= latches ==> cube@.contains(((n - 1) as usize, witness@[i] > 0))
                } by {
                    let n = if witness@[i] > 0 { witness@[i] as int } else { -(witness@[i] as int) };
                    crate::datastructure::lemma_push_contains(before, entry, ((n - 1) as usize, witness@[i] > 0));
                }
            }
        }
        k += 1;
    }
    proof {
        assert forall|state: Seq<bool>, i: int|
            #![trigger in_cube(cube@, state), witness@[i]]
            in_cube(cube@, state) && 0 <= i < witness@.len() && state.len() == latches implies {
            let n = if witness@[i] > 0 { witness@[i] as int } else { -(witness@[i] as int) };
            n <= latches ==> state[n - 1] == (witness@[i] > 0)
        } by {
            let n = if witness@[i] > 0 { witness@[i] as int } else { -(witness@[i] as int) };
            assert(witness@[i] != 0 && witness@[i] > i32::MIN);
            if n <= latches {
                let entry = ((n - 1) as usize, witness@[i] > 0);
                assert(cube@.contains(entry));
                let j = choose|j: int| 0 <= j < cube@.len() && cube@[j] == entry;
                assert(state[cube@[j].0 as int] == cube@[j].1);
            }
        }
    }
    cube
}

/// Whether the initial state of a circuit is in one of the cubes.
pub(crate) fn initial_is_lost(circuit: &Circuit, losing: &Vec<Vec<(usize, bool)>>) -> (found: bool)
    requires
        cubes_ok(losing@, circuit.aiger.latches@.len()),
    ensures
        found == lost(losing@, circuit.initial()),
{
    let mut k: usize = 0;
    while k < losing.len()
        invariant
            k <= losing@.len(),
            cubes_ok(losing@, circuit.aiger.latches@.len()),
            forall|i: int| 0 <= i < k ==> !in_cube((#[trigger] losing@[i])@, circuit.initial()),
        decreases losing.len() - k,
    {
        let cube = &losing[k];
        let mut inside = true;
        let mut j: usize = 0;
        while j < cube.len()
            invariant
                k < losing@.len(),
                cube@ == losing@[k as int]@,
                cubes_ok(losing@, circuit.aiger.latches@.len()),
                j <= cube@.len(),
                inside == forall|i: int| 0 <= i < j ==> circuit.initial()[(#[trigger] cube@[i]).0 as int] == cube@[i].1,
            decreases cube.len() - j,
        {
            let (index, value) = cube[j];
            assert(losing@[k as int]@[j as int].0 < circuit.aiger.latches@.len());
            if (circuit.aiger.latches[index].reset == 1) != value {
                assert(circuit.initial()[cube@[j as int].0 as int] != cube@[j as int].1);
                inside = false;
            }
            j += 1;
        }
        if inside {
            assert(in_cube(losing@[k as int]@, circuit.initial()));
            return true;
        }
        k += 1;
    }
    false
}

/// The outcome is that of the game: the losing cubes hold exactly the
/// states from which the controller does not win.
pub open spec fn outcome_ok(circuit: Circuit, outcome: SafetyOutcome) -> bool {
    &&& cubes_ok(outcome.losing@, circuit.aiger.latches@.len())
    &&& forall|state: Seq<bool>| circuit.is_state(state) ==> #[trigger] circuit.wins(state) == !lost(outcome.losing@, state)
    &&& outcome.realizable == circuit.wins(circuit.initial())
    &&& outcome.safe_rounds <= outcome.rounds
    &&& counts_rounds(outcome)
    &&& outcome.extensions <= outcome.rounds
    &&& populated(circuit, outcome.losing@)
    &&& circuit.total() ==> apart(circuit, outcome.losing@)
    &&& outcome.fallback_rounds == 0
}

/// Every round but two excludes a cube: the one that finds the safe states
/// and the one that finds the fixpoint. Where all states lose, the cube of
/// all of them takes the place of what was excluded before.
pub open spec fn counts_rounds(outcome: SafetyOutcome) -> bool {
    ||| outcome.losing@.len() == 1 && outcome.losing@[0]@.len() == 0 && outcome.rounds >= 1
    ||| outcome.rounds == outcome.losing@.len() + 2 && 1 <= outcome.safe_rounds <= outcome.losing@.len() + 1
}

/// Every cube holds a state.
pub open spec fn populated(circuit: Circuit, cubes: Seq<Vec<(usize, bool)>>) -> bool {
    forall|k: int| 0 <= k < cubes.len() ==> has_state(circuit, #[trigger] cubes[k])
}

/// The cube holds a state.
pub open spec fn has_state(circuit: Circuit, cube: Vec<(usize, bool)>) -> bool {
    exists|state: Seq<bool>| #[trigger] circuit.is_state(state) && in_cube(cube@, state)
}

/// No cube holds a state of one before it.
pub open spec fn apart(circuit: Circuit, cubes: Seq<Vec<(usize, bool)>>) -> bool {
    forall|k: int, state: Seq<bool>|
        0 <= k < cubes.len() && #[trigger] circuit.is_state(state) && in_cube((#[trigger] cubes[k])@, state) ==> !lost(cubes.take(k), state)
}

/// One more cube with a state, apart from the others.
proof fn lemma_more_apart(circuit: Circuit, cubes: Seq<Vec<(usize, bool)>>, cube: Vec<(usize, bool)>, some: Seq<bool>)
    requires
        populated(circuit, cubes),
        circuit.total() ==> apart(circuit, cubes),
        circuit.is_state(some),
        in_cube(cube@, some),
        circuit.total() ==> forall|state: Seq<bool>| circuit.is_state(state) && #[trigger] in_cube(cube@, state) ==> !lost(cubes, state),
    ensures
        populated(circuit, cubes.push(cube)),
        circuit.total() ==> apart(circuit, cubes.push(cube)),
{
    let more = cubes.push(cube);
    assert forall|k: int| 0 <= k < more.len() implies has_state(circuit, #[trigger] more[k]) by {
        if k < cubes.len() {
            assert(has_state(circuit, cubes[k]));
        }
    }
    if circuit.total() {
        assert forall|k: int, state: Seq<bool>|
            0 <= k < more.len() && #[trigger] circuit.is_state(state) && in_cube((#[trigger] more[k])@, state) implies !lost(more.take(k), state) by {
            assert(more.take(k) =~= cubes.take(k));
            if k < cubes.len() {
                assert(in_cube(cubes[k]@, state));
            } else {
                assert(cubes.take(k) =~= cubes);
            }
        }
    }
}

/// The numbering of the solver suffices whatever the rounds: gates have
/// values in every state, and there are not too many states.
pub open spec fn within_limits(circuit: Circuit) -> bool {
    circuit.total() && Layout::of(circuit).end() + 4 * power(circuit.aiger.latches@.len()) + 8 <= crate::sat::MAX_NUMBER
}

/// Solves the game of a circuit.
pub(crate) fn solve_game(circuit: Circuit, options: Options, continuation: bool) -> (outcome: Option<SafetyOutcome>)
    requires
        circuit.wf(),
        circuit.complete(),
    ensures
        outcome matches Some(outcome) ==> outcome_ok(circuit, outcome) && (!continuation ==> outcome.extensions == 0),
        within_limits(circuit) ==> outcome is Some,
{
    let latches = circuit.aiger.latches.len();
    let ghost layout = Layout::of(circuit);
    let mut state_vars: Vec<Var> = Vec::new();
    let mut game = Game::new(circuit, options, continuation);
    let mut k: usize = 0;
    while k < latches
        invariant
            k <= latches,
            circuit.wf(),
            latches == circuit.aiger.latches@.len(),
        decreases latches - k,
    {
        state_vars.push(Var::from_index(k as u32));
        k += 1;
    }
    let mut rounds: u32 = 0;
    let mut safe_rounds: u32 = 0;
    let mut induction = false;
    proof {
        lemma_left_bound(Seq::empty(), latches as nat, game.losing@);
    }
    loop
        invariant
            circuit.wf(),
            circuit.complete(),
            game.wf(),
            game.circuit == circuit,
            game.solver.continues() == continuation,
            game.solver.total() <= (if continuation { rounds } else { 0 }),
            layout == Layout::of(circuit),
            latches == layout.latches,
            game.solver.fresh() == layout.end() + 4 * game.losing@.len(),
            rounds == game.losing@.len() + if induction { 1int } else { 0int },
            safe_rounds <= rounds,
            induction ==> 1 <= safe_rounds <= game.losing@.len() + 1,
            !induction ==> safe_rounds == 0,
            populated(circuit, game.losing@),
            circuit.total() ==> apart(circuit, game.losing@),
            game.solver.fresh() <= crate::sat::MAX_NUMBER || game.losing@.len() == 0,
            game.losing@.len() <= 100_000_000,
            forall|state: Seq<bool>| circuit.is_state(state) && #[trigger] circuit.wins(state) ==> !lost(game.losing@, state),
            circuit.total() ==> game.losing@.len() + left(Seq::empty(), latches as nat, game.losing@) <= power(latches as nat),
        decreases 2_200_000_000 - game.solver.fresh(), if induction { 0int } else { 1int },
    {
        if game.solver.next_number() > crate::sat::MAX_NUMBER as u32 - 8 {
            return None;
        }
        rounds += 1;
        let ghost before = game;
        let ghost m = game.solver.clauses();
        let ghost losing = game.losing@;
        let ghost clear = game.clear;
        let ghost next_clear = game.next_clear;
        // the round's constraint goes in a pushed frame and is popped again
        // once answered
        game.push_round(induction);
        let ghost after = game.solver;
        proof {
            lemma_declared_same(circuit, before.solver, after);
            lemma_round_shape(circuit, after);
            lemma_blocks(circuit, after);
        }
        let verdict = game.solver.solve();
        assert(verdict != SolverResult::Unknown);
        assert(game.solver.total() <= rounds && (!continuation ==> game.solver.total() == 0));
        if verdict != SolverResult::Unsatisfiable {
            let popped = game.solver.pop();
            proof {
                lemma_declared_same(circuit, before.solver, game.solver);
            }
            if !induction {
                // the safe states are known; now demand that the controller
                // can also stay among them
                induction = true;
                safe_rounds = rounds;
                continue;
            }
            // the greatest fixpoint is reached
            proof {
                lemma_fixpoint(circuit, after, m, losing, clear, next_clear);
                assert forall|state: Seq<bool>| circuit.is_state(state) implies #[trigger] circuit.wins(state) == !lost(losing, state) by {
                    if !lost(losing, state) {
                        assert(kept(losing)(state));
                        assert(circuit.invariant_region(kept(losing)));
                    }
                }
                assert(circuit.is_state(circuit.initial()));
            }
            let realizable = !initial_is_lost(&game.circuit, &game.losing);
            return Some(
                SafetyOutcome {
                    realizable,
                    losing: game.losing,
                    rounds,
                    safe_rounds,
                    extensions: game.solver.extension_total(),
                    fallback_rounds: 0,
                },
            );
        }
        // Aim the witness minimization at the state variables: the
        // environment's move is projected away, so only state literals are
        // worth dropping, and each one dropped doubles the excluded region.
        let witness = match game.solver.universal_witness_complete(&state_vars) {
            Some(witness) => witness,
            None => {
                return None;
            },
        };
        let cube = extract_cube(&witness, latches);
        proof {
            assert forall|state: Seq<bool>| circuit.is_state(state) && #[trigger] in_cube(cube@, state) implies !circuit.controls(
                state,
                kept(losing),
            ) && (circuit.total() ==> !lost(losing, state)) && !circuit.wins(state) by {
                lemma_refuted_round(
                    circuit,
                    after.blocks(),
                    after.clauses(),
                    m,
                    losing,
                    clear,
                    next_clear,
                    induction,
                    witness@,
                    cube@,
                    state,
                );
                lemma_not_winning(circuit, losing, state);
            }
        }
        if cube.len() == 0 {
            // every state loses, so the initial one does too
            let mut all: Vec<Vec<(usize, bool)>> = Vec::new();
            all.push(cube);
            proof {
                assert forall|state: Seq<bool>| circuit.is_state(state) implies #[trigger] circuit.wins(state) == !lost(all@, state) by {
                    assert(in_cube(all@[0]@, state));
                }
                assert(circuit.is_state(circuit.initial()));
                assert(all@ =~= Seq::<Vec<(usize, bool)>>::empty().push(cube));
                lemma_more_apart(circuit, Seq::empty(), cube, circuit.initial());
                assert(cubes_ok(all@, circuit.aiger.latches@.len()));
                assert(populated(circuit, all@));
                assert(circuit.total() ==> apart(circuit, all@));
            }
            let outcome = SafetyOutcome {
                realizable: false,
                losing: all,
                rounds,
                safe_rounds,
                extensions: game.solver.extension_total(),
                fallback_rounds: 0,
            };
            assert(outcome.losing@[0]@.len() == 0);
            assert(counts_rounds(outcome));
            assert(lost(all@, circuit.initial()));
            return Some(outcome);
        }
        // drop the round's constraint, then shrink the region in the base
        // frame where the next round will read it
        let popped = game.solver.pop();
        proof {
            lemma_declared_same(circuit, before.solver, game.solver);
            let state = lemma_some_state(circuit, cube@, witness@);
            lemma_next_left(circuit, losing, cube, state);
            lemma_more_apart(circuit, losing, cube, state);
        }
        game.link(cube);
        proof {
            assert forall|state: Seq<bool>| circuit.is_state(state) && #[trigger] circuit.wins(state) implies !lost(game.losing@, state) by {
                lemma_lost_push(losing, cube, state);
            }
        }
    }
}

/// What solving the game of a text gives. The errors are those of reading
/// it, and two more: a circuit that reads an undefined variable, and a game
/// beyond the numbering of the solver.
pub open spec fn solves_game(text: Seq<char>, result: Result<SafetyOutcome, ParseError>) -> bool {
    match result {
        Ok(outcome) => exists|circuit: Circuit| #[trigger]
            reads_circuit(text, Ok(circuit)) && circuit.complete() && outcome_ok(circuit, outcome),
        Err(error) => reads_circuit(text, Err(error)) || exists|circuit: Circuit| #[trigger]
            reads_circuit(text, Ok(circuit)) && error.line == 1 && if circuit.complete() {
                !within_limits(circuit) && error.message@ == "the game is too large"@
            } else {
                error.message@ == "an undefined variable is read"@
            },
    }
}

/// An error of the first line.
pub(crate) fn first_line_error(text: &str) -> (error: ParseError)
    ensures
        error.line == 1,
        error.message@ == text@,
{
    let mut message = String::new();
    message.append(text);
    assert(message@ =~= text@);
    ParseError { message, line: 1 }
}

/// Solves a safety game by shrinking the winning region instead of
/// unrolling the game. Outputs (and bad signals) are error signals that the
/// controllable inputs must keep false forever against every play of the
/// uncontrollable ones.
pub fn solve_safety(input: &str, options: Options) -> (result: Result<SafetyOutcome, ParseError>)
    ensures
        solves_game(input@, result),
{
    solve_safety_with_continuation(input, options, true)
}

/// [`solve_safety`] with the in-place continuation switchable, so a
/// benchmark can price what the incremental stack is worth on this loop
/// against rebuilding the core per refinement.
pub fn solve_safety_with_continuation(input: &str, options: Options, continuation: bool) -> (result: Result<SafetyOutcome, ParseError>)
    ensures
        solves_game(input@, result),
        !continuation ==> (result matches Ok(outcome) ==> outcome.extensions == 0),
{
    let circuit = match parse_circuit(input) {
        Err(error) => {
            return Err(error);
        },
        Ok(circuit) => circuit,
    };
    assert(reads_circuit(input@, Ok(circuit)));
    if !circuit.is_complete() {
        return Err(first_line_error("an undefined variable is read"));
    }
    match solve_game(circuit, options, continuation) {
        Some(outcome) => Ok(outcome),
        None => Err(first_line_error("the game is too large")),
    }
}

/// The verdict of a game is the same whether or not the solver continues in
/// place.
pub proof fn law_continuation_does_not_matter(text: Seq<char>, left: SafetyOutcome, right: SafetyOutcome, circuit: Circuit)
    requires
        outcome_ok(circuit, left),
        outcome_ok(circuit, right),
    ensures
        left.realizable == right.realizable,
        forall|state: Seq<bool>| circuit.is_state(state) ==> #[trigger] lost(left.losing@, state) == lost(right.losing@, state),
{
    assert forall|state: Seq<bool>| circuit.is_state(state) implies #[trigger] lost(left.losing@, state) == lost(right.losing@, state) by {
        assert(circuit.wins(state) == !lost(left.losing@, state));
    }
}

} // verus!
