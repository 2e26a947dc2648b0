//! Reproducible random instances.
use crate::encodings::wiring::Builder;
use crate::encodings::{Circuit, Gate};
use crate::literal::Lit;
use crate::parity::{block, lemma_blocks_distinct, literal, numbered, numbered_vars, CHAIN_LIMIT};
use crate::qcir::formula::push_clause;
use crate::qcir::read::GateOp;
use crate::qcnf::{matrix_of, prefix_of, QCNF};
use crate::quantifier::QuantTy;
use crate::semantics::Matrix;
use vstd::prelude::*;

verus! {

/// The state of a generator after a state.
pub open spec fn stepped(state: u64) -> u64 {
    let x = state ^ (state << 13u64);
    let y = x ^ (x >> 7u64);
    y ^ (y << 17u64)
}

/// A deterministic xorshift generator, so that instances are reproducible.
pub struct Rng {
    state: u64,
}

impl Rng {
    /// The state of the generator.
    pub closed spec fn state(&self) -> u64 {
        self.state
    }

    /// A generator that starts from a seed.
    pub fn new(seed: u64) -> (rng: Rng)
        ensures
            rng.state() == seed,
    {
        Rng { state: seed }
    }

    /// The next number.
    pub fn next(&mut self) -> (number: u64)
        ensures
            final(self).state() == stepped(old(self).state()),
            number == final(self).state(),
    {
        let mut x: u64 = self.state;
        x = x ^ (x << 13u64);
        x = x ^ (x >> 7u64);
        x = x ^ (x << 17u64);
        self.state = x;
        x
    }

    /// The next number, below a bound.
    pub fn below(&mut self, n: u64) -> (number: u64)
        requires
            n > 0,
        ensures
            final(self).state() == stepped(old(self).state()),
            number == final(self).state() % n,
            number < n,
    {
        self.next() % n
    }

    /// The next bit.
    pub fn flip(&mut self) -> (bit: bool)
        ensures
            final(self).state() == stepped(old(self).state()),
            bit == (final(self).state() & 1 == 1),
    {
        self.next() & 1 == 1
    }
}

/// The literal drawn at a place of a clause, and the state after it. The
/// first literal is existential; the others are universal one time in
/// three.
pub open spec fn drawn_lit(state: u64, k: u64, m: u64, place: int) -> (u64, Lit) {
    let sided = if place > 0 {
        stepped(state)
    } else {
        state
    };
    let chosen = stepped(sided);
    let number = if place > 0 && sided % 3 == 0 {
        1 + chosen as int % k as int
    } else {
        k + 1 + chosen as int % m as int
    };
    let signed = stepped(chosen);
    (signed, numbered(number, signed & 1 == 1))
}

/// The first literals drawn for a clause, and the state after them.
pub open spec fn drawn_lits(state: u64, k: u64, m: u64, count: int) -> (u64, Seq<Lit>)
    decreases count,
{
    if count <= 0 {
        (state, Seq::empty())
    } else {
        let (before, lits) = drawn_lits(state, k, m, count - 1);
        let (after, lit) = drawn_lit(before, k, m, count - 1);
        (after, lits.push(lit))
    }
}

/// The clauses drawn from a state, and the state after them. A clause has
/// 3 to 5 literals.
pub open spec fn drawn_clauses(state: u64, k: u64, m: u64, count: int) -> (u64, Matrix)
    decreases count,
{
    if count <= 0 {
        (state, Seq::empty())
    } else {
        let (before, clauses) = drawn_clauses(state, k, m, count - 1);
        let (after, lits) = drawn_lits(stepped(before), k, m, 3 + stepped(before) as int % 3);
        (after, clauses.push(lits))
    }
}

/// Draws a literal.
fn draw_lit(rng: &mut Rng, k: u64, m: u64, place: u64) -> (lit: Lit)
    requires
        0 < k,
        0 < m,
        k + m <= 2 * CHAIN_LIMIT,
    ensures
        (final(rng).state(), lit) == drawn_lit(old(rng).state(), k, m, place as int),
{
    let number: u64 = if place > 0 && rng.below(3) == 0 {
        1 + rng.below(k)
    } else {
        k + 1 + rng.below(m)
    };
    let polarity = rng.flip();
    literal(number as u32, polarity)
}

/// Draws a clause.
pub fn draw_clause(rng: &mut Rng, k: u64, m: u64) -> (clause: Vec<Lit>)
    requires
        0 < k,
        0 < m,
        k + m <= 2 * CHAIN_LIMIT,
    ensures
        (final(rng).state(), clause@) == drawn_lits(
            stepped(old(rng).state()),
            k,
            m,
            3 + stepped(old(rng).state()) as int % 3,
        ),
{
    let len = 3 + rng.below(3);
    let ghost start = rng.state();
    let mut clause: Vec<Lit> = Vec::new();
    let mut place: u64 = 0;
    while place < len
        invariant
            place <= len,
            0 < k,
            0 < m,
            k + m <= 2 * CHAIN_LIMIT,
            (rng.state(), clause@) == drawn_lits(start, k, m, place as int),
        decreases len - place,
    {
        let lit = draw_lit(rng, k, m, place);
        clause.push(lit);
        place += 1;
    }
    clause
}

/// A random 2QBF with `k` universal and `m` existential variables and `c`
/// clauses of 3 to 5 literals. The first literal of a clause is always
/// existential, so that universal reduction leaves no clause empty.
pub fn random(k: u64, m: u64, c: u64, seed: u64) -> (qcnf: QCNF)
    requires
        0 < k,
        0 < m,
        k + m <= 2 * CHAIN_LIMIT,
    ensures
        qcnf.wf(),
        qcnf.blocks() == seq![(QuantTy::Forall, numbered_vars(1, k as int)), (QuantTy::Exists, numbered_vars(k + 1, m as int))],
        qcnf.clauses() == drawn_clauses(seed, k, m, c as int).1,
{
    let mut rng = Rng::new(seed);
    let mut matrix: Vec<Vec<Lit>> = Vec::new();
    let mut i: u64 = 0;
    assert(matrix_of(matrix@) =~= Seq::<Seq<Lit>>::empty());
    while i < c
        invariant
            i <= c,
            0 < k,
            0 < m,
            k + m <= 2 * CHAIN_LIMIT,
            (rng.state(), matrix_of(matrix@)) == drawn_clauses(seed, k, m, i as int),
        decreases c - i,
    {
        let clause = draw_clause(&mut rng, k, m);
        push_clause(&mut matrix, clause);
        i += 1;
    }
    let mut prefix: Vec<(QuantTy, Vec<crate::literal::Var>)> = Vec::new();
    prefix.push((QuantTy::Forall, block(1, k as u32)));
    prefix.push((QuantTy::Exists, block(k as u32 + 1, m as u32)));
    proof {
        assert(prefix_of(prefix@) =~= seq![
            (QuantTy::Forall, numbered_vars(1, k as int)),
            (QuantTy::Exists, numbered_vars(k + 1, m as int)),
        ]);
        lemma_blocks_distinct(k as int, m as int);
    }
    QCNF { prefix, matrix }
}

/// The most inputs and gates of a random circuit.
pub const RANDOM_LIMIT: usize = 1_073_741_824;

/// The wire that a number below twice the wires stands for.
pub open spec fn drawn_wire(state: u64, wires: int) -> i32 {
    let raw = state as int % (2 * wires);
    if raw % 2 == 0 {
        (raw / 2 + 1) as i32
    } else {
        (-(raw / 2 + 1)) as i32
    }
}

/// A drawn gate over the wires so far.
pub open spec fn drawn_gate(state: u64, wires: int) -> (GateOp, Seq<i32>) {
    let first = stepped(state);
    let second = stepped(first);
    let kind = stepped(second);
    let args = seq![drawn_wire(first, wires), drawn_wire(second, wires)];
    if kind % 3 == 0 {
        (GateOp::And, args)
    } else if kind % 3 == 1 {
        (GateOp::Or, args)
    } else {
        (GateOp::Xor, args)
    }
}

/// The state after a number of gates.
pub open spec fn gates_drawn(state: u64, count: int) -> u64
    decreases count,
{
    if count <= 0 {
        state
    } else {
        stepped(stepped(stepped(gates_drawn(state, count - 1))))
    }
}

/// Draws a wire.
fn draw_wire(rng: &mut Rng, wires: usize) -> (wire: i32)
    requires
        0 < wires <= RANDOM_LIMIT,
    ensures
        final(rng).state() == stepped(old(rng).state()),
        wire == drawn_wire(final(rng).state(), wires as int),
        wire != 0,
        crate::encodings::magnitude(wire) <= wires,
{
    let raw: i64 = rng.below(2 * wires as u64) as i64;
    if raw % 2 == 0 {
        (raw / 2 + 1) as i32
    } else {
        (-(raw / 2 + 1)) as i32
    }
}

/// A random circuit of conjunctions, disjunctions and exclusive ors over
/// `u` universal and `e` existential inputs.
pub fn random_circuit(u: usize, e: usize, gates: usize, seed: u64) -> (circuit: Circuit)
    requires
        0 < u + e,
        u + e + gates <= RANDOM_LIMIT,
    ensures
        circuit.wf(),
        circuit.universals == u,
        circuit.existentials == e,
        circuit.gates@.len() == gates,
        forall|i: int|
            0 <= i < gates ==> ((#[trigger] circuit.gates@[i]).op(), circuit.gates@[i].args()) == drawn_gate(gates_drawn(seed, i), u + e + i),
        circuit.output == drawn_wire(stepped(gates_drawn(seed, gates as int)), u + e + gates),
{
    let mut rng = Rng::new(seed);
    let mut b = Builder::new(u, e);
    let mut k: usize = 0;
    while k < gates
        invariant
            k <= gates,
            0 < u + e,
            u + e + gates <= RANDOM_LIMIT,
            b.wf(),
            b.circuit.universals == u,
            b.circuit.existentials == e,
            b.circuit.gates@.len() == k,
            rng.state() == gates_drawn(seed, k as int),
            forall|i: int|
                0 <= i < k ==> ((#[trigger] b.circuit.gates@[i]).op(), b.circuit.gates@[i].args()) == drawn_gate(gates_drawn(seed, i), u + e + i),
        decreases gates - k,
    {
        let ghost before = b.circuit.gates@;
        let wires = u + e + k;
        let first = draw_wire(&mut rng, wires);
        let second = draw_wire(&mut rng, wires);
        let kind = rng.below(3);
        let args: Vec<i32> = vec![first, second];
        assert(args@ =~= seq![first, second]);
        let gate = if kind == 0 {
            Gate::And(args)
        } else if kind == 1 {
            Gate::Or(args)
        } else {
            Gate::Xor(first, second)
        };
        proof {
            assert(gate.args() =~= seq![first, second]);
            assert((gate.op(), gate.args()) == drawn_gate(gates_drawn(seed, k as int), wires as int));
        }
        b.push(gate);
        proof {
            assert forall|i: int| 0 <= i < k + 1 implies ((#[trigger] b.circuit.gates@[i]).op(), b.circuit.gates@[i].args()) == drawn_gate(
                gates_drawn(seed, i),
                u + e + i,
            ) by {
                if i < k {
                    assert(b.circuit.gates@[i] == before[i]);
                }
            }
        }
        k += 1;
    }
    let out = draw_wire(&mut rng, u + e + gates);
    b.finish(out)
}

} // verus!
