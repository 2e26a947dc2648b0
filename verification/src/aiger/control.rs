//! The safety fixpoint driven by two competing SAT solvers.
//!
//! What a practitioner writes without a quantified solver: one solver
//! proposes a state and an uncontrollable move, a second one checks whether
//! a controllable answer exists. It shares nothing with the quantified
//! solver, which makes it a control for it.
use crate::aiger::alternating::agree_low;
use crate::aiger::circuit::{Circuit, Class, Values};
use crate::aiger::explicit::{
    evaluated, gates_upto, has_answer, padded, plays, stays, step_ok, survives, winning,
};
use crate::aiger::parse::ParseError;
use crate::aiger::qaiger::{lemma_unit, parse_circuit, reads_circuit};
use crate::aiger::safety::{
    cubes_ok, first_line_error, in_cube, initial_is_lost, kept, left, lemma_left_bound, lemma_left_less, lemma_lost_push, lost, power,
};
use crate::datastructure::LitSet;
use crate::incdet::determinacy::{lemma_model_assignment, model_assignment};
use crate::literal::{var_of, Lit, Var};
use crate::qcir::formula::{gate_clauses, law_gate_clauses_are_the_gate};
use crate::qcir::read::GateOp;
use crate::sat::{clauses_ok, lits_ok, outcome_ok, SatOutcome, SatSolver, MAX_NUMBER};
use crate::semantics::{
    clause_mentions, clause_true, cube_true, lemma_matrix_coincide, lit_true, matrix_true, mentions, set_var, Assignment, Matrix,
};
use vstd::prelude::*;

verus! {

broadcast use crate::literal::group_literal;

/// Clauses with a supply of fresh variables.
struct Cnf {
    solver: SatSolver,
    next: u32,
}

/// The literals are on variables below the number.
spec fn lits_below(lits: Seq<Lit>, n: int) -> bool {
    forall|i: int| 0 <= i < lits.len() ==> (#[trigger] lits[i]).v().dimacs() < n
}

/// The clauses are on variables below the number.
spec fn below(m: Matrix, n: int) -> bool {
    forall|i: int| 0 <= i < m.len() ==> lits_below(#[trigger] m[i], n)
}

/// The values of literals.
spec fn reads(a: Assignment, lits: Seq<Lit>) -> Seq<bool> {
    Seq::new(lits.len(), |i: int| lit_true(a, lits[i]))
}

/// Some assignment with the same values below the number satisfies the
/// clauses.
spec fn extends_to(a: Assignment, m: Matrix, n: int) -> bool {
    exists|b: Assignment| #[trigger] matrix_true(b, m) && agree_low(a, b, n)
}

proof fn lemma_low_reads(a: Assignment, b: Assignment, lits: Seq<Lit>, n: int)
    requires
        agree_low(a, b, n),
        lits_below(lits, n),
    ensures
        reads(a, lits) == reads(b, lits),
{
    assert forall|i: int| 0 <= i < lits.len() implies lit_true(a, #[trigger] lits[i]) == lit_true(b, lits[i]) by {
        crate::literal::lemma_var_of(lits[i].v());
        assert(a(var_of(lits[i].v().dimacs())) == b(var_of(lits[i].v().dimacs())));
    }
    assert(reads(a, lits) =~= reads(b, lits));
}

proof fn lemma_low_matrix(a: Assignment, b: Assignment, m: Matrix, n: int)
    requires
        agree_low(a, b, n),
        below(m, n),
    ensures
        matrix_true(a, m) == matrix_true(b, m),
{
    assert forall|x: Var| #[trigger] mentions(m, x) implies a(x) == b(x) by {
        let i = choose|i: int| 0 <= i < m.len() && clause_mentions(#[trigger] m[i], x);
        let j = choose|j: int| 0 <= j < m[i].len() && (#[trigger] m[i][j]).v() == x;
        assert(lits_below(m[i], n));
        crate::literal::lemma_var_of(x);
        assert(a(var_of(x.dimacs())) == b(var_of(x.dimacs())));
    }
    lemma_matrix_coincide(m, a, b);
}

impl Cnf {
    spec fn clauses(&self) -> Matrix {
        self.solver.clauses()
    }

    spec fn wf(&self) -> bool {
        &&& self.solver.wf()
        &&& 1 <= self.next <= MAX_NUMBER + 1
        &&& below(self.clauses(), self.next as int)
    }

    proof fn lemma_in_range(&self)
        requires
            self.wf(),
        ensures
            clauses_ok(self.clauses()),
    {
        let m = self.clauses();
        assert forall|i: int| 0 <= i < m.len() implies lits_ok(#[trigger] m[i]) by {
            assert(lits_below(m[i], self.next as int));
        }
    }

    fn new() -> (cnf: Cnf)
        ensures
            cnf.wf(),
            cnf.next == 1,
            cnf.clauses() == Matrix::empty(),
    {
        Cnf { solver: SatSolver::new(), next: 1 }
    }

    /// A literal on a fresh variable.
    fn fresh(&mut self) -> (lit: Option<Lit>)
        requires
            old(self).wf(),
        ensures
            final(self).wf(),
            final(self).clauses() == old(self).clauses(),
            match lit {
                Some(lit) => lit.v() == var_of(old(self).next as int) && lit.v().dimacs() == old(self).next && lit.pos() && final(self).next
                    == old(self).next + 1,
                None => old(self).next > MAX_NUMBER,
            },
    {
        if self.next > MAX_NUMBER as u32 {
            return None;
        }
        let x = Var::from_dimacs(self.next as i32);
        proof {
            crate::literal::lemma_var_of(x);
        }
        self.next = self.next + 1;
        proof {
            let m = self.clauses();
            assert forall|i: int| 0 <= i < m.len() implies lits_below(#[trigger] m[i], self.next as int) by {
                assert(lits_below(m[i], old(self).next as int));
            }
        }
        Some(x.positive())
    }

    /// Adds a clause.
    fn post(&mut self, clause: Vec<Lit>)
        requires
            old(self).wf(),
            lits_below(clause@, old(self).next as int),
        ensures
            final(self).wf(),
            final(self).next == old(self).next,
            final(self).clauses() == old(self).clauses().push(clause@),
            forall|a: Assignment| #[trigger]
                matrix_true(a, final(self).clauses()) <==> matrix_true(a, old(self).clauses()) && clause_true(a, clause@),
    {
        let ghost before = self.clauses();
        self.solver.add_clause(&clause);
        proof {
            let m = self.clauses();
            assert forall|i: int| 0 <= i < m.len() implies lits_below(#[trigger] m[i], self.next as int) by {
                if i < before.len() {
                    assert(m[i] == before[i]);
                }
            }
            assert forall|a: Assignment| #[trigger] matrix_true(a, m) <==> matrix_true(a, before) && clause_true(a, clause@) by {
                crate::simplify::lemma_push_true(a, before, clause@);
            }
        }
    }

    /// Adds a unit clause.
    fn post_unit(&mut self, lit: Lit)
        requires
            old(self).wf(),
            lit.v().dimacs() < old(self).next,
        ensures
            final(self).wf(),
            final(self).next == old(self).next,
            forall|a: Assignment| #[trigger]
                matrix_true(a, final(self).clauses()) <==> matrix_true(a, old(self).clauses()) && lit_true(a, lit),
    {
        let ghost before = self.clauses();
        let clause: Vec<Lit> = vec![lit];
        assert(clause@ =~= seq![lit]);
        self.post(clause);
        proof {
            assert forall|a: Assignment| #[trigger] matrix_true(a, self.clauses()) <==> matrix_true(a, before) && lit_true(a, lit) by {
                lemma_unit(a, lit);
            }
        }
    }

    /// A fresh literal that is the conjunction of others.
    fn conjunction(&mut self, lits: &Vec<Lit>) -> (result: Option<Lit>)
        requires
            old(self).wf(),
            lits_below(lits@, old(self).next as int),
        ensures
            final(self).wf(),
            match result {
                Some(lit) => {
                    &&& final(self).next == old(self).next + 1
                    &&& lit.v().dimacs() == old(self).next
                    &&& forall|a: Assignment| #[trigger]
                        matrix_true(a, final(self).clauses()) ==> matrix_true(a, old(self).clauses()) && lit_true(a, lit) == cube_true(a, lits@)
                    &&& forall|a: Assignment|
                        matrix_true(a, old(self).clauses()) ==> #[trigger] extends_to(a, final(self).clauses(), old(self).next as int)
                },
                None => old(self).next > MAX_NUMBER,
            },
    {
        let ghost start = *self;
        let lit = match self.fresh() {
            Some(lit) => lit,
            None => return None,
        };
        let ghost n = start.next as int;
        let mut long: Vec<Lit> = vec![lit];
        let mut k: usize = 0;
        proof {
            assert(long@ =~= seq![lit] + crate::qcir::formula::negations(lits@.take(0)));
        }
        while k < lits.len()
            invariant
                k <= lits.len(),
                self.wf(),
                self.next == n + 1,
                n == start.next,
                lit.v().dimacs() == n,
                lits_below(lits@, n),
                long@ == seq![lit] + crate::qcir::formula::negations(lits@.take(k as int)),
                self.clauses() == start.clauses() + Seq::new(k as nat, |i: int| seq![lit.neg(), lits@[i]]),
            decreases lits.len() - k,
        {
            let ghost held = self.clauses();
            let pair: Vec<Lit> = vec![lit.negated(), lits[k]];
            assert(pair@ =~= seq![lit.neg(), lits@[k as int]]);
            assert(lits_below(pair@, self.next as int)) by {
                assert(lits@[k as int].v().dimacs() < n);
            }
            self.post(pair);
            long.push(lits[k].negated());
            k += 1;
            proof {
                assert(long@ =~= seq![lit] + crate::qcir::formula::negations(lits@.take(k as int)));
                assert(self.clauses() =~= start.clauses() + Seq::new(k as nat, |i: int| seq![lit.neg(), lits@[i]]));
            }
        }
        let ghost held = self.clauses();
        proof {
            assert(lits@.take(lits@.len() as int) =~= lits@);
            assert forall|i: int| 0 <= i < long@.len() implies (#[trigger] long@[i]).v().dimacs() < self.next by {
                if i > 0 {
                    assert(lits@[i - 1].v().dimacs() < n);
                }
            }
        }
        self.post(long);
        proof {
            let g = gate_clauses(GateOp::And, lit, lits@);
            assert(self.clauses() =~= start.clauses() + g);
            assert forall|a: Assignment| #[trigger] matrix_true(a, self.clauses()) <==> matrix_true(a, start.clauses()) && lit_true(a, lit)
                == cube_true(a, lits@) by {
                crate::incremental::lemma_concat_true(a, start.clauses(), g);
                law_gate_clauses_are_the_gate(GateOp::And, lit, lits@, a);
            }
            assert forall|a: Assignment| matrix_true(a, start.clauses()) implies #[trigger] extends_to(a, self.clauses(), n) by {
                let b = set_var(a, lit.v(), cube_true(a, lits@));
                assert forall|k: int| 1 <= k < n implies a(#[trigger] var_of(k)) == b(var_of(k)) by {
                    crate::literal::lemma_var_index(k - 1);
                }
                lemma_low_matrix(a, b, start.clauses(), n);
                lemma_low_reads(a, b, lits@, n);
                assert(cube_true(a, lits@) == cube_true(b, lits@)) by {
                    assert forall|i: int| 0 <= i < lits@.len() implies lit_true(a, lits@[i]) == lit_true(b, lits@[i]) by {
                        assert(reads(a, lits@)[i] == reads(b, lits@)[i]);
                    }
                }
                assert(matrix_true(b, self.clauses()));
            }
        }
        Some(lit)
    }
}

/// Extending step by step.
proof fn lemma_extends(a: Assignment, middle: Matrix, after: Matrix, n: int, k: int)
    requires
        extends_to(a, middle, n),
        n <= k,
        forall|b: Assignment| matrix_true(b, middle) ==> #[trigger] extends_to(b, after, k),
    ensures
        extends_to(a, after, n),
{
    let b = choose|b: Assignment| #[trigger] matrix_true(b, middle) && agree_low(a, b, n);
    assert(extends_to(b, after, k));
    let c = choose|c: Assignment| #[trigger] matrix_true(c, after) && agree_low(b, c, k);
    assert(agree_low(a, c, n));
}

/// The literal of a circuit's literal, over given wires; gates that are not
/// there yet are false.
fn wire(circuit: &Circuit, truth: Lit, state: &Vec<Lit>, inputs: &Vec<Lit>, gates: &Vec<Lit>, lit: u64, Ghost(n): Ghost<int>) -> (result: Lit)
    requires
        circuit.wf(),
        circuit.defines(lit),
        lit as int / 2 <= circuit.aiger.max_var,
        state@.len() == circuit.aiger.latches@.len(),
        inputs@.len() == circuit.aiger.inputs@.len(),
        gates@.len() <= circuit.aiger.ands@.len(),
        truth.v().dimacs() < n,
        lits_below(state@, n),
        lits_below(inputs@, n),
        lits_below(gates@, n),
    ensures
        result.v().dimacs() < n,
        forall|a: Assignment| lit_true(a, truth) ==> #[trigger] lit_true(a, result) == circuit.value(
            (Values {
                state: reads(a, state@),
                inputs: reads(a, inputs@),
                gates: padded(reads(a, gates@), circuit.aiger.ands@.len()),
            }),
            lit,
        ),
{
    if lit == 0 {
        return truth.negated();
    }
    if lit == 1 {
        return truth;
    }
    let plain = match circuit.classes[(lit / 2) as usize] {
        Some(Class::Input(i)) => {
            assert(inputs@[i as int].v().dimacs() < n);
            inputs[i]
        },
        Some(Class::Latch(i)) => {
            assert(state@[i as int].v().dimacs() < n);
            state[i]
        },
        Some(Class::Gate(i)) => {
            if i < gates.len() {
                assert(gates@[i as int].v().dimacs() < n);
                gates[i]
            } else {
                truth.negated()
            }
        },
        None => truth.negated(),
    };
    if lit % 2 == 0 {
        plain
    } else {
        plain.negated()
    }
}

/// One copy of the circuit: its error literal and its next state.
struct CircuitCopy {
    error: Lit,
    nexts: Vec<Lit>,
}

/// What a copy says of an assignment.
spec fn copy_says(circuit: Circuit, copy: CircuitCopy, state: Seq<Lit>, inputs: Seq<Lit>, a: Assignment) -> bool {
    let v = evaluated(circuit, reads(a, state), reads(a, inputs));
    &&& lit_true(a, copy.error) == !circuit.safe(v)
    &&& reads(a, copy.nexts@) == circuit.next(v)
}

/// Encodes one copy of the combinational circuit over given literals for
/// the state and the inputs.
fn encode_copy(cnf: &mut Cnf, circuit: &Circuit, truth: Lit, state: &Vec<Lit>, inputs: &Vec<Lit>) -> (copy: Option<CircuitCopy>)
    requires
        old(cnf).wf(),
        circuit.wf(),
        circuit.complete(),
        state@.len() == circuit.aiger.latches@.len(),
        inputs@.len() == circuit.aiger.inputs@.len(),
        truth.v().dimacs() < old(cnf).next,
        lits_below(state@, old(cnf).next as int),
        lits_below(inputs@, old(cnf).next as int),
        forall|a: Assignment| #[trigger] matrix_true(a, old(cnf).clauses()) ==> lit_true(a, truth),
    ensures
        match copy {
            Some(copy) => {
                &&& final(cnf).wf()
                &&& final(cnf).next == old(cnf).next + circuit.aiger.ands@.len() + 1
                &&& copy.error.v().dimacs() < final(cnf).next
                &&& lits_below(copy.nexts@, final(cnf).next as int)
                &&& copy.nexts@.len() == circuit.aiger.latches@.len()
                &&& forall|a: Assignment| #[trigger]
                    matrix_true(a, final(cnf).clauses()) ==> matrix_true(a, old(cnf).clauses()) && copy_says(*circuit, copy, state@, inputs@, a)
                &&& forall|a: Assignment|
                    matrix_true(a, old(cnf).clauses()) ==> #[trigger] extends_to(a, final(cnf).clauses(), old(cnf).next as int)
            },
            None => old(cnf).next + circuit.aiger.ands@.len() > MAX_NUMBER,
        },
{
    let ghost start = *cnf;
    let ghost n = cnf.next as int;
    let ghost c = *circuit;
    let ands = circuit.aiger.ands.len();
    let mut gates: Vec<Lit> = Vec::new();
    let mut k: usize = 0;
    proof {
        assert forall|a: Assignment| matrix_true(a, start.clauses()) implies #[trigger] extends_to(a, start.clauses(), n) by {
            assert(agree_low(a, a, n));
        }
        assert forall|a: Assignment| #[trigger] matrix_true(a, start.clauses()) implies reads(a, gates@) == gates_upto(
            c,
            reads(a, state@),
            reads(a, inputs@),
            0,
        ) by {
            assert(reads(a, gates@) =~= Seq::<bool>::empty());
        }
    }
    while k < ands
        invariant
            k <= ands,
            ands == c.aiger.ands@.len(),
            c == *circuit,
            start == *old(cnf),
            n == start.next,
            c.wf(),
            c.complete(),
            state@.len() == c.aiger.latches@.len(),
            inputs@.len() == c.aiger.inputs@.len(),
            truth.v().dimacs() < n,
            lits_below(state@, n),
            lits_below(inputs@, n),
            forall|a: Assignment| #[trigger] matrix_true(a, start.clauses()) ==> lit_true(a, truth),
            cnf.wf(),
            cnf.next == n + k,
            gates@.len() == k,
            lits_below(gates@, n + k),
            forall|a: Assignment| #[trigger]
                matrix_true(a, cnf.clauses()) ==> matrix_true(a, start.clauses()) && reads(a, gates@) == gates_upto(
                    c,
                    reads(a, state@),
                    reads(a, inputs@),
                    k as int,
                ),
            forall|a: Assignment| matrix_true(a, start.clauses()) ==> #[trigger] extends_to(a, cnf.clauses(), n),
        decreases ands - k,
    {
        let and = circuit.aiger.ands[k];
        assert(c.aiger.ands@[k as int].rhs0 as int / 2 <= c.aiger.max_var && c.aiger.ands@[k as int].rhs1 as int / 2 <= c.aiger.max_var);
        assert(c.defines(c.aiger.ands@[k as int].rhs0) && c.defines(c.aiger.ands@[k as int].rhs1));
        proof {
            lemma_lits_below(state@, n, n + k);
            lemma_lits_below(inputs@, n, n + k);
        }
        let left = wire(circuit, truth, state, inputs, &gates, and.rhs0, Ghost(n + k));
        let right = wire(circuit, truth, state, inputs, &gates, and.rhs1, Ghost(n + k));
        let ghost middle = *cnf;
        let ghost held = gates@;
        let lits: Vec<Lit> = vec![left, right];
        assert(lits_below(lits@, n + k));
        let gate = match cnf.conjunction(&lits) {
            Some(gate) => gate,
            None => return None,
        };
        gates.push(gate);
        proof {
            lemma_lits_below(held, n + k, n + k + 1);
            assert forall|a: Assignment| #[trigger] matrix_true(a, cnf.clauses()) implies matrix_true(a, start.clauses()) && reads(a, gates@)
                == gates_upto(c, reads(a, state@), reads(a, inputs@), k + 1) by {
                assert(matrix_true(a, middle.clauses()));
                assert(reads(a, held) == gates_upto(c, reads(a, state@), reads(a, inputs@), k as int));
                assert(cube_true(a, lits@) == (lit_true(a, left) && lit_true(a, right))) by {
                    crate::aiger::safety::lemma_two(a, lits@, left, right);
                }
                assert(reads(a, gates@) =~= gates_upto(c, reads(a, state@), reads(a, inputs@), k + 1));
            }
            assert forall|a: Assignment| matrix_true(a, start.clauses()) implies #[trigger] extends_to(a, cnf.clauses(), n) by {
                assert(extends_to(a, middle.clauses(), n));
                lemma_extends(a, middle.clauses(), cnf.clauses(), n, n + k);
            }
        }
        k += 1;
    }
    let ghost encoded = *cnf;
    let ghost top = n + ands;
    proof {
        lemma_lits_below(state@, n, top);
        lemma_lits_below(inputs@, n, top);
    }
    let mut quiet: Vec<Lit> = Vec::new();
    let mut k: usize = 0;
    while k < circuit.aiger.outputs.len()
        invariant
            k <= circuit.aiger.outputs.len(),
            c == *circuit,
            c.wf(),
            c.complete(),
            state@.len() == c.aiger.latches@.len(),
            inputs@.len() == c.aiger.inputs@.len(),
            gates@.len() == c.aiger.ands@.len(),
            truth.v().dimacs() < top,
            lits_below(state@, top),
            lits_below(inputs@, top),
            lits_below(gates@, top),
            quiet@.len() == k,
            lits_below(quiet@, top),
            forall|a: Assignment, i: int|
                #![trigger reads(a, gates@), quiet@[i]]
                lit_true(a, truth) && 0 <= i < k ==> lit_true(a, quiet@[i]) == !c.value(
                    (Values { state: reads(a, state@), inputs: reads(a, inputs@), gates: padded(reads(a, gates@), c.aiger.ands@.len()) }),
                    c.aiger.outputs@[i],
                ),
        decreases circuit.aiger.outputs.len() - k,
    {
        let out = circuit.aiger.outputs[k];
        assert(c.aiger.outputs@[k as int] as int / 2 <= c.aiger.max_var);
        assert(c.defines(c.aiger.outputs@[k as int]));
        let lit = wire(circuit, truth, state, inputs, &gates, out, Ghost(top));
        quiet.push(lit.negated());
        k += 1;
        proof {
            assert forall|a: Assignment, i: int|
                #![trigger reads(a, gates@), quiet@[i]]
                lit_true(a, truth) && 0 <= i < k implies lit_true(a, quiet@[i]) == !c.value(
                (Values { state: reads(a, state@), inputs: reads(a, inputs@), gates: padded(reads(a, gates@), c.aiger.ands@.len()) }),
                c.aiger.outputs@[i],
            ) by {
                if i == k - 1 {
                    assert(lit_true(a, lit) == !lit_true(a, quiet@[i]));
                }
            }
        }
    }
    let safe = match cnf.conjunction(&quiet) {
        Some(safe) => safe,
        None => return None,
    };
    let mut nexts: Vec<Lit> = Vec::new();
    let mut k: usize = 0;
    while k < circuit.aiger.latches.len()
        invariant
            k <= circuit.aiger.latches.len(),
            c == *circuit,
            c.wf(),
            c.complete(),
            state@.len() == c.aiger.latches@.len(),
            inputs@.len() == c.aiger.inputs@.len(),
            gates@.len() == c.aiger.ands@.len(),
            truth.v().dimacs() < top,
            lits_below(state@, top),
            lits_below(inputs@, top),
            lits_below(gates@, top),
            nexts@.len() == k,
            lits_below(nexts@, top),
            forall|a: Assignment, i: int|
                #![trigger reads(a, gates@), nexts@[i]]
                lit_true(a, truth) && 0 <= i < k ==> lit_true(a, nexts@[i]) == c.value(
                    (Values { state: reads(a, state@), inputs: reads(a, inputs@), gates: padded(reads(a, gates@), c.aiger.ands@.len()) }),
                    c.aiger.latches@[i].next,
                ),
        decreases circuit.aiger.latches.len() - k,
    {
        let next = circuit.aiger.latches[k].next;
        assert(c.aiger.latches@[k as int].next as int / 2 <= c.aiger.max_var);
        assert(c.defines(c.aiger.latches@[k as int].next));
        let lit = wire(circuit, truth, state, inputs, &gates, next, Ghost(top));
        nexts.push(lit);
        k += 1;
        proof {
            assert forall|a: Assignment, i: int|
                #![trigger reads(a, gates@), nexts@[i]]
                lit_true(a, truth) && 0 <= i < k implies lit_true(a, nexts@[i]) == c.value(
                (Values { state: reads(a, state@), inputs: reads(a, inputs@), gates: padded(reads(a, gates@), c.aiger.ands@.len()) }),
                c.aiger.latches@[i].next,
            ) by {
                if i == k - 1 {
                    assert(lit_true(a, lit) == lit_true(a, nexts@[i]));
                }
            }
        }
    }
    let copy = CircuitCopy { error: safe.negated(), nexts };
    proof {
        lemma_lits_below(nexts@, top, top + 1);
        assert forall|a: Assignment| #[trigger] matrix_true(a, cnf.clauses()) implies matrix_true(a, start.clauses()) && copy_says(
            c,
            copy,
            state@,
            inputs@,
            a,
        ) by {
            assert(matrix_true(a, encoded.clauses()));
            let v = evaluated(c, reads(a, state@), reads(a, inputs@));
            assert(padded(reads(a, gates@), c.aiger.ands@.len()) =~= v.gates);
            let w = Values { state: reads(a, state@), inputs: reads(a, inputs@), gates: padded(reads(a, gates@), c.aiger.ands@.len()) };
            assert(w == v);
            if c.safe(v) {
                assert forall|i: int| 0 <= i < quiet@.len() implies lit_true(a, #[trigger] quiet@[i]) by {
                    assert(!c.value(v, c.aiger.outputs@[i]));
                }
                assert(cube_true(a, quiet@));
            }
            if cube_true(a, quiet@) {
                assert forall|i: int| 0 <= i < c.aiger.outputs@.len() implies !c.value(v, #[trigger] c.aiger.outputs@[i]) by {
                    assert(lit_true(a, quiet@[i]));
                }
                assert(c.safe(v));
            }
            assert(reads(a, nexts@) =~= c.next(v)) by {
                assert forall|i: int| 0 <= i < nexts@.len() implies reads(a, nexts@)[i] == c.next(v)[i] by {
                    assert(lit_true(a, nexts@[i]) == c.value(v, c.aiger.latches@[i].next));
                }
            }
        }
        assert forall|a: Assignment| matrix_true(a, start.clauses()) implies #[trigger] extends_to(a, cnf.clauses(), n) by {
            assert(extends_to(a, encoded.clauses(), n));
            lemma_extends(a, encoded.clauses(), cnf.clauses(), n, top);
        }
    }
    Some(copy)
}

proof fn lemma_lits_below(lits: Seq<Lit>, n: int, k: int)
    requires
        lits_below(lits, n),
        n <= k,
    ensures
        lits_below(lits, k),
{
    assert forall|i: int| 0 <= i < lits.len() implies (#[trigger] lits[i]).v().dimacs() < k by {
        assert(lits[i].v().dimacs() < n);
    }
}

/// The literals of a cube over given wires.
fn cube_lits(cube: &Vec<(usize, bool)>, wires: &Vec<Lit>, Ghost(n): Ghost<int>) -> (lits: Vec<Lit>)
    requires
        forall|i: int| 0 <= i < cube@.len() ==> (#[trigger] cube@[i]).0 < wires@.len(),
        lits_below(wires@, n),
    ensures
        lits_below(lits@, n),
        forall|a: Assignment| #[trigger] cube_true(a, lits@) == in_cube(cube@, reads(a, wires@)),
{
    let mut lits: Vec<Lit> = Vec::new();
    let mut k: usize = 0;
    while k < cube.len()
        invariant
            k <= cube.len(),
            forall|i: int| 0 <= i < cube@.len() ==> (#[trigger] cube@[i]).0 < wires@.len(),
            lits_below(wires@, n),
            lits@.len() == k,
            forall|i: int|
                0 <= i < k ==> #[trigger] lits@[i] == (if cube@[i].1 {
                    wires@[cube@[i].0 as int]
                } else {
                    wires@[cube@[i].0 as int].neg()
                }),
        decreases cube.len() - k,
    {
        let (index, value) = cube[k];
        assert(cube@[k as int].0 < wires@.len());
        lits.push(if value { wires[index] } else { wires[index].negated() });
        k += 1;
    }
    proof {
        assert forall|i: int| 0 <= i < lits@.len() implies (#[trigger] lits@[i]).v().dimacs() < n by {
            assert(cube@[i].0 < wires@.len());
            assert(wires@[cube@[i].0 as int].v().dimacs() < n);
        }
        assert forall|a: Assignment| #[trigger] cube_true(a, lits@) == in_cube(cube@, reads(a, wires@)) by {
            let state = reads(a, wires@);
            assert forall|i: int| 0 <= i < lits@.len() implies lit_true(a, #[trigger] lits@[i]) == (state[cube@[i].0 as int] == cube@[i].1) by {
                assert(cube@[i].0 < wires@.len());
            }
            if cube_true(a, lits@) {
                assert forall|i: int| 0 <= i < cube@.len() implies state[(#[trigger] cube@[i]).0 as int] == cube@[i].1 by {
                    assert(lit_true(a, lits@[i]));
                }
            }
            if in_cube(cube@, state) {
                assert forall|i: int| 0 <= i < lits@.len() implies lit_true(a, #[trigger] lits@[i]) by {
                    assert(state[cube@[i].0 as int] == cube@[i].1);
                }
            }
        }
    }
    lits
}

/// The clause that excludes a cube over given wires.
fn excluding(cube: &Vec<(usize, bool)>, wires: &Vec<Lit>, Ghost(n): Ghost<int>) -> (clause: Vec<Lit>)
    requires
        forall|i: int| 0 <= i < cube@.len() ==> (#[trigger] cube@[i]).0 < wires@.len(),
        lits_below(wires@, n),
    ensures
        lits_below(clause@, n),
        forall|a: Assignment| #[trigger] clause_true(a, clause@) == !in_cube(cube@, reads(a, wires@)),
{
    let lits = cube_lits(cube, wires, Ghost(n));
    let mut clause: Vec<Lit> = Vec::new();
    let mut k: usize = 0;
    while k < lits.len()
        invariant
            k <= lits.len(),
            clause@.len() == k,
            forall|i: int| 0 <= i < k ==> #[trigger] clause@[i] == lits@[i].neg(),
        decreases lits.len() - k,
    {
        clause.push(lits[k].negated());
        k += 1;
    }
    proof {
        assert(clause@ =~= crate::qcir::formula::negations(lits@));
        assert forall|i: int| 0 <= i < clause@.len() implies (#[trigger] clause@[i]).v().dimacs() < n by {
            assert(lits@[i].v().dimacs() < n);
        }
        assert forall|a: Assignment| #[trigger] clause_true(a, clause@) == !in_cube(cube@, reads(a, wires@)) by {
            crate::qcir::formula::lemma_negations(a, lits@);
            assert(cube_true(a, lits@) == in_cube(cube@, reads(a, wires@)));
        }
    }
    clause
}

/// Clauses over a state and inputs, with the constant true.
struct Board {
    cnf: Cnf,
    truth: Lit,
    state: Vec<Lit>,
    inputs: Vec<Lit>,
}

/// Some assignment with the given state and inputs satisfies the clauses.
spec fn covered(m: Matrix, state: Seq<Lit>, inputs: Seq<Lit>, s: Seq<bool>, u: Seq<bool>) -> bool {
    exists|a: Assignment| #[trigger] matrix_true(a, m) && reads(a, state) == s && reads(a, inputs) == u
}

impl Board {
    spec fn clauses(&self) -> Matrix {
        self.cnf.clauses()
    }

    spec fn s(&self, a: Assignment) -> Seq<bool> {
        reads(a, self.state@)
    }

    spec fn u(&self, a: Assignment) -> Seq<bool> {
        reads(a, self.inputs@)
    }

    spec fn wf(&self, circuit: Circuit) -> bool {
        let n = self.cnf.next as int;
        &&& self.cnf.wf()
        &&& self.state@.len() == circuit.aiger.latches@.len()
        &&& self.inputs@.len() == circuit.aiger.inputs@.len()
        &&& self.truth.v().dimacs() < n
        &&& lits_below(self.state@, n)
        &&& lits_below(self.inputs@, n)
        &&& forall|a: Assignment| #[trigger] matrix_true(a, self.clauses()) ==> lit_true(a, self.truth)
    }

    spec fn same_wires(&self, other: &Board) -> bool {
        self.truth == other.truth && self.state == other.state && self.inputs == other.inputs
    }

    /// A fresh state and fresh inputs.
    fn new(circuit: &Circuit) -> (board: Option<Board>)
        requires
            circuit.wf(),
        ensures
            match board {
                Some(board) => {
                    &&& board.wf(*circuit)
                    &&& board.cnf.next == 2 + circuit.aiger.latches@.len() + circuit.aiger.inputs@.len()
                    &&& forall|s: Seq<bool>, u: Seq<bool>|
                        circuit.is_state(s) && circuit.is_move(u) ==> #[trigger] covered(board.clauses(), board.state@, board.inputs@, s, u)
                },
                None => 1 + circuit.aiger.latches@.len() + circuit.aiger.inputs@.len() > MAX_NUMBER,
            },
    {
        let latches = circuit.aiger.latches.len();
        let count = circuit.aiger.inputs.len();
        let mut cnf = Cnf::new();
        let truth = match cnf.fresh() {
            Some(truth) => truth,
            None => return None,
        };
        cnf.post_unit(truth);
        let ghost m = cnf.clauses();
        let state = match fresh_row(&mut cnf, latches) {
            Some(state) => state,
            None => return None,
        };
        let inputs = match fresh_row(&mut cnf, count) {
            Some(inputs) => inputs,
            None => return None,
        };
        let board = Board { cnf, truth, state, inputs };
        proof {
            lemma_lits_below(state@, 2 + latches, 2 + latches + count);
            assert forall|s: Seq<bool>, u: Seq<bool>| circuit.is_state(s) && circuit.is_move(u) implies #[trigger] covered(
                board.clauses(),
                board.state@,
                board.inputs@,
                s,
                u,
            ) by {
                let a = |x: Var|
                    {
                        let n = x.dimacs();
                        if n < 2 {
                            true
                        } else if n < 2 + latches {
                            s[n - 2]
                        } else {
                            u[n - 2 - latches]
                        }
                    };
                assert(matrix_true(a, m));
                assert(reads(a, state@) =~= s);
                assert(reads(a, inputs@) =~= u);
            }
        }
        Some(board)
    }
}

/// Literals on fresh variables.
fn fresh_row(cnf: &mut Cnf, count: usize) -> (row: Option<Vec<Lit>>)
    requires
        old(cnf).wf(),
    ensures
        final(cnf).wf(),
        final(cnf).clauses() == old(cnf).clauses(),
        match row {
            Some(row) => {
                &&& final(cnf).next == old(cnf).next + count
                &&& row@.len() == count
                &&& forall|i: int| 0 <= i < count ==> (#[trigger] row@[i]).pos() && row@[i].v().dimacs() == old(cnf).next + i
            },
            None => old(cnf).next + count > MAX_NUMBER + 1,
        },
{
    let ghost n = cnf.next as int;
    let mut row: Vec<Lit> = Vec::new();
    let mut k: usize = 0;
    while k < count
        invariant
            k <= count,
            n == old(cnf).next,
            cnf.wf(),
            cnf.clauses() == old(cnf).clauses(),
            cnf.next == n + k,
            row@.len() == k,
            forall|i: int| 0 <= i < k ==> (#[trigger] row@[i]).pos() && row@[i].v().dimacs() == n + i,
        decreases count - k,
    {
        match cnf.fresh() {
            Some(lit) => row.push(lit),
            None => return None,
        }
        k += 1;
    }
    Some(row)
}

/// A response: a value for every controllable input, in order.
spec fn response_ok(circuit: Circuit, r: Seq<(usize, bool)>) -> bool {
    &&& forall|k: int| 0 <= k < r.len() ==> (#[trigger] r[k]).0 < circuit.aiger.inputs@.len() && circuit.controllable@[r[k].0 as int]
    &&& forall|j: int, k: int| 0 <= j < k < r.len() ==> (#[trigger] r[j]).0 < (#[trigger] r[k]).0
    &&& forall|p: int| 0 <= p < circuit.aiger.inputs@.len() && circuit.controllable@[p] ==> #[trigger] sets(r, p)
}

/// The response has a value for the input.
spec fn sets(r: Seq<(usize, bool)>, p: int) -> bool {
    exists|k: int| 0 <= k < r.len() && (#[trigger] r[k]).0 == p
}

/// The response is no answer in the state to the move.
spec fn fails(circuit: Circuit, r: Seq<(usize, bool)>, cubes: Seq<Vec<(usize, bool)>>, s: Seq<bool>, u: Seq<bool>) -> bool {
    forall|i: Seq<bool>| #[trigger] plays(circuit, i, u) && in_cube(r, i) ==> !step_ok(circuit, s, i, kept(cubes))
}

/// The state is in the region of the first cubes, and no response is an
/// answer to the move.
spec fn is_open(
    circuit: Circuit,
    cubes: Seq<Vec<(usize, bool)>>,
    removed: int,
    responses: Seq<Vec<(usize, bool)>>,
    s: Seq<bool>,
    u: Seq<bool>,
) -> bool {
    &&& !lost(cubes.take(removed), s)
    &&& forall|k: int| 0 <= k < responses.len() ==> fails(circuit, (#[trigger] responses[k])@, cubes, s, u)
}

/// The board admits exactly the open pairs of a state and a move.
spec fn proposes(board: Board, circuit: Circuit, cubes: Seq<Vec<(usize, bool)>>, removed: int, responses: Seq<Vec<(usize, bool)>>) -> bool {
    &&& forall|a: Assignment| #[trigger]
        matrix_true(a, board.clauses()) ==> is_open(circuit, cubes, removed, responses, board.s(a), board.u(a))
    &&& forall|s: Seq<bool>, u: Seq<bool>|
        circuit.is_state(s) && circuit.is_move(u) && is_open(circuit, cubes, removed, responses, s, u) ==> #[trigger] covered(
            board.clauses(),
            board.state@,
            board.inputs@,
            s,
            u,
        )
}

/// The inputs with the values of a response.
fn respond(board: &Board, circuit: &Circuit, r: &Vec<(usize, bool)>) -> (lits: Vec<Lit>)
    requires
        board.wf(*circuit),
        circuit.wf(),
        response_ok(*circuit, r@),
    ensures
        lits@.len() == circuit.aiger.inputs@.len(),
        lits_below(lits@, board.cnf.next as int),
        forall|a: Assignment| lit_true(a, board.truth) ==> plays(*circuit, #[trigger] reads(a, lits@), board.u(a)) && in_cube(r@, reads(a, lits@)),
{
    let mut lits: Vec<Lit> = Vec::new();
    let mut k: usize = 0;
    while k < board.inputs.len()
        invariant
            k <= board.inputs.len(),
            lits@ == board.inputs@.take(k as int),
        decreases board.inputs.len() - k,
    {
        lits.push(board.inputs[k]);
        k += 1;
        assert(lits@ =~= board.inputs@.take(k as int));
    }
    assert(lits@ =~= board.inputs@);
    let mut k: usize = 0;
    while k < r.len()
        invariant
            k <= r.len(),
            board.wf(*circuit),
            circuit.wf(),
            response_ok(*circuit, r@),
            lits@.len() == circuit.aiger.inputs@.len(),
            forall|p: int| 0 <= p < lits@.len() && !circuit.controllable@[p] ==> #[trigger] lits@[p] == board.inputs@[p],
            forall|p: int|
                0 <= p < lits@.len() ==> #[trigger] lits@[p] == board.inputs@[p] || lits@[p] == board.truth || lits@[p] == board.truth.neg(),
            forall|j: int|
                0 <= j < k ==> lits@[(#[trigger] r@[j]).0 as int] == (if r@[j].1 { board.truth } else { board.truth.neg() }),
        decreases r.len() - k,
    {
        let (position, value) = r[k];
        assert(r@[k as int].0 < circuit.aiger.inputs@.len() && circuit.controllable@[r@[k as int].0 as int]);
        let ghost before = lits@;
        let lit = if value {
            board.truth
        } else {
            board.truth.negated()
        };
        lits.set(position, lit);
        proof {
            assert forall|j: int| 0 <= j < k + 1 implies lits@[(#[trigger] r@[j]).0 as int] == (if r@[j].1 {
                board.truth
            } else {
                board.truth.neg()
            }) by {
                if j < k {
                    assert(r@[j].0 < r@[k as int].0);
                    assert(before[r@[j].0 as int] == (if r@[j].1 { board.truth } else { board.truth.neg() }));
                }
            }
        }
        k += 1;
    }
    proof {
        assert forall|i: int| 0 <= i < lits@.len() implies (#[trigger] lits@[i]).v().dimacs() < board.cnf.next by {
            assert(board.inputs@[i].v().dimacs() < board.cnf.next);
        }
        assert forall|a: Assignment| lit_true(a, board.truth) implies plays(*circuit, #[trigger] reads(a, lits@), board.u(a)) && in_cube(
            r@,
            reads(a, lits@),
        ) by {
            let i = reads(a, lits@);
            assert forall|p: int| 0 <= p < i.len() && !circuit.controllable@[p] implies #[trigger] i[p] == board.u(a)[p] by {
                assert(lits@[p] == board.inputs@[p]);
            }
            assert forall|j: int| 0 <= j < r@.len() implies i[(#[trigger] r@[j]).0 as int] == r@[j].1 by {
                assert(r@[j].0 < circuit.aiger.inputs@.len());
                assert(lits@[r@[j].0 as int] == (if r@[j].1 { board.truth } else { board.truth.neg() }));
            }
        }
    }
    lits
}

/// A response and a move determine all inputs.
proof fn lemma_determined(circuit: Circuit, r: Seq<(usize, bool)>, u: Seq<bool>, i: Seq<bool>, j: Seq<bool>)
    requires
        response_ok(circuit, r),
        plays(circuit, i, u),
        plays(circuit, j, u),
        in_cube(r, i),
        in_cube(r, j),
    ensures
        i == j,
{
    assert forall|p: int| 0 <= p < i.len() implies i[p] == j[p] by {
        if circuit.controllable@[p] {
            assert(sets(r, p));
            let k = choose|k: int| 0 <= k < r.len() && (#[trigger] r[k]).0 == p;
            assert(i[r[k].0 as int] == r[k].1);
            assert(j[r[k].0 as int] == r[k].1);
        } else {
            assert(i[p] == u[p]);
            assert(j[p] == u[p]);
        }
    }
    assert(i =~= j);
}

/// Adds a response: pairs that it answers are no longer proposed.
fn add_response(board: &mut Board, circuit: &Circuit, cubes: &Vec<Vec<(usize, bool)>>, r: &Vec<(usize, bool)>, Ghost(responses): Ghost<
    Seq<Vec<(usize, bool)>>,
>) -> (done: bool)
    requires
        old(board).wf(*circuit),
        circuit.wf(),
        circuit.complete(),
        cubes_ok(cubes@, circuit.aiger.latches@.len()),
        response_ok(*circuit, r@),
        proposes(*old(board), *circuit, cubes@, cubes@.len() as int, responses),
    ensures
        done ==> {
            &&& final(board).wf(*circuit)
            &&& final(board).cnf.next == old(board).cnf.next + circuit.aiger.ands@.len() + 1 + cubes@.len()
            &&& proposes(*final(board), *circuit, cubes@, cubes@.len() as int, responses.push(*r))
        },
        !done ==> old(board).cnf.next + circuit.aiger.ands@.len() + cubes@.len() > MAX_NUMBER,
{
    let ghost start = *board;
    let ghost c = *circuit;
    let ghost n = board.cnf.next as int;
    let lits = respond(board, circuit, r);
    proof {
        assert forall|a: Assignment| #[trigger] matrix_true(a, board.cnf.clauses()) implies lit_true(a, board.truth) by {
            assert(matrix_true(a, board.clauses()));
        }
    }
    let copy = match encode_copy(&mut board.cnf, circuit, board.truth, &board.state, &lits) {
        Some(copy) => copy,
        None => return false,
    };
    let ghost encoded = *board;
    let ghost base = board.cnf.next as int;
    let mut clause: Vec<Lit> = vec![copy.error];
    let mut k: usize = 0;
    proof {
        assert forall|a: Assignment| matrix_true(a, start.clauses()) implies #[trigger] extends_to(a, board.clauses(), n) by {}
        assert(cubes@.take(0) =~= Seq::<Vec<(usize, bool)>>::empty());
        assert forall|a: Assignment| #[trigger] matrix_true(a, board.clauses()) implies clause_true(a, clause@) == (lit_true(a, copy.error) || lost(
            cubes@.take(0),
            reads(a, copy.nexts@),
        )) by {
            assert(clause@ =~= seq![copy.error]);
            lemma_unit(a, copy.error);
        }
    }
    while k < cubes.len()
        invariant
            k <= cubes.len(),
            c == *circuit,
            start == *old(board),
            cubes_ok(cubes@, c.aiger.latches@.len()),
            n == start.cnf.next,
            board.same_wires(&start),
            board.cnf.wf(),
            board.cnf.next == base + k,
            n <= base,
            base == n + c.aiger.ands@.len() + 1,
            copy.nexts@.len() == c.aiger.latches@.len(),
            lits_below(copy.nexts@, base),
            lits_below(clause@, base + k),
            clause@.len() > 0,
            forall|a: Assignment| #[trigger]
                matrix_true(a, board.clauses()) ==> matrix_true(a, start.clauses()) && copy_says(c, copy, start.state@, lits@, a),
            forall|a: Assignment| #[trigger]
                matrix_true(a, board.clauses()) ==> clause_true(a, clause@) == (lit_true(a, copy.error) || lost(
                    cubes@.take(k as int),
                    reads(a, copy.nexts@),
                )),
            forall|a: Assignment| matrix_true(a, start.clauses()) ==> #[trigger] extends_to(a, board.clauses(), n),
        decreases cubes.len() - k,
    {
        let ghost before = *board;
        let ghost held = clause@;
        proof {
            lemma_lits_below(copy.nexts@, base, base + k);
            assert forall|i: int| 0 <= i < cubes@[k as int]@.len() implies (#[trigger] cubes@[k as int]@[i]).0 < copy.nexts@.len() by {}
        }
        let inner = cube_lits(&cubes[k], &copy.nexts, Ghost(base + k));
        let inside = match board.cnf.conjunction(&inner) {
            Some(inside) => inside,
            None => return false,
        };
        clause.push(inside);
        proof {
            lemma_lits_below(held, base + k, base + k + 1);
            assert(cubes@.take(k as int + 1) =~= cubes@.take(k as int).push(cubes@[k as int]));
            assert forall|a: Assignment| #[trigger] matrix_true(a, board.clauses()) implies matrix_true(a, start.clauses()) && copy_says(
                c,
                copy,
                start.state@,
                lits@,
                a,
            ) by {
                assert(matrix_true(a, board.cnf.clauses()));
                assert(matrix_true(a, before.clauses()));
            }
            assert forall|a: Assignment| #[trigger] matrix_true(a, board.clauses()) implies clause_true(a, clause@) == (lit_true(a, copy.error)
                || lost(cubes@.take(k as int + 1), reads(a, copy.nexts@))) by {
                assert(matrix_true(a, before.clauses()));
                lemma_lost_push(cubes@.take(k as int), cubes@[k as int], reads(a, copy.nexts@));
                assert(cube_true(a, inner@) == in_cube(cubes@[k as int]@, reads(a, copy.nexts@)));
                lemma_clause_pushed(a, held, inside);
            }
            assert forall|a: Assignment| matrix_true(a, start.clauses()) implies #[trigger] extends_to(a, board.clauses(), n) by {
                assert(extends_to(a, before.clauses(), n));
                lemma_extends(a, before.clauses(), board.clauses(), n, base + k);
            }
        }
        k += 1;
    }
    let ghost defined = *board;
    assert(cubes@.take(cubes@.len() as int) =~= cubes@);
    board.cnf.post(clause);
    proof {
        lemma_lits_below(board.state@, n, board.cnf.next as int);
        lemma_lits_below(board.inputs@, n, board.cnf.next as int);
        lemma_added(start, defined, *board, c, cubes@, *r, responses, lits@, copy, clause@, n);
        assert forall|a: Assignment| #[trigger] matrix_true(a, board.clauses()) implies lit_true(a, board.truth) by {
            assert(matrix_true(a, defined.clauses()));
            assert(matrix_true(a, start.clauses()));
        }
    }
    true
}

proof fn lemma_clause_pushed(a: Assignment, c: Seq<Lit>, l: Lit)
    ensures
        clause_true(a, c.push(l)) == (clause_true(a, c) || lit_true(a, l)),
{
    let d = c.push(l);
    if clause_true(a, c) {
        let i = choose|i: int| 0 <= i < c.len() && lit_true(a, #[trigger] c[i]);
        assert(lit_true(a, d[i]));
    }
    if lit_true(a, l) {
        assert(lit_true(a, d[c.len() as int]));
    }
    if clause_true(a, d) {
        let i = choose|i: int| 0 <= i < d.len() && lit_true(a, #[trigger] d[i]);
        if i < c.len() {
            assert(lit_true(a, c[i]));
        }
    }
}

/// What the clause of a response says.
proof fn lemma_added(
    start: Board,
    defined: Board,
    after: Board,
    c: Circuit,
    cubes: Seq<Vec<(usize, bool)>>,
    r: Vec<(usize, bool)>,
    responses: Seq<Vec<(usize, bool)>>,
    lits: Seq<Lit>,
    copy: CircuitCopy,
    clause: Seq<Lit>,
    n: int,
)
    requires
        start.wf(c),
        n == start.cnf.next,
        response_ok(c, r@),
        defined.same_wires(&start),
        after.same_wires(&start),
        proposes(start, c, cubes, cubes.len() as int, responses),
        forall|a: Assignment| lit_true(a, start.truth) ==> plays(c, #[trigger] reads(a, lits), start.u(a)) && in_cube(r@, reads(a, lits)),
        forall|a: Assignment| #[trigger]
            matrix_true(a, defined.clauses()) ==> matrix_true(a, start.clauses()) && copy_says(c, copy, start.state@, lits, a),
        forall|a: Assignment| #[trigger]
            matrix_true(a, defined.clauses()) ==> clause_true(a, clause) == (lit_true(a, copy.error) || lost(cubes, reads(a, copy.nexts@))),
        forall|a: Assignment| matrix_true(a, start.clauses()) ==> #[trigger] extends_to(a, defined.clauses(), n),
        forall|a: Assignment| #[trigger] matrix_true(a, after.clauses()) <==> matrix_true(a, defined.clauses()) && clause_true(a, clause),
    ensures
        proposes(after, c, cubes, cubes.len() as int, responses.push(r)),
{
    let all = responses.push(r);
    let removed = cubes.len() as int;
    assert forall|a: Assignment| #[trigger] matrix_true(a, defined.clauses()) implies clause_true(a, clause) == !step_ok(
        c,
        start.s(a),
        reads(a, lits),
        kept(cubes),
    ) by {}
    assert forall|a: Assignment| #[trigger] matrix_true(a, after.clauses()) implies is_open(c, cubes, removed, all, after.s(a), after.u(a)) by {
        assert(matrix_true(a, start.clauses()));
        assert(is_open(c, cubes, removed, responses, start.s(a), start.u(a)));
        assert forall|k: int| 0 <= k < all.len() implies fails(c, (#[trigger] all[k])@, cubes, after.s(a), after.u(a)) by {
            if k < responses.len() {
                assert(all[k] == responses[k]);
            } else {
                let mine = reads(a, lits);
                assert forall|i: Seq<bool>| #[trigger] plays(c, i, after.u(a)) && in_cube(r@, i) implies !step_ok(c, after.s(a), i, kept(cubes)) by {
                    lemma_determined(c, r@, after.u(a), i, mine);
                }
            }
        }
    }
    assert forall|s: Seq<bool>, u: Seq<bool>| c.is_state(s) && c.is_move(u) && is_open(c, cubes, removed, all, s, u) implies #[trigger] covered(
        after.clauses(),
        after.state@,
        after.inputs@,
        s,
        u,
    ) by {
        assert forall|k: int| 0 <= k < responses.len() implies fails(c, (#[trigger] responses[k])@, cubes, s, u) by {
            assert(all[k] == responses[k]);
        }
        assert(fails(c, r@, cubes, s, u)) by {
            assert(all[responses.len() as int] == r);
        }
        assert(is_open(c, cubes, removed, responses, s, u));
        assert(covered(start.clauses(), start.state@, start.inputs@, s, u));
        let a = choose|a: Assignment| #[trigger] matrix_true(a, start.clauses()) && reads(a, start.state@) == s && reads(a, start.inputs@) == u;
        assert(extends_to(a, defined.clauses(), n));
        let b = choose|b: Assignment| #[trigger] matrix_true(b, defined.clauses()) && agree_low(a, b, n);
        lemma_low_reads(a, b, start.state@, n);
        lemma_low_reads(a, b, start.inputs@, n);
        assert(matrix_true(b, start.clauses()));
        assert(plays(c, reads(b, lits), u));
        assert(!step_ok(c, s, reads(b, lits), kept(cubes)));
        assert(matrix_true(b, after.clauses()));
    }
}

/// The variables that all copies together need.
spec fn needed(circuit: Circuit, responses: int, cubes: int) -> int {
    1 + circuit.aiger.latches@.len() + circuit.aiger.inputs@.len() + responses * (circuit.aiger.ands@.len() + 1 + cubes)
}

proof fn lemma_needed(circuit: Circuit, j: int, k: int, cubes: int, more: int)
    requires
        0 <= j <= k,
        0 <= cubes <= more,
    ensures
        needed(circuit, j, cubes) <= needed(circuit, k, more),
        needed(circuit, j + 1, cubes) == needed(circuit, j, cubes) + circuit.aiger.ands@.len() + 1 + cubes,
{
    let w = circuit.aiger.ands@.len() + 1 + cubes;
    let v = circuit.aiger.ands@.len() + 1 + more;
    assert(j * w <= k * v) by (nonlinear_arith)
        requires
            0 <= j <= k,
            0 <= w <= v,
    ;
    assert((j + 1) * w == j * w + w) by (nonlinear_arith);
}

/// The solver that proposes a state of the region and a move that no known
/// response answers.
fn candidate_for(circuit: &Circuit, cubes: &Vec<Vec<(usize, bool)>>, responses: &Vec<Vec<(usize, bool)>>) -> (board: Option<Board>)
    requires
        circuit.wf(),
        circuit.complete(),
        cubes_ok(cubes@, circuit.aiger.latches@.len()),
        forall|k: int| 0 <= k < responses@.len() ==> response_ok(*circuit, (#[trigger] responses@[k])@),
    ensures
        match board {
            Some(board) => {
                &&& board.wf(*circuit)
                &&& board.cnf.next == needed(*circuit, responses@.len() as int, cubes@.len() as int) + 1
                &&& proposes(board, *circuit, cubes@, cubes@.len() as int, responses@)
            },
            None => needed(*circuit, responses@.len() as int, cubes@.len() as int) > MAX_NUMBER,
        },
{
    let ghost c = *circuit;
    let ghost total = responses@.len() as int;
    let ghost size = cubes@.len() as int;
    proof {
        lemma_needed(c, 0, total, size, size);
        assert(0 * (c.aiger.ands@.len() + 1 + size) == 0) by (nonlinear_arith);
    }
    let mut board = match Board::new(circuit) {
        Some(board) => board,
        None => return None,
    };
    let ghost none = Seq::<Vec<(usize, bool)>>::empty();
    assert(cubes@.take(0) =~= none);
    let mut k: usize = 0;
    while k < cubes.len()
        invariant
            k <= cubes.len(),
            c == *circuit,
            size == cubes@.len(),
            cubes_ok(cubes@, c.aiger.latches@.len()),
            none == Seq::<Vec<(usize, bool)>>::empty(),
            board.wf(c),
            board.cnf.next == needed(c, 0, size) + 1,
            proposes(board, c, cubes@, k as int, none),
        decreases cubes.len() - k,
    {
        let ghost before = board;
        proof {
            assert forall|i: int| 0 <= i < cubes@[k as int]@.len() implies (#[trigger] cubes@[k as int]@[i]).0 < board.state@.len() by {}
        }
        let clause = excluding(&cubes[k], &board.state, Ghost(board.cnf.next as int));
        board.cnf.post(clause);
        proof {
            assert(cubes@.take(k as int + 1) =~= cubes@.take(k as int).push(cubes@[k as int]));
            assert forall|a: Assignment| #[trigger] matrix_true(a, board.clauses()) implies is_open(c, cubes@, k + 1, none, board.s(a), board.u(a))
                && lit_true(a, board.truth) by {
                assert(matrix_true(a, before.clauses()));
                assert(clause_true(a, clause@));
                lemma_lost_push(cubes@.take(k as int), cubes@[k as int], board.s(a));
            }
            assert forall|s: Seq<bool>, u: Seq<bool>| c.is_state(s) && c.is_move(u) && is_open(c, cubes@, k + 1, none, s, u) implies #[trigger] covered(
                board.clauses(),
                board.state@,
                board.inputs@,
                s,
                u,
            ) by {
                lemma_lost_push(cubes@.take(k as int), cubes@[k as int], s);
                assert(is_open(c, cubes@, k as int, none, s, u));
                assert(covered(before.clauses(), before.state@, before.inputs@, s, u));
                let a = choose|a: Assignment| #[trigger]
                    matrix_true(a, before.clauses()) && reads(a, before.state@) == s && reads(a, before.inputs@) == u;
                assert(clause_true(a, clause@));
                assert(matrix_true(a, board.clauses()));
            }
        }
        k += 1;
    }
    let mut k: usize = 0;
    assert(responses@.take(0) =~= none);
    while k < responses.len()
        invariant
            k <= responses.len(),
            c == *circuit,
            c.wf(),
            c.complete(),
            total == responses@.len(),
            size == cubes@.len(),
            cubes_ok(cubes@, c.aiger.latches@.len()),
            forall|k: int| 0 <= k < responses@.len() ==> response_ok(c, (#[trigger] responses@[k])@),
            board.wf(c),
            board.cnf.next == needed(c, k as int, size) + 1,
            proposes(board, c, cubes@, size, responses@.take(k as int)),
        decreases responses.len() - k,
    {
        proof {
            lemma_needed(c, k as int, total, size, size);
            lemma_needed(c, k + 1, total, size, size);
            assert(responses@.take(k as int + 1) =~= responses@.take(k as int).push(responses@[k as int]));
            assert(response_ok(c, responses@[k as int]@));
        }
        if !add_response(&mut board, circuit, cubes, &responses[k], Ghost(responses@.take(k as int))) {
            return None;
        }
        k += 1;
    }
    assert(responses@.take(total) =~= responses@);
    Some(board)
}

/// The solver that answers a state and a move: the controller avoids the
/// error and stays in the region.
struct Responder {
    board: Board,
    copy: CircuitCopy,
}

impl Responder {
    spec fn wf(&self, circuit: Circuit, cubes: Seq<Vec<(usize, bool)>>) -> bool {
        let b = self.board;
        &&& b.wf(circuit)
        &&& self.copy.nexts@.len() == circuit.aiger.latches@.len()
        &&& lits_below(self.copy.nexts@, b.cnf.next as int)
        &&& forall|a: Assignment| #[trigger]
            matrix_true(a, b.clauses()) ==> copy_says(circuit, self.copy, b.state@, b.inputs@, a) && step_ok(circuit, b.s(a), b.u(a), kept(cubes))
        &&& forall|s: Seq<bool>, i: Seq<bool>|
            circuit.is_state(s) && circuit.is_move(i) && step_ok(circuit, s, i, kept(cubes)) ==> #[trigger] covered(
                b.clauses(),
                b.state@,
                b.inputs@,
                s,
                i,
            )
    }

    fn new(circuit: &Circuit) -> (responder: Option<Responder>)
        requires
            circuit.wf(),
            circuit.complete(),
        ensures
            match responder {
                Some(responder) => responder.wf(*circuit, Seq::empty()),
                None => needed(*circuit, 1, 1) > MAX_NUMBER,
            },
    {
        let ghost c = *circuit;
        proof {
            assert(1 * (c.aiger.ands@.len() + 1 + 1) == c.aiger.ands@.len() + 2) by (nonlinear_arith);
        }
        let mut board = match Board::new(circuit) {
            Some(board) => board,
            None => return None,
        };
        let ghost start = board;
        let ghost n = board.cnf.next as int;
        proof {
            assert forall|a: Assignment| #[trigger] matrix_true(a, board.cnf.clauses()) implies lit_true(a, board.truth) by {
                assert(matrix_true(a, board.clauses()));
            }
        }
        let copy = match encode_copy(&mut board.cnf, circuit, board.truth, &board.state, &board.inputs) {
            Some(copy) => copy,
            None => return None,
        };
        let ghost encoded = board;
        board.cnf.post_unit(copy.error.negated());
        let responder = Responder { board, copy };
        proof {
            let b = responder.board;
            let none = Seq::<Vec<(usize, bool)>>::empty();
            lemma_lits_below(b.state@, n, b.cnf.next as int);
            lemma_lits_below(b.inputs@, n, b.cnf.next as int);
            assert forall|a: Assignment| #[trigger] matrix_true(a, b.clauses()) implies lit_true(a, b.truth) && copy_says(
                c,
                copy,
                b.state@,
                b.inputs@,
                a,
            ) && step_ok(c, b.s(a), b.u(a), kept(none)) by {
                assert(matrix_true(a, encoded.cnf.clauses()));
                assert(matrix_true(a, start.clauses()));
            }
            assert forall|s: Seq<bool>, i: Seq<bool>| c.is_state(s) && c.is_move(i) && step_ok(c, s, i, kept(none)) implies #[trigger] covered(
                b.clauses(),
                b.state@,
                b.inputs@,
                s,
                i,
            ) by {
                assert(covered(start.clauses(), start.state@, start.inputs@, s, i));
                let a = choose|a: Assignment| #[trigger]
                    matrix_true(a, start.clauses()) && reads(a, start.state@) == s && reads(a, start.inputs@) == i;
                assert(extends_to(a, encoded.cnf.clauses(), n));
                let d = choose|d: Assignment| #[trigger] matrix_true(d, encoded.cnf.clauses()) && agree_low(a, d, n);
                lemma_low_reads(a, d, start.state@, n);
                lemma_low_reads(a, d, start.inputs@, n);
                assert(copy_says(c, copy, b.state@, b.inputs@, d));
                assert(matrix_true(d, b.clauses()));
            }
        }
        Some(responder)
    }

    /// The next state may no longer land in the cube.
    fn exclude(&mut self, circuit: &Circuit, cube: &Vec<(usize, bool)>, Ghost(cubes): Ghost<Seq<Vec<(usize, bool)>>>)
        requires
            old(self).wf(*circuit, cubes),
            forall|i: int| 0 <= i < cube@.len() ==> (#[trigger] cube@[i]).0 < circuit.aiger.latches@.len(),
        ensures
            final(self).wf(*circuit, cubes.push(*cube)),
    {
        let ghost c = *circuit;
        let ghost before = *self;
        let clause = excluding(cube, &self.copy.nexts, Ghost(self.board.cnf.next as int));
        self.board.cnf.post(clause);
        proof {
            let b = self.board;
            let all = cubes.push(*cube);
            assert forall|a: Assignment| #[trigger] matrix_true(a, b.clauses()) implies lit_true(a, b.truth) && copy_says(
                c,
                self.copy,
                b.state@,
                b.inputs@,
                a,
            ) && step_ok(c, b.s(a), b.u(a), kept(all)) by {
                assert(matrix_true(a, before.board.clauses()));
                assert(clause_true(a, clause@));
                lemma_lost_push(cubes, *cube, c.next(evaluated(c, b.s(a), b.u(a))));
            }
            assert forall|s: Seq<bool>, i: Seq<bool>| c.is_state(s) && c.is_move(i) && step_ok(c, s, i, kept(all)) implies #[trigger] covered(
                b.clauses(),
                b.state@,
                b.inputs@,
                s,
                i,
            ) by {
                lemma_lost_push(cubes, *cube, c.next(evaluated(c, s, i)));
                assert(step_ok(c, s, i, kept(cubes)));
                assert(covered(before.board.clauses(), before.board.state@, before.board.inputs@, s, i));
                let a = choose|a: Assignment| #[trigger]
                    matrix_true(a, before.board.clauses()) && reads(a, b.state@) == s && reads(a, b.inputs@) == i;
                assert(copy_says(c, self.copy, b.state@, b.inputs@, a));
                assert(clause_true(a, clause@));
                assert(matrix_true(a, b.clauses()));
            }
        }
    }
}

/// The values of literals in a model; what it leaves out is false.
fn read_model(model: &Vec<Lit>, lits: &Vec<Lit>) -> (values: Vec<bool>)
    ensures
        values@ == reads(model_assignment(model@), lits@),
{
    let set = LitSet::from_lits(model);
    let mut values: Vec<bool> = Vec::new();
    let mut k: usize = 0;
    while k < lits.len()
        invariant
            k <= lits.len(),
            forall|l: Lit| #[trigger] set@.contains(l) <==> model@.contains(l),
            values@.len() == k,
            forall|i: int| 0 <= i < k ==> #[trigger] values@[i] == lit_true(model_assignment(model@), lits@[i]),
        decreases lits.len() - k,
    {
        let lit = lits[k];
        let positive = Lit::positive(lit.var());
        let held = set.contains(positive);
        proof {
            let x = lit.v();
            if held {
                let i = choose|i: int| 0 <= i < model@.len() && model@[i] == positive;
                assert(model@[i].v() == x && model@[i].pos());
            }
            if model_assignment(model@)(x) {
                let i = choose|i: int| 0 <= i < model@.len() && (#[trigger] model@[i]).v() == x && model@[i].pos();
                crate::literal::lemma_lit_ext(model@[i], positive);
                assert(model@.contains(positive));
            }
        }
        values.push(held == lit.is_positive());
        k += 1;
    }
    assert(values@ =~= reads(model_assignment(model@), lits@));
    values
}

/// All values, as a cube.
fn full_cube(values: &Vec<bool>) -> (cube: Vec<(usize, bool)>)
    ensures
        cube@.len() == values@.len(),
        forall|i: int| 0 <= i < cube@.len() ==> (#[trigger] cube@[i]) == (i as usize, values@[i]),
        forall|s: Seq<bool>| s.len() == values@.len() ==> (#[trigger] in_cube(cube@, s) <==> s == values@),
{
    let mut cube: Vec<(usize, bool)> = Vec::new();
    let mut k: usize = 0;
    while k < values.len()
        invariant
            k <= values.len(),
            cube@.len() == k,
            forall|i: int| 0 <= i < k ==> (#[trigger] cube@[i]) == (i as usize, values@[i]),
        decreases values.len() - k,
    {
        cube.push((k, values[k]));
        k += 1;
    }
    proof {
        assert forall|s: Seq<bool>| s.len() == values@.len() implies (#[trigger] in_cube(cube@, s) <==> s == values@) by {
            if in_cube(cube@, s) {
                assert forall|i: int| 0 <= i < s.len() implies s[i] == values@[i] by {
                    assert(s[cube@[i].0 as int] == cube@[i].1);
                }
                assert(s =~= values@);
            }
        }
    }
    cube
}

/// The values of the inputs that are controllable, or of those that are
/// not, as a cube.
fn inputs_cube(circuit: &Circuit, values: &Vec<bool>, controllable: bool) -> (cube: Vec<(usize, bool)>)
    requires
        circuit.wf(),
        values@.len() == circuit.aiger.inputs@.len(),
    ensures
        forall|i: int| 0 <= i < cube@.len() ==> (#[trigger] cube@[i]).0 < circuit.aiger.inputs@.len(),
        in_cube(cube@, values@),
        controllable ==> response_ok(*circuit, cube@),
        !controllable ==> forall|i: Seq<bool>| i.len() == values@.len() ==> (#[trigger] in_cube(cube@, i) <==> plays(*circuit, i, values@)),
{
    let ghost c = *circuit;
    let mut cube: Vec<(usize, bool)> = Vec::new();
    let mut k: usize = 0;
    while k < values.len()
        invariant
            k <= values.len(),
            c == *circuit,
            c.wf(),
            values@.len() == c.aiger.inputs@.len(),
            forall|i: int|
                0 <= i < cube@.len() ==> (#[trigger] cube@[i]).0 < k && c.controllable@[cube@[i].0 as int] == controllable && cube@[i].1
                    == values@[cube@[i].0 as int],
            forall|i: int, j: int| 0 <= i < j < cube@.len() ==> (#[trigger] cube@[i]).0 < (#[trigger] cube@[j]).0,
            forall|p: int| 0 <= p < k && c.controllable@[p] == controllable ==> #[trigger] sets(cube@, p),
        decreases values.len() - k,
    {
        let ghost before = cube@;
        if circuit.controllable[k] == controllable {
            cube.push((k, values[k]));
        }
        proof {
            assert forall|p: int| 0 <= p < k + 1 && c.controllable@[p] == controllable implies #[trigger] sets(cube@, p) by {
                if p < k {
                    assert(sets(before, p));
                    let i = choose|i: int| 0 <= i < before.len() && (#[trigger] before[i]).0 == p;
                    assert(cube@[i].0 == p);
                } else {
                    assert(cube@[before.len() as int].0 == p);
                }
            }
        }
        k += 1;
    }
    proof {
        if !controllable {
            assert forall|i: Seq<bool>| i.len() == values@.len() implies (#[trigger] in_cube(cube@, i) <==> plays(c, i, values@)) by {
                if in_cube(cube@, i) {
                    assert forall|p: int| 0 <= p < i.len() && !c.controllable@[p] implies #[trigger] i[p] == values@[p] by {
                        assert(sets(cube@, p));
                        let j = choose|j: int| 0 <= j < cube@.len() && (#[trigger] cube@[j]).0 == p;
                        assert(i[cube@[j].0 as int] == cube@[j].1);
                    }
                }
                if plays(c, i, values@) {
                    assert forall|j: int| 0 <= j < cube@.len() implies i[(#[trigger] cube@[j]).0 as int] == cube@[j].1 by {
                        assert(i[cube@[j].0 as int] == values@[cube@[j].0 as int]);
                    }
                }
            }
        }
    }
    cube
}

/// Some state of the cube with the inputs takes a good step.
spec fn good_from(circuit: Circuit, cubes: Seq<Vec<(usize, bool)>>, states: Seq<(usize, bool)>, s: Seq<bool>, i: Seq<bool>) -> bool {
    circuit.is_state(s) && in_cube(states, s) && step_ok(circuit, s, i, kept(cubes))
}

/// No state of the cube has an answer to the move.
spec fn unanswered(circuit: Circuit, cubes: Seq<Vec<(usize, bool)>>, states: Seq<(usize, bool)>, u: Seq<bool>) -> bool {
    forall|s: Seq<bool>, i: Seq<bool>| plays(circuit, i, u) ==> !#[trigger] good_from(circuit, cubes, states, s, i)
}

impl Responder {
    /// Asks for inputs that answer a move from some state of a cube.
    fn ask(&self, circuit: &Circuit, states: &Vec<(usize, bool)>, moves: &Vec<(usize, bool)>, Ghost(cubes): Ghost<Seq<Vec<(usize, bool)>>>, Ghost(
        u,
    ): Ghost<Seq<bool>>) -> (answer: Option<Vec<bool>>)
        requires
            self.wf(*circuit, cubes),
            circuit.is_move(u),
            forall|i: int| 0 <= i < states@.len() ==> (#[trigger] states@[i]).0 < circuit.aiger.latches@.len(),
            forall|i: int| 0 <= i < moves@.len() ==> (#[trigger] moves@[i]).0 < circuit.aiger.inputs@.len(),
            forall|i: Seq<bool>| i.len() == u.len() ==> (#[trigger] in_cube(moves@, i) <==> plays(*circuit, i, u)),
        ensures
            match answer {
                Some(i) => plays(*circuit, i@, u) && exists|s: Seq<bool>| #[trigger] good_from(*circuit, cubes, states@, s, i@),
                None => unanswered(*circuit, cubes, states@, u),
            },
    {
        let b = &self.board;
        let ghost n = b.cnf.next as int;
        let mut lits = cube_lits(states, &b.state, Ghost(n));
        let mut more = cube_lits(moves, &b.inputs, Ghost(n));
        let ghost first = lits@;
        let ghost second = more@;
        lits.append(&mut more);
        proof {
            assert(lits@ =~= first + second);
            b.cnf.lemma_in_range();
            assert forall|i: int| 0 <= i < lits@.len() implies crate::sat::lit_ok(#[trigger] lits@[i]) by {
                if i < first.len() {
                    assert(first[i].v().dimacs() < n);
                } else {
                    assert(second[i - first.len()].v().dimacs() < n);
                }
            }
            assert forall|a: Assignment| #[trigger] cube_true(a, lits@) == (cube_true(a, first) && cube_true(a, second)) by {
                lemma_cube_joined(a, first, second);
            }
        }
        match b.cnf.solver.solve_with_assumptions(&lits) {
            SatOutcome::Sat(model) => {
                let inputs = read_model(&model, &b.inputs);
                proof {
                    let a = model_assignment(model@);
                    lemma_model_assignment(model@);
                    assert(matrix_true(a, b.clauses()) && cube_true(a, lits@));
                    assert(cube_true(a, first) == in_cube(states@, b.s(a)));
                    assert(cube_true(a, second) == in_cube(moves@, b.u(a)));
                    assert(in_cube(moves@, inputs@));
                    assert(good_from(*circuit, cubes, states@, b.s(a), inputs@));
                }
                Some(inputs)
            },
            SatOutcome::Unsat => {
                proof {
                    assert forall|s: Seq<bool>, i: Seq<bool>| plays(*circuit, i, u) implies !#[trigger] good_from(*circuit, cubes, states@, s, i) by {
                        if good_from(*circuit, cubes, states@, s, i) {
                            assert(covered(b.clauses(), b.state@, b.inputs@, s, i));
                            let a = choose|a: Assignment| #[trigger]
                                matrix_true(a, b.clauses()) && reads(a, b.state@) == s && reads(a, b.inputs@) == i;
                            assert(cube_true(a, first) == in_cube(states@, s));
                            assert(in_cube(moves@, i));
                            assert(cube_true(a, second) == in_cube(moves@, i));
                            assert(cube_true(a, lits@));
                        }
                    }
                }
                None
            },
            SatOutcome::OutOfRange => None,
        }
    }

    /// Drops what the states of an unanswered cube do not need.
    fn generalize(&self, circuit: &Circuit, cube: Vec<(usize, bool)>, moves: &Vec<(usize, bool)>, Ghost(cubes): Ghost<
        Seq<Vec<(usize, bool)>>,
    >, Ghost(u): Ghost<Seq<bool>>, Ghost(s): Ghost<Seq<bool>>) -> (result: Vec<(usize, bool)>)
        requires
            self.wf(*circuit, cubes),
            circuit.is_move(u),
            forall|i: int| 0 <= i < cube@.len() ==> (#[trigger] cube@[i]).0 < circuit.aiger.latches@.len(),
            forall|i: int| 0 <= i < moves@.len() ==> (#[trigger] moves@[i]).0 < circuit.aiger.inputs@.len(),
            forall|i: Seq<bool>| i.len() == u.len() ==> (#[trigger] in_cube(moves@, i) <==> plays(*circuit, i, u)),
            unanswered(*circuit, cubes, cube@, u),
            in_cube(cube@, s),
        ensures
            forall|i: int| 0 <= i < result@.len() ==> (#[trigger] result@[i]).0 < circuit.aiger.latches@.len(),
            unanswered(*circuit, cubes, result@, u),
            in_cube(result@, s),
            forall|i: int| 0 <= i < result@.len() ==> cube@.contains(#[trigger] result@[i]),
            forall|j: int| 0 <= j < result@.len() ==> !unanswered(*circuit, cubes, #[trigger] result@.remove(j), u),
    {
        let ghost given = cube@;
        let mut result = cube;
        let mut k: usize = result.len();
        assert forall|i: int| 0 <= i < result@.len() implies given.contains(#[trigger] result@[i]) by {}
        while k > 0
            invariant
                k <= result@.len(),
                forall|i: int| 0 <= i < result@.len() ==> given.contains(#[trigger] result@[i]),
                forall|j: int| k <= j < result@.len() ==> !unanswered(*circuit, cubes, #[trigger] result@.remove(j), u),
                self.wf(*circuit, cubes),
                circuit.is_move(u),
                forall|i: int| 0 <= i < result@.len() ==> (#[trigger] result@[i]).0 < circuit.aiger.latches@.len(),
                forall|i: int| 0 <= i < moves@.len() ==> (#[trigger] moves@[i]).0 < circuit.aiger.inputs@.len(),
                forall|i: Seq<bool>| i.len() == u.len() ==> (#[trigger] in_cube(moves@, i) <==> plays(*circuit, i, u)),
                unanswered(*circuit, cubes, result@, u),
                in_cube(result@, s),
            decreases k,
        {
            k -= 1;
            let mut shorter: Vec<(usize, bool)> = Vec::new();
            let mut j: usize = 0;
            while j < result.len()
                invariant
                    j <= result.len(),
                    k < result@.len(),
                    shorter@.len() == (if j <= k { j as int } else { j - 1 }),
                    forall|i: int| 0 <= i < shorter@.len() ==> #[trigger] shorter@[i] == (if i < k { result@[i] } else { result@[i + 1] }),
                    forall|i: int| 0 <= i < result@.len() ==> (#[trigger] result@[i]).0 < circuit.aiger.latches@.len(),
                    forall|i: int| 0 <= i < shorter@.len() ==> result@.contains(#[trigger] shorter@[i]),
                decreases result.len() - j,
            {
                if j != k {
                    shorter.push(result[j]);
                    assert(result@.contains(result@[j as int]));
                }
                j += 1;
            }
            proof {
                assert forall|i: int| 0 <= i < shorter@.len() implies (#[trigger] shorter@[i]).0 < circuit.aiger.latches@.len() && s[shorter@[i].0 as int]
                    == shorter@[i].1 by {
                    let e = choose|e: int| 0 <= e < result@.len() && result@[e] == shorter@[i];
                    assert(s[result@[e].0 as int] == result@[e].1);
                }
            }
            match self.ask(circuit, &shorter, moves, Ghost(cubes), Ghost(u)) {
                Some(answer) => {
                    proof {
                        assert(shorter@ =~= result@.remove(k as int));
                        let t = choose|t: Seq<bool>| #[trigger] good_from(*circuit, cubes, shorter@, t, answer@);
                        assert(plays(*circuit, answer@, u) && good_from(*circuit, cubes, shorter@, t, answer@));
                    }
                },
                None => {
                    proof {
                        assert(shorter@ =~= result@.remove(k as int));
                        assert forall|i: int| 0 <= i < shorter@.len() implies given.contains(#[trigger] shorter@[i]) by {
                            assert(given.contains(result@[if i < k { i } else { i + 1 }]));
                        }
                        assert forall|j: int| k <= j < shorter@.len() implies !unanswered(*circuit, cubes, #[trigger] shorter@.remove(j), u) by {
                            let more = result@.remove(j + 1);
                            let fewer = shorter@.remove(j);
                            assert(!unanswered(*circuit, cubes, more, u));
                            assert forall|i: int| 0 <= i < fewer.len() implies more.contains(#[trigger] fewer[i]) by {
                                if i < k {
                                    assert(more[i] == fewer[i]);
                                } else if i < j {
                                    assert(more[i + 1] == fewer[i]);
                                } else {
                                    assert(more[i + 1] == fewer[i]);
                                }
                            }
                            lemma_unanswered(*circuit, cubes, more, fewer, u);
                        }
                    }
                    result = shorter;
                },
            }
        }
        result
    }
}

/// What no state of a cube has, no state of a smaller cube has.
proof fn lemma_unanswered(
    circuit: Circuit,
    cubes: Seq<Vec<(usize, bool)>>,
    more: Seq<(usize, bool)>,
    fewer: Seq<(usize, bool)>,
    u: Seq<bool>,
)
    requires
        forall|i: int| 0 <= i < fewer.len() ==> more.contains(#[trigger] fewer[i]),
    ensures
        unanswered(circuit, cubes, fewer, u) ==> unanswered(circuit, cubes, more, u),
{
    if unanswered(circuit, cubes, fewer, u) {
        assert forall|s: Seq<bool>, i: Seq<bool>| plays(circuit, i, u) implies !#[trigger] good_from(circuit, cubes, more, s, i) by {
            if good_from(circuit, cubes, more, s, i) {
                assert forall|k: int| 0 <= k < fewer.len() implies s[(#[trigger] fewer[k]).0 as int] == fewer[k].1 by {
                    let j = choose|j: int| 0 <= j < more.len() && more[j] == fewer[k];
                    assert(s[more[j].0 as int] == more[j].1);
                }
                assert(good_from(circuit, cubes, fewer, s, i));
            }
        }
    }
}

proof fn lemma_cube_joined(a: Assignment, first: Seq<Lit>, second: Seq<Lit>)
    ensures
        cube_true(a, first + second) == (cube_true(a, first) && cube_true(a, second)),
{
    let all = first + second;
    if cube_true(a, all) {
        assert forall|i: int| 0 <= i < first.len() implies lit_true(a, #[trigger] first[i]) by {
            assert(lit_true(a, all[i]));
        }
        assert forall|i: int| 0 <= i < second.len() implies lit_true(a, #[trigger] second[i]) by {
            assert(lit_true(a, all[first.len() + i]));
        }
    }
    if cube_true(a, first) && cube_true(a, second) {
        assert forall|i: int| 0 <= i < all.len() implies lit_true(a, #[trigger] all[i]) by {
            if i < first.len() {
                assert(lit_true(a, first[i]));
            } else {
                assert(lit_true(a, second[i - first.len()]));
            }
        }
    }
}

/// The outcome of the fixpoint over two solvers.
#[derive(Debug)]
pub struct ControlOutcome {
    /// whether the controller wins from the initial state
    pub realizable: bool,
    /// candidate solvers built, one per region
    pub rounds: u32,
    /// cubes that left the region
    pub cubes: usize,
    /// responses learnt
    pub refinements: u32,
}

/// The cube at a position holds a state that those before it do not.
pub open spec fn adds_state(circuit: Circuit, cubes: Seq<Vec<(usize, bool)>>, k: int) -> bool {
    exists|state: Seq<bool>| #[trigger] circuit.is_state(state) && in_cube(cubes[k]@, state) && !lost(cubes.take(k), state)
}

/// The cubes are what left the region: together they hold exactly the
/// states that are not winning, and each adds a state.
pub open spec fn left_by(circuit: Circuit, cubes: Seq<Vec<(usize, bool)>>) -> bool {
    &&& cubes_ok(cubes, circuit.aiger.latches@.len())
    &&& forall|state: Seq<bool>| circuit.is_state(state) ==> #[trigger] winning(circuit, state) == !lost(cubes, state)
    &&& forall|k: int| 0 <= k < cubes.len() ==> #[trigger] adds_state(circuit, cubes, k)
}

/// The counts of an outcome: every candidate solver but the last takes a
/// cube from the region, and the last one does so where all states lose.
/// No response is learnt twice.
pub open spec fn counts_control(circuit: Circuit, outcome: ControlOutcome) -> bool {
    &&& exists|cubes: Seq<Vec<(usize, bool)>>| #[trigger]
        left_by(circuit, cubes) && outcome.cubes == cubes.len() && (outcome.rounds == cubes.len() + 1 || outcome.rounds == cubes.len()
            && cubes.len() > 0 && cubes.last()@.len() == 0)
    &&& outcome.refinements <= power(circuit.aiger.inputs@.len())
}

/// One more cube with a new state.
proof fn lemma_adds_state(circuit: Circuit, cubes: Seq<Vec<(usize, bool)>>, cube: Vec<(usize, bool)>, some: Seq<bool>)
    requires
        forall|k: int| 0 <= k < cubes.len() ==> #[trigger] adds_state(circuit, cubes, k),
        circuit.is_state(some),
        in_cube(cube@, some),
        !lost(cubes, some),
    ensures
        forall|k: int| 0 <= k < cubes.len() + 1 ==> #[trigger] adds_state(circuit, cubes.push(cube), k),
{
    let more = cubes.push(cube);
    assert forall|k: int| 0 <= k < cubes.len() + 1 implies #[trigger] adds_state(circuit, more, k) by {
        assert(more.take(k) =~= cubes.take(k));
        if k < cubes.len() {
            assert(adds_state(circuit, cubes, k));
            let state = choose|state: Seq<bool>| #[trigger]
                circuit.is_state(state) && in_cube(cubes[k]@, state) && !lost(cubes.take(k), state);
            assert(circuit.is_state(state) && in_cube(more[k]@, state) && !lost(more.take(k), state));
        } else {
            assert(cubes.take(k) =~= cubes);
            assert(circuit.is_state(some) && in_cube(more[k]@, some) && !lost(more.take(k), some));
        }
    }
}

/// The numbering of the back end suffices whatever the run.
pub open spec fn control_fits(circuit: Circuit) -> bool {
    let states = power(circuit.aiger.latches@.len());
    let moves = power(circuit.aiger.inputs@.len());
    1 + circuit.aiger.latches@.len() + circuit.aiger.inputs@.len() + moves * (circuit.aiger.ands@.len() + 1 + states) <= MAX_NUMBER
}

/// A state from which some move has no answer is not winning.
proof fn lemma_unanswered_loses(circuit: Circuit, cubes: Seq<Vec<(usize, bool)>>, cube: Seq<(usize, bool)>, u: Seq<bool>, s: Seq<bool>)
    requires
        circuit.is_move(u),
        circuit.is_state(s),
        in_cube(cube, s),
        unanswered(circuit, cubes, cube, u),
        forall|t: Seq<bool>| circuit.is_state(t) && #[trigger] winning(circuit, t) ==> !lost(cubes, t),
    ensures
        !winning(circuit, s),
{
    if winning(circuit, s) {
        let region = choose|region: spec_fn(Seq<bool>) -> bool| #[trigger] stays(circuit, region) && region(s);
        assert(survives(circuit, s, region));
        assert(has_answer(circuit, s, u, region));
        let i = choose|i: Seq<bool>| #[trigger] plays(circuit, i, u) && step_ok(circuit, s, i, region);
        let next = circuit.next(evaluated(circuit, s, i));
        assert(winning(circuit, next));
        assert(circuit.is_state(next));
        assert(kept(cubes)(next));
        assert(good_from(circuit, cubes, cube, s, i));
    }
}

/// Where every pair of a kept state and a move has an answer, the
/// controller can stay among the kept states.
proof fn lemma_closed(board: Board, circuit: Circuit, cubes: Seq<Vec<(usize, bool)>>, responses: Seq<Vec<(usize, bool)>>)
    requires
        proposes(board, circuit, cubes, cubes.len() as int, responses),
        forall|a: Assignment| !#[trigger] matrix_true(a, board.clauses()),
    ensures
        stays(circuit, kept(cubes)),
{
    let region = kept(cubes);
    assert(cubes.take(cubes.len() as int) =~= cubes);
    assert forall|s: Seq<bool>| circuit.is_state(s) && #[trigger] region(s) implies survives(circuit, s, region) by {
        assert forall|u: Seq<bool>| #[trigger] circuit.is_move(u) implies has_answer(circuit, s, u, region) by {
            assert(!covered(board.clauses(), board.state@, board.inputs@, s, u));
            assert(!is_open(circuit, cubes, cubes.len() as int, responses, s, u));
            let k = choose|k: int| 0 <= k < responses.len() && !fails(circuit, (#[trigger] responses[k])@, cubes, s, u);
            let i = choose|i: Seq<bool>| #[trigger] plays(circuit, i, u) && in_cube(responses[k]@, i) && step_ok(circuit, s, i, region);
            assert(plays(circuit, i, u) && step_ok(circuit, s, i, region));
        }
    }
}

/// One more cube or response leaves fewer points outside.
proof fn lemma_fewer(n: nat, before: Seq<Vec<(usize, bool)>>, cube: Vec<(usize, bool)>, point: Seq<bool>)
    requires
        point.len() == n,
        in_cube(cube@, point),
        !lost(before, point),
    ensures
        left(Seq::empty(), n, before.push(cube)) < left(Seq::empty(), n, before),
{
    assert forall|s: Seq<bool>| lost(before, s) implies #[trigger] lost(before.push(cube), s) by {
        lemma_lost_push(before, cube, s);
    }
    lemma_lost_push(before, cube, point);
    assert(point.take(0) =~= Seq::<bool>::empty());
    lemma_left_less(Seq::empty(), n, before, before.push(cube), point);
}

proof fn lemma_beyond(circuit: Circuit, responses: int, cubes: int)
    requires
        0 <= responses <= power(circuit.aiger.inputs@.len()),
        0 <= cubes <= power(circuit.aiger.latches@.len()),
        needed(circuit, responses, cubes) > MAX_NUMBER,
    ensures
        !control_fits(circuit),
{
    lemma_needed(
        circuit,
        responses,
        power(circuit.aiger.inputs@.len()) as int,
        cubes,
        power(circuit.aiger.latches@.len()) as int,
    );
}

proof fn lemma_power(n: nat)
    ensures
        power(n) >= 1,
    decreases n,
{
    if n > 0 {
        lemma_power((n - 1) as nat);
    }
}

/// A long run needs many variables.
proof fn lemma_long_run(circuit: Circuit)
    requires
        power(circuit.aiger.latches@.len()) >= 4_000_000_000 || power(circuit.aiger.inputs@.len()) >= 4_000_000_000,
    ensures
        !control_fits(circuit),
{
    let states = power(circuit.aiger.latches@.len()) as int;
    let moves = power(circuit.aiger.inputs@.len()) as int;
    let w = circuit.aiger.ands@.len() + 1 + states;
    lemma_power(circuit.aiger.latches@.len());
    lemma_power(circuit.aiger.inputs@.len());
    assert(moves * w >= w && moves * w >= moves) by (nonlinear_arith)
        requires
            moves >= 1,
            w >= 1,
    ;
}

/// The greatest fixpoint of a game, by refinement over two SAT solvers: one
/// proposes a state of the region and a move, the other looks for an
/// answer. An answer refines what is proposed; a pair without one takes a
/// cube of states from the region.
fn fixpoint(circuit: &Circuit) -> (outcome: Option<ControlOutcome>)
    requires
        circuit.wf(),
        circuit.complete(),
    ensures
        outcome matches Some(outcome) ==> outcome.realizable == winning(*circuit, circuit.initial()) && counts_control(*circuit, outcome),
        outcome is None ==> !control_fits(*circuit),
{
    let ghost c = *circuit;
    let ghost latches = circuit.aiger.latches@.len();
    let ghost moves = circuit.aiger.inputs@.len();
    let none: Vec<Vec<(usize, bool)>> = Vec::new();
    proof {
        lemma_power(latches);
        lemma_power(moves);
        assert(none@ =~= Seq::<Vec<(usize, bool)>>::empty());
        lemma_left_bound(Seq::empty(), latches, none@);
        lemma_left_bound(Seq::empty(), moves, none@);
    }
    let mut responder = match Responder::new(circuit) {
        Some(responder) => responder,
        None => {
            proof {
                lemma_beyond(c, 1, 1);
            }
            return None;
        },
    };
    let mut cubes: Vec<Vec<(usize, bool)>> = Vec::new();
    let mut responses: Vec<Vec<(usize, bool)>> = Vec::new();
    let mut rounds: u32 = 0;
    let mut refinements: u32 = 0;
    proof {
        assert(cubes@ =~= none@ && responses@ =~= none@);
    }
    loop
        invariant
            c == *circuit,
            c.wf(),
            c.complete(),
            latches == c.aiger.latches@.len(),
            moves == c.aiger.inputs@.len(),
            cubes_ok(cubes@, latches),
            responder.wf(c, cubes@),
            forall|k: int| 0 <= k < responses@.len() ==> response_ok(c, (#[trigger] responses@[k])@),
            forall|t: Seq<bool>| c.is_state(t) && #[trigger] winning(c, t) ==> !lost(cubes@, t),
            cubes@.len() + left(Seq::empty(), latches, cubes@) <= power(latches),
            responses@.len() + left(Seq::empty(), moves, responses@) <= power(moves),
            rounds == cubes@.len(),
            refinements == responses@.len(),
            forall|k: int| 0 <= k < cubes@.len() ==> #[trigger] adds_state(c, cubes@, k),
        decreases left(Seq::empty(), latches, cubes@),
    {
        if rounds == u32::MAX {
            proof {
                lemma_long_run(c);
            }
            return None;
        }
        rounds += 1;
        let mut board = match candidate_for(circuit, &cubes, &responses) {
            Some(board) => board,
            None => {
                proof {
                    lemma_beyond(c, responses@.len() as int, cubes@.len() as int);
                }
                return None;
            },
        };
        let cube: Vec<(usize, bool)>;
        let ghost proposed: Seq<bool> = Seq::empty();
        loop
            invariant_except_break
                c == *circuit,
                c.wf(),
                c.complete(),
                latches == c.aiger.latches@.len(),
                moves == c.aiger.inputs@.len(),
                cubes_ok(cubes@, latches),
                responder.wf(c, cubes@),
                board.wf(c),
                board.cnf.next == needed(c, responses@.len() as int, cubes@.len() as int) + 1,
                proposes(board, c, cubes@, cubes@.len() as int, responses@),
                forall|k: int| 0 <= k < responses@.len() ==> response_ok(c, (#[trigger] responses@[k])@),
                forall|t: Seq<bool>| c.is_state(t) && #[trigger] winning(c, t) ==> !lost(cubes@, t),
                cubes@.len() + left(Seq::empty(), latches, cubes@) <= power(latches),
                responses@.len() + left(Seq::empty(), moves, responses@) <= power(moves),
                rounds == cubes@.len() + 1,
                refinements == responses@.len(),
                forall|k: int| 0 <= k < cubes@.len() ==> #[trigger] adds_state(c, cubes@, k),
            ensures
                c.is_state(proposed),
                !lost(cubes@, proposed),
                in_cube(cube@, proposed),
                forall|i: int| 0 <= i < cube@.len() ==> (#[trigger] cube@[i]).0 < latches,
                forall|t: Seq<bool>| c.is_state(t) && #[trigger] in_cube(cube@, t) ==> !winning(c, t),
                forall|k: int| 0 <= k < responses@.len() ==> response_ok(c, (#[trigger] responses@[k])@),
                responses@.len() + left(Seq::empty(), moves, responses@) <= power(moves),
                refinements == responses@.len(),
            decreases left(Seq::empty(), moves, responses@),
        {
            proof {
                board.cnf.lemma_in_range();
            }
            let model = match board.cnf.solver.solve() {
                SatOutcome::Sat(model) => model,
                SatOutcome::Unsat => {
                    proof {
                        assert forall|a: Assignment| !#[trigger] matrix_true(a, board.clauses()) by {
                            assert(cube_true(a, Seq::<Lit>::empty()));
                        }
                        lemma_closed(board, c, cubes@, responses@);
                        if !lost(cubes@, c.initial()) {
                            assert(kept(cubes@)(c.initial()));
                        }
                        assert forall|t: Seq<bool>| c.is_state(t) implies #[trigger] winning(c, t) == !lost(cubes@, t) by {
                            if !lost(cubes@, t) {
                                assert(kept(cubes@)(t));
                                assert(stays(c, kept(cubes@)));
                            }
                        }
                        assert(left_by(c, cubes@));
                    }
                    let realizable = !initial_is_lost(circuit, &cubes);
                    return Some(ControlOutcome { realizable, rounds, cubes: cubes.len(), refinements });
                },
                SatOutcome::OutOfRange => {
                    assert(lits_ok(Seq::<Lit>::empty()));
                    return None;
                },
            };
            let state = read_model(&model, &board.state);
            let inputs = read_model(&model, &board.inputs);
            let ghost s = state@;
            let ghost u = inputs@;
            proof {
                let a = model_assignment(model@);
                lemma_model_assignment(model@);
                assert(matrix_true(a, board.clauses()));
                assert(is_open(c, cubes@, cubes@.len() as int, responses@, s, u));
                assert(cubes@.take(cubes@.len() as int) =~= cubes@);
            }
            let whole = full_cube(&state);
            let asked = inputs_cube(circuit, &inputs, false);
            match responder.ask(circuit, &whole, &asked, Ghost(cubes@), Ghost(u)) {
                Some(answer) => {
                    let response = inputs_cube(circuit, &answer, true);
                    if refinements == u32::MAX {
                        proof {
                            lemma_long_run(c);
                        }
                        return None;
                    }
                    proof {
                        let t = choose|t: Seq<bool>| #[trigger] good_from(c, cubes@, whole@, t, answer@);
                        assert(t == s);
                        if lost(responses@, answer@) {
                            let k = choose|k: int| 0 <= k < responses@.len() && in_cube((#[trigger] responses@[k])@, answer@);
                            assert(fails(c, responses@[k]@, cubes@, s, u));
                        }
                        lemma_fewer(moves, responses@, response, answer@);
                        lemma_needed(c, responses@.len() as int, responses@.len() as int, cubes@.len() as int, cubes@.len() as int);
                    }
                    let ghost before = responses@;
                    if !add_response(&mut board, circuit, &cubes, &response, Ghost(responses@)) {
                        proof {
                            lemma_beyond(c, responses@.len() as int + 1, cubes@.len() as int);
                        }
                        return None;
                    }
                    responses.push(response);
                    refinements += 1;
                },
                None => {
                    let smaller = responder.generalize(circuit, whole, &asked, Ghost(cubes@), Ghost(u), Ghost(s));
                    proof {
                        proposed = s;
                        assert forall|t: Seq<bool>| c.is_state(t) && #[trigger] in_cube(smaller@, t) implies !winning(c, t) by {
                            lemma_unanswered_loses(c, cubes@, smaller@, u, t);
                        }
                    }
                    cube = smaller;
                    break;
                },
            }
        }
        if cube.len() == 0 {
            // every state loses
            proof {
                assert(in_cube(cube@, c.initial()));
                let all = cubes@.push(cube);
                lemma_adds_state(c, cubes@, cube, proposed);
                assert forall|t: Seq<bool>| c.is_state(t) implies #[trigger] winning(c, t) == !lost(all, t) by {
                    assert(in_cube(all[cubes@.len() as int]@, t));
                }
                assert forall|k: int, i: int| 0 <= k < all.len() && 0 <= i < all[k]@.len() implies (#[trigger] all[k]@[i]).0 < latches by {
                    if k < cubes@.len() {
                        assert(cubes@[k]@[i].0 < latches);
                    }
                }
                assert(left_by(c, all));
            }
            return Some(ControlOutcome { realizable: false, rounds, cubes: cubes.len() + 1, refinements });
        }
        responder.exclude(circuit, &cube, Ghost(cubes@));
        proof {
            lemma_fewer(latches, cubes@, cube, proposed);
            lemma_adds_state(c, cubes@, cube, proposed);
            assert forall|t: Seq<bool>| c.is_state(t) && #[trigger] winning(c, t) implies !lost(cubes@.push(cube), t) by {
                lemma_lost_push(cubes@, cube, t);
            }
        }
        let ghost before = cubes@;
        cubes.push(cube);
        proof {
            assert forall|k: int, i: int| 0 <= k < cubes@.len() && 0 <= i < cubes@[k]@.len() implies (#[trigger] cubes@[k]@[i]).0 < latches by {
                if k < before.len() {
                    assert(cubes@[k] == before[k]);
                    assert(before[k]@[i].0 < latches);
                }
            }
        }
    }
}

/// What the fixpoint over two solvers gives for a text.
pub open spec fn controls_game(text: Seq<char>, result: Result<ControlOutcome, ParseError>) -> bool {
    match result {
        Ok(outcome) => exists|circuit: Circuit| #[trigger]
            reads_circuit(text, Ok(circuit)) && circuit.complete() && outcome.realizable == winning(circuit, circuit.initial())
                && counts_control(circuit, outcome),
        Err(error) => reads_circuit(text, Err(error)) || exists|circuit: Circuit| #[trigger]
            reads_circuit(text, Ok(circuit)) && error.line == 1 && if circuit.complete() {
                !control_fits(circuit) && error.message@ == "the game is too large"@
            } else {
                error.message@ == "an undefined variable is read"@
            },
    }
}

/// Solves a safety game by refinement over two competing SAT solvers, as a
/// control for the quantified solver.
pub fn two_solver_fixpoint(text: &str) -> (result: Result<ControlOutcome, ParseError>)
    ensures
        controls_game(text@, result),
{
    let circuit = match parse_circuit(text) {
        Ok(circuit) => circuit,
        Err(error) => return Err(error),
    };
    assert(reads_circuit(text@, Ok(circuit)));
    if !circuit.is_complete() {
        return Err(first_line_error("an undefined variable is read"));
    }
    match fixpoint(&circuit) {
        Some(outcome) => Ok(outcome),
        None => Err(first_line_error("the game is too large")),
    }
}

/// On an ordered circuit the control and the refinement by the quantified
/// solver agree.
pub proof fn law_control_agrees(circuit: Circuit, control: ControlOutcome, outcome: crate::aiger::safety::SafetyOutcome)
    requires
        circuit.wf(),
        crate::aiger::explicit::ordered(circuit),
        control.realizable == winning(circuit, circuit.initial()),
        crate::aiger::safety::outcome_ok(circuit, outcome),
    ensures
        control.realizable == outcome.realizable,
{
    crate::aiger::explicit::law_explicit_game_is_the_game(circuit, circuit.initial());
}

} // verus!
