//! Combinational 2QBF circuits and their encodings as clauses.
//!
//! The same circuit can be handed to the solver as two-sided clauses, where
//! every gate is fully defined, or one-sided, where each gate keeps only the
//! implication directions that its polarities require. Both have the same
//! verdict.
use crate::incremental::lemma_concat_true;
use crate::literal::{lit_of, var_of, Lit, Var};
use crate::qcir::formula::{
    gate_clauses, gate_value, law_gate_clauses_are_the_gate, lemma_long, lemma_negations, negations, push_clause, push_gate, push_three,
};
use crate::qcir::read::GateOp;
use crate::qcnf::{matrix_of, prefix_of, QCNF};
use crate::quantifier::QuantTy;
use crate::semantics::{
    agree_off, clause_true, cube_true, formula_true, lemma_exists_block, lemma_forall_block, lit_true, matrix_true, qbf, set_var, with_block,
    Assignment, Matrix, Prefix,
};
use crate::text::{decimal, push_decimal};
use vstd::prelude::*;
use vstd::string::*;

pub mod listing;
pub mod relations;
pub mod wiring;
pub mod words;

verus! {

broadcast use crate::literal::group_literal;

/// The most variables of a circuit.
pub const WIRE_LIMIT: usize = 2_147_483_000;

/// A gate over signed variable numbers.
pub enum Gate {
    And(Vec<i32>),
    Or(Vec<i32>),
    Xor(i32, i32),
}

/// A combinational 2QBF circuit: inputs are variables `1..=universals`
/// (universal) and `universals+1..=universals+existentials` (existential),
/// gates are numbered after the inputs in definition order, and the output
/// literal must hold. Literals are signed variable numbers.
pub struct Circuit {
    pub universals: usize,
    pub existentials: usize,
    pub gates: Vec<Gate>,
    pub output: i32,
}

/// The literal with a signed number.
pub open spec fn signed(l: i32) -> Lit {
    if l > 0 {
        lit_of(var_of(l as int), true)
    } else {
        lit_of(var_of(-(l as int)), false)
    }
}

/// The number of the variable of a signed number.
pub open spec fn magnitude(l: i32) -> int {
    if l > 0 {
        l as int
    } else {
        -(l as int)
    }
}

impl Gate {
    /// The arguments of a gate.
    pub open spec fn args(self) -> Seq<i32> {
        match self {
            Gate::And(args) => args@,
            Gate::Or(args) => args@,
            Gate::Xor(a, b) => seq![a, b],
        }
    }

    /// The operation of a gate.
    pub open spec fn op(self) -> GateOp {
        match self {
            Gate::And(args) => GateOp::And,
            Gate::Or(args) => GateOp::Or,
            Gate::Xor(a, b) => GateOp::Xor,
        }
    }

    /// The literals of the arguments.
    pub open spec fn lits(self) -> Seq<Lit> {
        Seq::new(self.args().len(), |i: int| signed(self.args()[i]))
    }
}

/// The clauses that a true gate needs.
pub open spec fn positive_clauses(op: GateOp, g: Lit, args: Seq<Lit>) -> Matrix {
    match op {
        GateOp::And => Seq::new(args.len(), |i: int| seq![g.neg(), args[i]]),
        GateOp::Or => seq![seq![g.neg()] + args],
        _ => seq![seq![g.neg(), args[0], args[1]], seq![g.neg(), args[0].neg(), args[1].neg()]],
    }
}

/// The clauses that a false gate needs.
pub open spec fn negative_clauses(op: GateOp, g: Lit, args: Seq<Lit>) -> Matrix {
    match op {
        GateOp::And => seq![seq![g] + negations(args)],
        GateOp::Or => Seq::new(args.len(), |i: int| seq![g, args[i].neg()]),
        _ => seq![seq![g, args[0].neg(), args[1]], seq![g, args[0], args[1].neg()]],
    }
}

impl Circuit {
    /// The number of inputs.
    pub open spec fn inputs(&self) -> int {
        self.universals + self.existentials
    }

    /// The number of a gate's variable.
    pub open spec fn gate_number(&self, index: int) -> int {
        self.inputs() + index + 1
    }

    /// The positive literal of a gate.
    pub open spec fn gate_lit(&self, index: int) -> Lit {
        lit_of(var_of(self.gate_number(index)), true)
    }

    /// Gates read inputs and earlier gates.
    pub open spec fn wf(&self) -> bool {
        &&& self.inputs() + self.gates@.len() < WIRE_LIMIT
        &&& self.output != 0
        &&& magnitude(self.output) <= self.inputs() + self.gates@.len()
        &&& forall|k: int, i: int|
            0 <= k < self.gates@.len() && 0 <= i < self.gates@[k].args().len() ==> #[trigger] self.gates@[k].args()[i] != 0 && magnitude(
                self.gates@[k].args()[i],
            ) <= self.inputs() + k
    }

    /// The two-sided clauses of the first gates.
    pub open spec fn defined_gates(&self, count: int) -> Matrix
        decreases count,
    {
        if count <= 0 {
            Seq::empty()
        } else {
            self.defined_gates(count - 1) + gate_clauses(
                self.gates@[count - 1].op(),
                self.gate_lit(count - 1),
                self.gates@[count - 1].lits(),
            )
        }
    }

    /// The two-sided encoding: every gate is fully defined.
    pub open spec fn two_sided(&self) -> Matrix {
        self.defined_gates(self.gates@.len() as int).push(seq![signed(self.output)])
    }

    /// The output depends on a polarity of a gate.
    pub open spec fn needs(&self, index: int, positive: bool) -> bool
        decreases self.gates@.len() - index,
    {
        ||| magnitude(self.output) == self.gate_number(index) && (self.output > 0) == positive
        ||| exists|parent: int, i: int|
            index < parent < self.gates@.len() && 0 <= i < self.gates@[parent].args().len() && #[trigger] magnitude(
                self.gates@[parent].args()[i],
            ) == self.gate_number(index) && match self.gates@[parent].op() {
                GateOp::Xor => self.needs(parent, true) || self.needs(parent, false),
                _ => self.needs(parent, (self.gates@[parent].args()[i] > 0) == positive),
            }
    }

    /// The clauses that a gate keeps.
    pub open spec fn kept_clauses(&self, index: int) -> Matrix {
        let op = self.gates@[index].op();
        let g = self.gate_lit(index);
        let args = self.gates@[index].lits();
        (if self.needs(index, true) {
            positive_clauses(op, g, args)
        } else {
            Seq::empty()
        }) + (if self.needs(index, false) {
            negative_clauses(op, g, args)
        } else {
            Seq::empty()
        })
    }

    /// The one-sided clauses of the first gates.
    pub open spec fn kept_gates(&self, count: int) -> Matrix
        decreases count,
    {
        if count <= 0 {
            Seq::empty()
        } else {
            self.kept_gates(count - 1) + self.kept_clauses(count - 1)
        }
    }

    /// The one-sided encoding: each gate keeps only the implication
    /// directions its polarities require.
    pub open spec fn one_sided(&self) -> Matrix {
        self.kept_gates(self.gates@.len() as int).push(seq![signed(self.output)])
    }

    /// The universal inputs.
    pub open spec fn outer(&self) -> Seq<Var> {
        Seq::new(self.universals as nat, |i: int| var_of(i + 1))
    }

    /// The existential inputs and the gates.
    pub open spec fn inner(&self) -> Seq<Var> {
        Seq::new((self.existentials + self.gates@.len()) as nat, |i: int| var_of(self.universals + i + 1))
    }

    /// The prefix shared by both encodings.
    pub open spec fn prefix(&self) -> Prefix {
        if self.universals == 0 {
            seq![(QuantTy::Exists, self.inner())]
        } else {
            seq![(QuantTy::Forall, self.outer()), (QuantTy::Exists, self.inner())]
        }
    }
}

/// An argument hands a polarity on to a variable, given those that its gate
/// is needed in.
spec fn hands(gate: Gate, i: int, number: int, positive: bool, p: bool, n: bool) -> bool {
    let a = gate.args()[i];
    &&& 0 <= i < gate.args().len()
    &&& magnitude(a) == number
    &&& match gate.op() {
        GateOp::Xor => p || n,
        _ => if (a > 0) == positive {
            p
        } else {
            n
        },
    }
}

impl Circuit {
    /// The output, or a gate from a number on, needs the polarity.
    spec fn asked(&self, index: int, positive: bool, from: int) -> bool {
        ||| magnitude(self.output) == self.gate_number(index) && (self.output > 0) == positive
        ||| exists|parent: int, i: int|
            from <= parent < self.gates@.len() && #[trigger] hands(
                self.gates@[parent],
                i,
                self.gate_number(index),
                positive,
                self.needs(parent, true),
                self.needs(parent, false),
            )
    }

    proof fn lemma_asked(&self, index: int, positive: bool)
        requires
            0 <= index < self.gates@.len(),
        ensures
            self.asked(index, positive, index + 1) == self.needs(index, positive),
    {
        if self.asked(index, positive, index + 1) && !(magnitude(self.output) == self.gate_number(index) && (self.output > 0) == positive) {
            let (parent, i) = choose|parent: int, i: int|
                index + 1 <= parent < self.gates@.len() && #[trigger] hands(
                    self.gates@[parent],
                    i,
                    self.gate_number(index),
                    positive,
                    self.needs(parent, true),
                    self.needs(parent, false),
                );
            assert(magnitude(self.gates@[parent].args()[i]) == self.gate_number(index));
        }
        if self.needs(index, positive) && !(magnitude(self.output) == self.gate_number(index) && (self.output > 0) == positive) {
            let (parent, i) = choose|parent: int, i: int|
                index < parent < self.gates@.len() && 0 <= i < self.gates@[parent].args().len() && #[trigger] magnitude(
                    self.gates@[parent].args()[i],
                ) == self.gate_number(index) && match self.gates@[parent].op() {
                    GateOp::Xor => self.needs(parent, true) || self.needs(parent, false),
                    _ => self.needs(parent, (self.gates@[parent].args()[i] > 0) == positive),
                };
            assert(hands(
                self.gates@[parent],
                i,
                self.gate_number(index),
                positive,
                self.needs(parent, true),
                self.needs(parent, false),
            ));
        }
    }

    proof fn lemma_asked_next(&self, index: int, positive: bool, k: int)
        requires
            0 <= k < self.gates@.len(),
        ensures
            self.asked(index, positive, k) <==> self.asked(index, positive, k + 1) || exists|i: int| #[trigger]
                hands(self.gates@[k], i, self.gate_number(index), positive, self.needs(k, true), self.needs(k, false)),
    {
        if self.asked(index, positive, k) && !(magnitude(self.output) == self.gate_number(index) && (self.output > 0) == positive) {
            let (parent, i) = choose|parent: int, i: int|
                k <= parent < self.gates@.len() && #[trigger] hands(
                    self.gates@[parent],
                    i,
                    self.gate_number(index),
                    positive,
                    self.needs(parent, true),
                    self.needs(parent, false),
                );
            if parent == k {
                assert(hands(self.gates@[k], i, self.gate_number(index), positive, self.needs(k, true), self.needs(k, false)));
            }
        }
    }

    /// The number of arguments of a gate.
    fn arity(&self, k: usize) -> (count: usize)
        requires
            k < self.gates@.len(),
        ensures
            count == self.gates@[k as int].args().len(),
    {
        match &self.gates[k] {
            Gate::And(args) => args.len(),
            Gate::Or(args) => args.len(),
            Gate::Xor(a, b) => 2,
        }
    }

    /// An argument of a gate.
    fn argument(&self, k: usize, i: usize) -> (a: i32)
        requires
            k < self.gates@.len(),
            i < self.gates@[k as int].args().len(),
        ensures
            a == self.gates@[k as int].args()[i as int],
    {
        match &self.gates[k] {
            Gate::And(args) => args[i],
            Gate::Or(args) => args[i],
            Gate::Xor(a, b) => if i == 0 {
                *a
            } else {
                *b
            },
        }
    }

    fn is_xor(&self, k: usize) -> (yes: bool)
        requires
            k < self.gates@.len(),
        ensures
            yes == (self.gates@[k as int].op() == GateOp::Xor),
    {
        match &self.gates[k] {
            Gate::Xor(a, b) => true,
            _ => false,
        }
    }

    /// The polarities that the output depends on.
    fn polarities(&self) -> (result: (Vec<bool>, Vec<bool>))
        requires
            self.wf(),
        ensures
            result.0@.len() == self.gates@.len(),
            result.1@.len() == self.gates@.len(),
            forall|k: int| 0 <= k < self.gates@.len() ==> #[trigger] result.0@[k] == self.needs(k, true),
            forall|k: int| 0 <= k < self.gates@.len() ==> #[trigger] result.1@[k] == self.needs(k, false),
    {
        let total = self.gates.len();
        let inputs = self.universals + self.existentials;
        let mut pos: Vec<bool> = Vec::new();
        let mut neg: Vec<bool> = Vec::new();
        let out: usize = if self.output > 0 {
            self.output as usize
        } else {
            (-self.output) as usize
        };
        let mut k: usize = 0;
        while k < total
            invariant
                k <= total,
                self.wf(),
                total == self.gates@.len(),
                inputs == self.inputs(),
                out == magnitude(self.output),
                pos@.len() == k,
                neg@.len() == k,
                forall|x: int| 0 <= x < k ==> (#[trigger] pos@[x] <==> self.asked(x, true, total as int)),
                forall|x: int| 0 <= x < k ==> (#[trigger] neg@[x] <==> self.asked(x, false, total as int)),
            decreases total - k,
        {
            pos.push(out == inputs + k + 1 && self.output > 0);
            neg.push(out == inputs + k + 1 && self.output < 0);
            k += 1;
        }
        let mut k: usize = total;
        while k > 0
            invariant
                k <= total,
                self.wf(),
                total == self.gates@.len(),
                inputs == self.inputs(),
                pos@.len() == total,
                neg@.len() == total,
                forall|x: int| 0 <= x < k ==> (#[trigger] pos@[x] <==> self.asked(x, true, k as int)),
                forall|x: int| 0 <= x < k ==> (#[trigger] neg@[x] <==> self.asked(x, false, k as int)),
                forall|x: int| k <= x < total ==> #[trigger] pos@[x] == self.needs(x, true),
                forall|x: int| k <= x < total ==> #[trigger] neg@[x] == self.needs(x, false),
            decreases k,
        {
            k -= 1;
            proof {
                self.lemma_asked(k as int, true);
                self.lemma_asked(k as int, false);
                assert(pos@[k as int] <==> self.asked(k as int, true, k + 1));
                assert(neg@[k as int] <==> self.asked(k as int, false, k + 1));
            }
            let p = pos[k];
            let n = neg[k];
            let xor = self.is_xor(k);
            let count = self.arity(k);
            let ghost gate = self.gates@[k as int];
            let ghost pos0 = pos@;
            let ghost neg0 = neg@;
            let mut j: usize = 0;
            while j < count
                invariant
                    j <= count,
                    k < total,
                    self.wf(),
                    total == self.gates@.len(),
                    inputs == self.inputs(),
                    gate == self.gates@[k as int],
                    count == gate.args().len(),
                    xor == (gate.op() == GateOp::Xor),
                    pos@.len() == total,
                    neg@.len() == total,
                    pos0.len() == total,
                    neg0.len() == total,
                    forall|x: int|
                        0 <= x < total ==> (#[trigger] pos@[x] <==> pos0[x] || exists|i: int|
                            i < j && #[trigger] hands(gate, i, self.gate_number(x), true, p, n)),
                    forall|x: int|
                        0 <= x < total ==> (#[trigger] neg@[x] <==> neg0[x] || exists|i: int|
                            i < j && #[trigger] hands(gate, i, self.gate_number(x), false, p, n)),
                decreases count - j,
            {
                let a = self.argument(k, j);
                assert(self.gates@[k as int].args()[j as int] != 0);
                let number: usize = if a > 0 {
                    a as usize
                } else {
                    (-a) as usize
                };
                let want_pos = if xor {
                    p || n
                } else if a > 0 {
                    p
                } else {
                    n
                };
                let want_neg = if xor {
                    p || n
                } else if a > 0 {
                    n
                } else {
                    p
                };
                let ghost pos1 = pos@;
                let ghost neg1 = neg@;
                if number > inputs {
                    let index = number - inputs - 1;
                    if want_pos {
                        pos.set(index, true);
                    }
                    if want_neg {
                        neg.set(index, true);
                    }
                }
                proof {
                    assert forall|x: int| 0 <= x < total implies (#[trigger] pos@[x] <==> pos0[x] || exists|i: int|
                        i < j + 1 && #[trigger] hands(gate, i, self.gate_number(x), true, p, n)) by {
                        assert(pos1[x] <==> pos0[x] || exists|i: int| i < j && #[trigger] hands(gate, i, self.gate_number(x), true, p, n));
                        assert(hands(gate, j as int, self.gate_number(x), true, p, n) <==> number == self.gate_number(x) && want_pos);
                    }
                    assert forall|x: int| 0 <= x < total implies (#[trigger] neg@[x] <==> neg0[x] || exists|i: int|
                        i < j + 1 && #[trigger] hands(gate, i, self.gate_number(x), false, p, n)) by {
                        assert(neg1[x] <==> neg0[x] || exists|i: int| i < j && #[trigger] hands(gate, i, self.gate_number(x), false, p, n));
                        assert(hands(gate, j as int, self.gate_number(x), false, p, n) <==> number == self.gate_number(x) && want_neg);
                    }
                }
                j += 1;
            }
            proof {
                assert forall|x: int| 0 <= x < k implies (#[trigger] pos@[x] <==> self.asked(x, true, k as int)) by {
                    self.lemma_asked_next(x, true, k as int);
                    assert(pos0[x] <==> self.asked(x, true, k + 1));
                }
                assert forall|x: int| 0 <= x < k implies (#[trigger] neg@[x] <==> self.asked(x, false, k as int)) by {
                    self.lemma_asked_next(x, false, k as int);
                    assert(neg0[x] <==> self.asked(x, false, k + 1));
                }
                assert forall|x: int| k <= x < total implies #[trigger] pos@[x] == self.needs(x, true) && neg@[x] == self.needs(x, false) by {
                    assert forall|i: int, positive: bool| !#[trigger] hands(gate, i, self.gate_number(x), positive, p, n) by {
                        if 0 <= i < gate.args().len() {
                            assert(magnitude(self.gates@[k as int].args()[i]) <= self.inputs() + k);
                        }
                    }
                    assert(neg@[x] <==> neg0[x]);
                }
            }
        }
        (pos, neg)
    }
}

proof fn lemma_signed(l: i32)
    requires
        l != 0,
        magnitude(l) <= WIRE_LIMIT,
    ensures
        signed(l).v() == var_of(magnitude(l)),
        signed(l).v().dimacs() == magnitude(l),
        signed(l).pos() == (l > 0),
{
    let n = magnitude(l);
    crate::literal::lemma_var_index(n - 1);
    crate::literal::lemma_lit_of(var_of(n), l > 0);
}

/// The literal with a signed number.
fn signed_lit(l: i32) -> (lit: Lit)
    requires
        l != 0,
        magnitude(l) <= WIRE_LIMIT,
    ensures
        lit == signed(l),
{
    let lit = Lit::from_dimacs(l);
    proof {
        lemma_signed(l);
        crate::literal::lemma_var_of(lit.v());
        crate::literal::lemma_lit_ext(lit, signed(l));
    }
    lit
}

/// Appends the clauses that a true gate needs.
fn push_positive(matrix: &mut Vec<Vec<Lit>>, op: GateOp, g: Lit, args: &Vec<Lit>)
    requires
        crate::qcir::read::proper_arity(op, args@.len()),
        op != GateOp::Ite,
    ensures
        matrix_of(final(matrix)@) == matrix_of(old(matrix)@) + positive_clauses(op, g, args@),
{
    let ghost start = matrix_of(matrix@);
    match op {
        GateOp::And => {
            let mut k: usize = 0;
            assert(matrix_of(matrix@) =~= start + Seq::new(0, |i: int| seq![g.neg(), args@[i]]));
            while k < args.len()
                invariant
                    k <= args.len(),
                    matrix_of(matrix@) == start + Seq::new(k as nat, |i: int| seq![g.neg(), args@[i]]),
                decreases args.len() - k,
            {
                let pair: Vec<Lit> = vec![g.negated(), args[k]];
                assert(pair@ =~= seq![g.neg(), args@[k as int]]);
                push_clause(matrix, pair);
                k += 1;
                assert(matrix_of(matrix@) =~= start + Seq::new(k as nat, |i: int| seq![g.neg(), args@[i]]));
            }
        },
        GateOp::Or => {
            let mut long: Vec<Lit> = vec![g.negated()];
            let mut k: usize = 0;
            assert(long@ =~= seq![g.neg()] + args@.take(0));
            while k < args.len()
                invariant
                    k <= args.len(),
                    long@ == seq![g.neg()] + args@.take(k as int),
                decreases args.len() - k,
            {
                long.push(args[k]);
                k += 1;
                assert(long@ =~= seq![g.neg()] + args@.take(k as int));
            }
            assert(args@.take(args@.len() as int) =~= args@);
            push_clause(matrix, long);
            assert(matrix_of(matrix@) =~= start + positive_clauses(op, g, args@));
        },
        _ => {
            let (a, b) = (args[0], args[1]);
            push_three(matrix, g.negated(), a, b);
            push_three(matrix, g.negated(), a.negated(), b.negated());
            assert(matrix_of(matrix@) =~= start + positive_clauses(op, g, args@));
        },
    }
}

/// Appends the clauses that a false gate needs.
fn push_negative(matrix: &mut Vec<Vec<Lit>>, op: GateOp, g: Lit, args: &Vec<Lit>)
    requires
        crate::qcir::read::proper_arity(op, args@.len()),
        op != GateOp::Ite,
    ensures
        matrix_of(final(matrix)@) == matrix_of(old(matrix)@) + negative_clauses(op, g, args@),
{
    let ghost start = matrix_of(matrix@);
    match op {
        GateOp::And => {
            let mut long: Vec<Lit> = vec![g];
            let mut k: usize = 0;
            assert(long@ =~= seq![g] + negations(args@.take(0)));
            while k < args.len()
                invariant
                    k <= args.len(),
                    long@ == seq![g] + negations(args@.take(k as int)),
                decreases args.len() - k,
            {
                long.push(args[k].negated());
                k += 1;
                assert(long@ =~= seq![g] + negations(args@.take(k as int)));
            }
            assert(args@.take(args@.len() as int) =~= args@);
            push_clause(matrix, long);
            assert(matrix_of(matrix@) =~= start + negative_clauses(op, g, args@));
        },
        GateOp::Or => {
            let mut k: usize = 0;
            assert(matrix_of(matrix@) =~= start + Seq::new(0, |i: int| seq![g, args@[i].neg()]));
            while k < args.len()
                invariant
                    k <= args.len(),
                    matrix_of(matrix@) == start + Seq::new(k as nat, |i: int| seq![g, args@[i].neg()]),
                decreases args.len() - k,
            {
                let pair: Vec<Lit> = vec![g, args[k].negated()];
                assert(pair@ =~= seq![g, args@[k as int].neg()]);
                push_clause(matrix, pair);
                k += 1;
                assert(matrix_of(matrix@) =~= start + Seq::new(k as nat, |i: int| seq![g, args@[i].neg()]));
            }
        },
        _ => {
            let (a, b) = (args[0], args[1]);
            push_three(matrix, g, a.negated(), b);
            push_three(matrix, g, a, b.negated());
            assert(matrix_of(matrix@) =~= start + negative_clauses(op, g, args@));
        },
    }
}

impl Circuit {
    /// The literal of a gate.
    fn gate_literal(&self, k: usize) -> (lit: Lit)
        requires
            self.wf(),
            k < self.gates@.len(),
        ensures
            lit == self.gate_lit(k as int),
    {
        let number = self.universals + self.existentials + k + 1;
        signed_lit(number as i32)
    }

    /// The operation and the arguments of a gate.
    fn gate_parts(&self, k: usize) -> (parts: (GateOp, Vec<Lit>))
        requires
            self.wf(),
            k < self.gates@.len(),
        ensures
            parts.0 == self.gates@[k as int].op(),
            parts.1@ == self.gates@[k as int].lits(),
            crate::qcir::read::proper_arity(parts.0, parts.1@.len()),
            parts.0 != GateOp::Ite,
    {
        let op = match &self.gates[k] {
            Gate::And(args) => GateOp::And,
            Gate::Or(args) => GateOp::Or,
            Gate::Xor(a, b) => GateOp::Xor,
        };
        let count = self.arity(k);
        let mut lits: Vec<Lit> = Vec::new();
        let mut i: usize = 0;
        while i < count
            invariant
                i <= count,
                self.wf(),
                k < self.gates@.len(),
                count == self.gates@[k as int].args().len(),
                lits@.len() == i,
                forall|j: int| 0 <= j < i ==> #[trigger] lits@[j] == signed(self.gates@[k as int].args()[j]),
            decreases count - i,
        {
            assert(self.gates@[k as int].args()[i as int] != 0);
            lits.push(signed_lit(self.argument(k, i)));
            i += 1;
        }
        assert(lits@ =~= self.gates@[k as int].lits());
        (op, lits)
    }

    /// The formula of clauses with the prefix of the circuit.
    fn build(&self, matrix: Vec<Vec<Lit>>) -> (qcnf: QCNF)
        requires
            self.wf(),
        ensures
            qcnf.blocks() == self.prefix(),
            qcnf.clauses() == matrix_of(matrix@).push(seq![signed(self.output)]),
    {
        let ghost given = matrix_of(matrix@);
        let mut matrix = matrix;
        let unit: Vec<Lit> = vec![signed_lit(self.output)];
        assert(unit@ =~= seq![signed(self.output)]);
        push_clause(&mut matrix, unit);
        let total = self.universals + self.existentials + self.gates.len();
        let mut outer: Vec<Var> = Vec::new();
        let mut inner: Vec<Var> = Vec::new();
        let mut k: usize = 0;
        while k < total
            invariant
                k <= total,
                self.wf(),
                total == self.inputs() + self.gates@.len(),
                outer@ == Seq::new(
                    (if k <= self.universals { k as int } else { self.universals as int }) as nat,
                    |i: int| var_of(i + 1),
                ),
                inner@ == Seq::new(
                    (if k <= self.universals { 0 } else { k - self.universals }) as nat,
                    |i: int| var_of(self.universals + i + 1),
                ),
            decreases total - k,
        {
            let x = Var::from_dimacs(k as i32 + 1);
            proof {
                crate::literal::lemma_var_of(x);
            }
            if k < self.universals {
                outer.push(x);
            } else {
                inner.push(x);
            }
            k += 1;
            proof {
                assert(outer@ =~= Seq::new(
                    (if k <= self.universals { k as int } else { self.universals as int }) as nat,
                    |i: int| var_of(i + 1),
                ));
                assert(inner@ =~= Seq::new(
                    (if k <= self.universals { 0 } else { k - self.universals }) as nat,
                    |i: int| var_of(self.universals + i + 1),
                ));
            }
        }
        proof {
            assert(outer@ =~= self.outer());
            assert(inner@ =~= self.inner());
        }
        let mut prefix: Vec<(QuantTy, Vec<Var>)> = Vec::new();
        if self.universals > 0 {
            prefix.push((QuantTy::Forall, outer));
        }
        prefix.push((QuantTy::Exists, inner));
        assert(prefix_of(prefix@) =~= self.prefix());
        QCNF { prefix, matrix }
    }

    /// Two-sided clauses: every gate is fully defined.
    pub fn to_two_sided(&self) -> (qcnf: QCNF)
        requires
            self.wf(),
        ensures
            qcnf.blocks() == self.prefix(),
            qcnf.clauses() == self.two_sided(),
    {
        let mut matrix: Vec<Vec<Lit>> = Vec::new();
        let mut k: usize = 0;
        assert(matrix_of(matrix@) =~= self.defined_gates(0));
        while k < self.gates.len()
            invariant
                k <= self.gates.len(),
                self.wf(),
                matrix_of(matrix@) == self.defined_gates(k as int),
            decreases self.gates.len() - k,
        {
            let g = self.gate_literal(k);
            let (op, args) = self.gate_parts(k);
            push_gate(&mut matrix, op, g, &args);
            k += 1;
        }
        self.build(matrix)
    }

    /// One-sided clauses: each gate keeps only the implication directions
    /// its polarities require, computed by polarity propagation from the
    /// output.
    pub fn to_plaisted_greenbaum(&self) -> (qcnf: QCNF)
        requires
            self.wf(),
        ensures
            qcnf.blocks() == self.prefix(),
            qcnf.clauses() == self.one_sided(),
    {
        let (pos, neg) = self.polarities();
        let mut matrix: Vec<Vec<Lit>> = Vec::new();
        let mut k: usize = 0;
        assert(matrix_of(matrix@) =~= self.kept_gates(0));
        while k < self.gates.len()
            invariant
                k <= self.gates.len(),
                self.wf(),
                pos@.len() == self.gates@.len(),
                neg@.len() == self.gates@.len(),
                forall|k: int| 0 <= k < self.gates@.len() ==> #[trigger] pos@[k] == self.needs(k, true),
                forall|k: int| 0 <= k < self.gates@.len() ==> #[trigger] neg@[k] == self.needs(k, false),
                matrix_of(matrix@) == self.kept_gates(k as int),
            decreases self.gates.len() - k,
        {
            let ghost start = matrix_of(matrix@);
            let g = self.gate_literal(k);
            let (op, args) = self.gate_parts(k);
            if pos[k] {
                push_positive(&mut matrix, op, g, &args);
            }
            let ghost middle = matrix_of(matrix@);
            if neg[k] {
                push_negative(&mut matrix, op, g, &args);
            }
            k += 1;
            assert(matrix_of(matrix@) =~= self.kept_gates(k as int));
        }
        self.build(matrix)
    }
}

/// The clauses of one direction say that a true gate has a true value.
pub proof fn law_positive_clauses(op: GateOp, g: Lit, args: Seq<Lit>, a: Assignment)
    requires
        crate::qcir::read::proper_arity(op, args.len()),
        op != GateOp::Ite,
    ensures
        matrix_true(a, positive_clauses(op, g, args)) == (lit_true(a, g) ==> gate_value(op, args, a)),
{
    let m = positive_clauses(op, g, args);
    match op {
        GateOp::And => {
            assert forall|i: int| 0 <= i < args.len() implies clause_true(a, #[trigger] m[i]) == (!lit_true(a, g) || lit_true(a, args[i])) by {
                crate::aiger::qaiger::lemma_pair(a, g.neg(), args[i]);
            }
            if matrix_true(a, m) && lit_true(a, g) {
                assert forall|i: int| 0 <= i < args.len() implies lit_true(a, #[trigger] args[i]) by {
                    assert(clause_true(a, m[i]));
                }
            }
            if lit_true(a, g) ==> cube_true(a, args) {
                assert forall|i: int| 0 <= i < m.len() implies clause_true(a, #[trigger] m[i]) by {}
            }
        },
        GateOp::Or => {
            lemma_long(a, g.neg(), args);
            assert(m[0] == seq![g.neg()] + args);
            if matrix_true(a, m) {
                assert(clause_true(a, m[0]));
            }
        },
        _ => {
            crate::aiger::qaiger::lemma_triple(a, g.neg(), args[0], args[1]);
            crate::aiger::qaiger::lemma_triple(a, g.neg(), args[0].neg(), args[1].neg());
            assert(m[0] == seq![g.neg(), args[0], args[1]] && m[1] == seq![g.neg(), args[0].neg(), args[1].neg()]);
            if matrix_true(a, m) {
                assert(clause_true(a, m[0]) && clause_true(a, m[1]));
            }
            if clause_true(a, m[0]) && clause_true(a, m[1]) {
                assert forall|i: int| 0 <= i < m.len() implies clause_true(a, #[trigger] m[i]) by {
                    assert(i == 0 || i == 1);
                }
            }
        },
    }
}

/// The clauses of the other direction say that a true value makes it
/// true.
pub proof fn law_negative_clauses(op: GateOp, g: Lit, args: Seq<Lit>, a: Assignment)
    requires
        crate::qcir::read::proper_arity(op, args.len()),
        op != GateOp::Ite,
    ensures
        matrix_true(a, negative_clauses(op, g, args)) == (gate_value(op, args, a) ==> lit_true(a, g)),
{
    let m = negative_clauses(op, g, args);
    match op {
        GateOp::And => {
            lemma_long(a, g, negations(args));
            lemma_negations(a, args);
            assert(m[0] == seq![g] + negations(args));
            if matrix_true(a, m) {
                assert(clause_true(a, m[0]));
            }
        },
        GateOp::Or => {
            assert forall|i: int| 0 <= i < args.len() implies clause_true(a, #[trigger] m[i]) == (lit_true(a, g) || !lit_true(a, args[i])) by {
                crate::aiger::qaiger::lemma_pair(a, g, args[i].neg());
            }
            if matrix_true(a, m) && clause_true(a, args) {
                let i = choose|i: int| 0 <= i < args.len() && lit_true(a, #[trigger] args[i]);
                assert(clause_true(a, m[i]));
            }
            if clause_true(a, args) ==> lit_true(a, g) {
                assert forall|i: int| 0 <= i < m.len() implies clause_true(a, #[trigger] m[i]) by {
                    if lit_true(a, args[i]) {
                        assert(clause_true(a, args));
                    }
                }
            }
        },
        _ => {
            crate::aiger::qaiger::lemma_triple(a, g, args[0].neg(), args[1]);
            crate::aiger::qaiger::lemma_triple(a, g, args[0], args[1].neg());
            assert(m[0] == seq![g, args[0].neg(), args[1]] && m[1] == seq![g, args[0], args[1].neg()]);
            if matrix_true(a, m) {
                assert(clause_true(a, m[0]) && clause_true(a, m[1]));
            }
            if clause_true(a, m[0]) && clause_true(a, m[1]) {
                assert forall|i: int| 0 <= i < m.len() implies clause_true(a, #[trigger] m[i]) by {
                    assert(i == 0 || i == 1);
                }
            }
        },
    }
}

impl Circuit {
    /// A gate has its value.
    pub open spec fn gate_holds(&self, k: int, a: Assignment) -> bool {
        lit_true(a, self.gate_lit(k)) == gate_value(self.gates@[k].op(), self.gates@[k].lits(), a)
    }

    /// Every gate has its value.
    pub open spec fn settled(&self, a: Assignment) -> bool {
        forall|k: int| 0 <= k < self.gates@.len() ==> #[trigger] self.gate_holds(k, a)
    }

    /// The output holds once the gates are evaluated.
    pub open spec fn output_holds(&self, a: Assignment) -> bool {
        lit_true(self.run(a, self.gates@.len() as int), signed(self.output))
    }

    /// The existential inputs.
    pub open spec fn choices(&self) -> Seq<Var> {
        Seq::new(self.existentials as nat, |i: int| var_of(self.universals + i + 1))
    }

    /// Some existential inputs make the output true.
    pub open spec fn answerable(&self, a: Assignment) -> bool {
        exists|b: Assignment| #[trigger] agree_off(a, b, self.choices()) && self.output_holds(b)
    }

    /// Whatever the universal inputs are, some existential inputs make the
    /// output true.
    pub open spec fn always_answerable(&self, a: Assignment) -> bool {
        forall|b: Assignment| #[trigger] agree_off(a, b, self.outer()) ==> self.answerable(b)
    }

    /// The kept directions of a gate hold.
    spec fn kept_hold(&self, k: int, a: Assignment) -> bool {
        let value = gate_value(self.gates@[k].op(), self.gates@[k].lits(), a);
        &&& self.needs(k, true) && lit_true(a, self.gate_lit(k)) ==> value
        &&& self.needs(k, false) && value ==> lit_true(a, self.gate_lit(k))
    }

    proof fn lemma_defined_gates(&self, count: int, a: Assignment)
        requires
            0 <= count <= self.gates@.len(),
        ensures
            matrix_true(a, self.defined_gates(count)) <==> forall|k: int| 0 <= k < count ==> #[trigger] self.gate_holds(k, a),
        decreases count,
    {
        if count > 0 {
            let k = count - 1;
            self.lemma_defined_gates(k, a);
            let m = gate_clauses(self.gates@[k].op(), self.gate_lit(k), self.gates@[k].lits());
            lemma_concat_true(a, self.defined_gates(k), m);
            law_gate_clauses_are_the_gate(self.gates@[k].op(), self.gate_lit(k), self.gates@[k].lits(), a);
            if forall|j: int| 0 <= j < count ==> #[trigger] self.gate_holds(j, a) {
                assert(self.gate_holds(k, a));
            }
        }
    }

    proof fn lemma_kept_gates(&self, count: int, a: Assignment)
        requires
            0 <= count <= self.gates@.len(),
        ensures
            matrix_true(a, self.kept_gates(count)) <==> forall|k: int| 0 <= k < count ==> #[trigger] self.kept_hold(k, a),
        decreases count,
    {
        if count > 0 {
            let k = count - 1;
            self.lemma_kept_gates(k, a);
            let op = self.gates@[k].op();
            let g = self.gate_lit(k);
            let args = self.gates@[k].lits();
            let first = if self.needs(k, true) {
                positive_clauses(op, g, args)
            } else {
                Seq::empty()
            };
            let second = if self.needs(k, false) {
                negative_clauses(op, g, args)
            } else {
                Seq::empty()
            };
            lemma_concat_true(a, self.kept_gates(k), first + second);
            lemma_concat_true(a, first, second);
            law_positive_clauses(op, g, args, a);
            law_negative_clauses(op, g, args, a);
            if forall|j: int| 0 <= j < count ==> #[trigger] self.kept_hold(j, a) {
                assert(self.kept_hold(k, a));
            }
        }
    }

    /// The assignment with the first gates evaluated.
    pub open spec fn run(&self, a: Assignment, count: int) -> Assignment
        decreases count,
    {
        if count <= 0 {
            a
        } else {
            let b = self.run(a, count - 1);
            set_var(
                b,
                var_of(self.gate_number(count - 1)),
                gate_value(self.gates@[count - 1].op(), self.gates@[count - 1].lits(), b),
            )
        }
    }

    proof fn lemma_arg(&self, k: int, i: int)
        requires
            self.wf(),
            0 <= k < self.gates@.len(),
            0 <= i < self.gates@[k].args().len(),
        ensures
            self.gates@[k].lits()[i].v().dimacs() == magnitude(self.gates@[k].args()[i]),
            self.gates@[k].lits()[i].v().dimacs() <= self.inputs() + k,
            self.gates@[k].lits()[i].pos() == (self.gates@[k].args()[i] > 0),
    {
        assert(self.gates@[k].args()[i] != 0);
        lemma_signed(self.gates@[k].args()[i]);
    }

    proof fn lemma_gate_var(&self, k: int)
        requires
            self.wf(),
            0 <= k < self.gates@.len(),
        ensures
            var_of(self.gate_number(k)).dimacs() == self.gate_number(k),
            self.gate_lit(k).v() == var_of(self.gate_number(k)),
            self.gate_lit(k).pos(),
    {
        crate::literal::lemma_var_index(self.gate_number(k) - 1);
        crate::literal::lemma_lit_of(var_of(self.gate_number(k)), true);
    }

    /// The value of a gate depends on the variables before it.
    proof fn lemma_value_before(&self, k: int, a: Assignment, b: Assignment)
        requires
            self.wf(),
            0 <= k < self.gates@.len(),
            forall|x: Var| x.dimacs() <= self.inputs() + k ==> #[trigger] a(x) == b(x),
        ensures
            gate_value(self.gates@[k].op(), self.gates@[k].lits(), a) == gate_value(self.gates@[k].op(), self.gates@[k].lits(), b),
    {
        let lits = self.gates@[k].lits();
        assert forall|i: int| 0 <= i < lits.len() implies lit_true(a, #[trigger] lits[i]) == lit_true(b, lits[i]) by {
            self.lemma_arg(k, i);
        }
        if clause_true(a, lits) {
            let i = choose|i: int| 0 <= i < lits.len() && lit_true(a, #[trigger] lits[i]);
            assert(lit_true(b, lits[i]));
        }
        if clause_true(b, lits) {
            let i = choose|i: int| 0 <= i < lits.len() && lit_true(b, #[trigger] lits[i]);
            assert(lit_true(a, lits[i]));
        }
        match self.gates@[k] {
            Gate::Xor(x, y) => {
                assert(lits.len() == 2);
                assert(lit_true(a, lits[0]) == lit_true(b, lits[0]));
                assert(lit_true(a, lits[1]) == lit_true(b, lits[1]));
            },
            _ => {},
        }
    }

    /// Evaluated gates hold, and evaluation changes gates only.
    proof fn lemma_run(&self, a: Assignment, count: int)
        requires
            self.wf(),
            0 <= count <= self.gates@.len(),
        ensures
            forall|k: int| 0 <= k < count ==> #[trigger] self.gate_holds(k, self.run(a, count)),
            forall|x: Var| x.dimacs() <= self.inputs() || x.dimacs() > self.inputs() + count ==> #[trigger] self.run(a, count)(x) == a(x),
        decreases count,
    {
        if count > 0 {
            let last = count - 1;
            self.lemma_run(a, last);
            let b = self.run(a, last);
            let c = self.run(a, count);
            self.lemma_gate_var(last);
            assert forall|k: int| 0 <= k < count implies #[trigger] self.gate_holds(k, c) by {
                self.lemma_gate_var(k);
                assert forall|x: Var| x.dimacs() <= self.inputs() + k implies #[trigger] b(x) == c(x) by {}
                self.lemma_value_before(k, b, c);
                if k < last {
                    assert(self.gate_holds(k, b));
                }
            }
        }
    }

    /// A literal that the output needs stays true when the gates are
    /// evaluated.
    proof fn lemma_needed_lit(&self, k: int, i: int, a: Assignment, b: Assignment, flip: bool)
        requires
            self.wf(),
            0 <= k < self.gates@.len(),
            0 <= i < self.gates@[k].args().len(),
            forall|x: Var| x.dimacs() <= self.inputs() ==> #[trigger] b(x) == a(x),
            forall|j: int| 0 <= j < k ==> #[trigger] self.kept_up(j, a, b),
            match self.gates@[k].op() {
                GateOp::Xor => self.needs(k, true) || self.needs(k, false),
                _ => self.needs(k, !flip),
            },
        ensures
            lit_true(a, self.gates@[k].lits()[i]) == !flip ==> lit_true(b, self.gates@[k].lits()[i]) == !flip,
    {
        let arg = self.gates@[k].args()[i];
        let l = self.gates@[k].lits()[i];
        self.lemma_arg(k, i);
        if magnitude(arg) > self.inputs() {
            let j = magnitude(arg) - self.inputs() - 1;
            let positive = (arg > 0) == !flip;
            self.lemma_gate_var(j);
            crate::literal::lemma_var_of(l.v());
            assert(magnitude(self.gates@[k].args()[i]) == self.gate_number(j));
            assert(self.needs(j, positive));
            assert(self.kept_up(j, a, b));
        }
    }

    /// The needed polarities of a gate survive evaluation.
    spec fn kept_up(&self, j: int, a: Assignment, b: Assignment) -> bool {
        let g = self.gate_lit(j);
        &&& self.needs(j, true) && lit_true(a, g) ==> lit_true(b, g)
        &&& self.needs(j, false) && !lit_true(a, g) ==> !lit_true(b, g)
    }

    proof fn lemma_kept_up(&self, k: int, a: Assignment, b: Assignment)
        requires
            self.wf(),
            0 <= k < self.gates@.len(),
            forall|j: int| 0 <= j < self.gates@.len() ==> #[trigger] self.kept_hold(j, a),
            forall|j: int| 0 <= j < self.gates@.len() ==> #[trigger] self.gate_holds(j, b),
            forall|x: Var| x.dimacs() <= self.inputs() ==> #[trigger] b(x) == a(x),
        ensures
            forall|j: int| 0 <= j <= k ==> #[trigger] self.kept_up(j, a, b),
        decreases k,
    {
        if k > 0 {
            self.lemma_kept_up(k - 1, a, b);
        }
        let lits = self.gates@[k].lits();
        assert(self.kept_hold(k, a));
        assert(self.gate_holds(k, b));
        let va = gate_value(self.gates@[k].op(), lits, a);
        let vb = gate_value(self.gates@[k].op(), lits, b);
        match self.gates@[k].op() {
            GateOp::Xor => {
                if self.needs(k, true) || self.needs(k, false) {
                    self.lemma_needed_lit(k, 0, a, b, false);
                    self.lemma_needed_lit(k, 0, a, b, true);
                    self.lemma_needed_lit(k, 1, a, b, false);
                    self.lemma_needed_lit(k, 1, a, b, true);
                    assert(va == vb);
                }
            },
            _ => {
                if self.needs(k, true) && va {
                    assert forall|i: int| 0 <= i < lits.len() && lit_true(a, #[trigger] lits[i]) implies lit_true(b, lits[i]) by {
                        self.lemma_needed_lit(k, i, a, b, false);
                    }
                    if clause_true(a, lits) {
                        let i = choose|i: int| 0 <= i < lits.len() && lit_true(a, #[trigger] lits[i]);
                        assert(lit_true(b, lits[i]));
                    }
                    assert(vb);
                }
                if self.needs(k, false) && !va {
                    assert forall|i: int| 0 <= i < lits.len() && !lit_true(a, #[trigger] lits[i]) implies !lit_true(b, lits[i]) by {
                        self.lemma_needed_lit(k, i, a, b, true);
                    }
                    if !cube_true(a, lits) {
                        let i = choose|i: int| 0 <= i < lits.len() && !lit_true(a, #[trigger] lits[i]);
                        assert(!lit_true(b, lits[i]));
                    }
                    if clause_true(b, lits) {
                        let i = choose|i: int| 0 <= i < lits.len() && lit_true(b, #[trigger] lits[i]);
                        assert(lit_true(a, lits[i]));
                    }
                    assert(!vb);
                }
            },
        }
    }

    /// What satisfies the two-sided clauses satisfies the one-sided ones.
    proof fn lemma_weaker(&self, a: Assignment)
        requires
            self.wf(),
            matrix_true(a, self.two_sided()),
        ensures
            matrix_true(a, self.one_sided()),
    {
        let n = self.gates@.len() as int;
        let out = seq![signed(self.output)];
        crate::simplify::lemma_push_true(a, self.defined_gates(n), out);
        crate::simplify::lemma_push_true(a, self.kept_gates(n), out);
        self.lemma_defined_gates(n, a);
        self.lemma_kept_gates(n, a);
        assert forall|k: int| 0 <= k < n implies #[trigger] self.kept_hold(k, a) by {
            assert(self.gate_holds(k, a));
        }
    }

    /// Evaluating the gates makes one-sided satisfaction two-sided.
    proof fn lemma_stronger(&self, a: Assignment)
        requires
            self.wf(),
            matrix_true(a, self.one_sided()),
        ensures
            matrix_true(self.run(a, self.gates@.len() as int), self.two_sided()),
    {
        let n = self.gates@.len() as int;
        let out = seq![signed(self.output)];
        let b = self.run(a, n);
        crate::simplify::lemma_push_true(a, self.kept_gates(n), out);
        crate::simplify::lemma_push_true(b, self.defined_gates(n), out);
        self.lemma_kept_gates(n, a);
        self.lemma_defined_gates(n, b);
        self.lemma_run(a, n);
        let l = signed(self.output);
        lemma_signed(self.output);
        crate::aiger::qaiger::lemma_unit(a, l);
        crate::aiger::qaiger::lemma_unit(b, l);
        if magnitude(self.output) > self.inputs() {
            let j = magnitude(self.output) - self.inputs() - 1;
            self.lemma_kept_up(j, a, b);
            self.lemma_gate_var(j);
            assert(self.needs(j, self.output > 0));
            assert(self.kept_up(j, a, b));
        }
    }

    /// Evaluated gates are those of every assignment whose gates have
    /// their values.
    proof fn lemma_settled_run(&self, a: Assignment, b: Assignment, count: int)
        requires
            self.wf(),
            0 <= count <= self.gates@.len(),
            forall|k: int| 0 <= k < count ==> #[trigger] self.gate_holds(k, b),
            forall|x: Var| x.dimacs() <= self.inputs() ==> #[trigger] a(x) == b(x),
        ensures
            forall|x: Var| x.dimacs() <= self.inputs() + count ==> #[trigger] self.run(a, count)(x) == b(x),
        decreases count,
    {
        if count > 0 {
            let last = count - 1;
            self.lemma_settled_run(a, b, last);
            let c = self.run(a, last);
            self.lemma_gate_var(last);
            assert(self.gate_holds(last, b));
            self.lemma_value_before(last, c, b);
            assert forall|x: Var| x.dimacs() <= self.inputs() + count implies #[trigger] self.run(a, count)(x) == b(x) by {
                crate::literal::lemma_var_of(x);
                if x.dimacs() <= self.inputs() + last {
                    assert(c(x) == b(x));
                }
            }
        }
    }

    /// The two-sided clauses hold where every gate has its value and the
    /// output is true.
    pub(crate) proof fn lemma_two_sided(&self, a: Assignment)
        requires
            self.wf(),
        ensures
            matrix_true(a, self.two_sided()) == (self.settled(a) && lit_true(a, signed(self.output))),
    {
        let n = self.gates@.len() as int;
        let m = self.defined_gates(n);
        let unit = seq![signed(self.output)];
        self.lemma_defined_gates(n, a);
        let all = self.two_sided();
        assert(all =~= m + seq![unit]);
        lemma_concat_true(a, m, seq![unit]);
        assert(unit[0] == signed(self.output));
        assert(clause_true(a, unit) == lit_true(a, signed(self.output)));
        assert(seq![unit][0] == unit);
        assert(matrix_true(a, seq![unit]) == clause_true(a, unit));
    }

    /// The formula of a circuit asks whether some existential inputs make
    /// the output true whatever the universal inputs are.
    pub proof fn law_formula_is_the_circuit_question(&self)
        requires
            self.wf(),
        ensures
            formula_true(self.prefix(), self.two_sided()) == exists|a: Assignment| #[trigger] self.always_answerable(a),
    {
        let two = self.two_sided();
        let n = self.gates@.len() as int;
        let none: Prefix = Seq::empty();
        let inner = with_block(QuantTy::Exists, self.inner(), none);
        assert forall|a: Assignment| #[trigger] qbf(inner, two, a) == self.answerable(a) by {
            lemma_exists_block(self.inner(), none, two, a);
            if qbf(inner, two, a) {
                let b = choose|b: Assignment| #[trigger] agree_off(a, b, self.inner()) && qbf(none, two, b);
                self.lemma_two_sided(b);
                let c: Assignment = |x: Var|
                    if x.dimacs() <= self.inputs() {
                        b(x)
                    } else {
                        a(x)
                    };
                assert forall|x: Var| !self.choices().contains(x) implies a(x) == #[trigger] c(x) by {
                    crate::literal::lemma_var_of(x);
                    if self.universals < x.dimacs() <= self.inputs() {
                        assert(self.choices()[x.dimacs() - self.universals - 1] == x);
                    } else if x.dimacs() <= self.universals {
                        self.lemma_not_inner(x);
                        assert(a(x) == b(x));
                    }
                }
                assert(agree_off(a, c, self.choices()));
                self.lemma_settled_run(c, b, n);
                lemma_signed(self.output);
                assert(self.run(c, n)(signed(self.output).v()) == b(signed(self.output).v()));
                assert(self.output_holds(c));
            }
            if self.answerable(a) {
                let b = choose|b: Assignment| #[trigger] agree_off(a, b, self.choices()) && self.output_holds(b);
                let d = self.run(b, n);
                self.lemma_run(b, n);
                self.lemma_two_sided(d);
                assert forall|x: Var| !self.inner().contains(x) implies a(x) == #[trigger] d(x) by {
                    crate::literal::lemma_var_of(x);
                    if self.universals < x.dimacs() <= self.inputs() + n {
                        assert(self.inner()[x.dimacs() - self.universals - 1] == x);
                    }
                    if self.choices().contains(x) {
                        let i = choose|i: int| 0 <= i < self.choices().len() && self.choices()[i] == x;
                        assert(self.inner()[i] == x);
                    }
                    assert(a(x) == b(x));
                }
                assert(agree_off(a, d, self.inner()));
                assert(qbf(none, two, d));
            }
        }
        let p = self.prefix();
        assert forall|a: Assignment| #[trigger] qbf(p, two, a) == self.always_answerable(a) by {
            if self.universals == 0 {
                assert(p =~= inner);
                let empty = Seq::<Var>::empty();
                assert(self.outer() =~= empty);
                assert(agree_off(a, a, empty));
                assert forall|b: Assignment| #[trigger] agree_off(a, b, self.outer()) implies b == a by {
                    assert forall|x: Var| a(x) == #[trigger] b(x) by {
                        assert(!empty.contains(x));
                    }
                    assert(b =~= a);
                }
            } else {
                assert(p =~= with_block(QuantTy::Forall, self.outer(), inner));
                lemma_forall_block(self.outer(), inner, two, a);
                if qbf(p, two, a) {
                    assert forall|b: Assignment| #[trigger] agree_off(a, b, self.outer()) implies self.answerable(b) by {
                        assert(qbf(inner, two, b));
                    }
                }
                if self.always_answerable(a) {
                    assert forall|b: Assignment| #[trigger] agree_off(a, b, self.outer()) implies qbf(inner, two, b) by {
                        assert(self.answerable(b));
                    }
                }
            }
        }
        if formula_true(p, two) {
            let a = choose|a: Assignment| #[trigger] qbf(p, two, a);
            assert(self.always_answerable(a));
        }
        if exists|a: Assignment| #[trigger] self.always_answerable(a) {
            let a = choose|a: Assignment| #[trigger] self.always_answerable(a);
            assert(qbf(p, two, a));
        }
    }

    /// Universal inputs are outside the inner block.
    proof fn lemma_not_inner(&self, x: Var)
        requires
            self.wf(),
            x.dimacs() <= self.universals,
        ensures
            !self.inner().contains(x),
    {
        if self.inner().contains(x) {
            let i = choose|i: int| 0 <= i < self.inner().len() && self.inner()[i] == x;
            crate::literal::lemma_var_index(self.universals + i);
        }
    }

    /// Both encodings of a circuit have the same verdict.
    pub proof fn law_encodings_agree(&self)
        requires
            self.wf(),
        ensures
            formula_true(self.prefix(), self.two_sided()) == formula_true(self.prefix(), self.one_sided()),
    {
        let two = self.two_sided();
        let one = self.one_sided();
        let none: Prefix = Seq::empty();
        let inner = with_block(QuantTy::Exists, self.inner(), none);
        assert forall|a: Assignment| #[trigger] qbf(inner, two, a) == qbf(inner, one, a) by {
            lemma_exists_block(self.inner(), none, two, a);
            lemma_exists_block(self.inner(), none, one, a);
            if qbf(inner, two, a) {
                let b = choose|b: Assignment| #[trigger] agree_off(a, b, self.inner()) && qbf(none, two, b);
                self.lemma_weaker(b);
                assert(qbf(none, one, b));
            }
            if qbf(inner, one, a) {
                let b = choose|b: Assignment| #[trigger] agree_off(a, b, self.inner()) && qbf(none, one, b);
                self.lemma_stronger(b);
                let n = self.gates@.len() as int;
                let d = self.run(b, n);
                self.lemma_run(b, n);
                assert forall|x: Var| !self.inner().contains(x) implies #[trigger] a(x) == d(x) by {
                    assert(a(x) == b(x));
                    crate::literal::lemma_var_of(x);
                    if self.inputs() < x.dimacs() <= self.inputs() + n {
                        assert(self.inner()[x.dimacs() - self.universals - 1] == x);
                    }
                }
                assert(agree_off(a, d, self.inner()));
                assert(qbf(none, two, d));
            }
        }
        let p = self.prefix();
        assert forall|a: Assignment| #[trigger] qbf(p, two, a) == qbf(p, one, a) by {
            if self.universals == 0 {
                assert(p =~= inner);
            } else {
                assert(p =~= with_block(QuantTy::Forall, self.outer(), inner));
                lemma_forall_block(self.outer(), inner, two, a);
                lemma_forall_block(self.outer(), inner, one, a);
                if qbf(p, two, a) {
                    assert forall|b: Assignment| #[trigger] agree_off(a, b, self.outer()) implies qbf(inner, one, b) by {
                        assert(qbf(inner, two, b));
                    }
                }
                if qbf(p, one, a) {
                    assert forall|b: Assignment| #[trigger] agree_off(a, b, self.outer()) implies qbf(inner, two, b) by {
                        assert(qbf(inner, one, b));
                    }
                }
            }
        }
        if formula_true(p, two) {
            let a = choose|a: Assignment| #[trigger] qbf(p, two, a);
            assert(qbf(p, one, a));
        }
        if formula_true(p, one) {
            let a = choose|a: Assignment| #[trigger] qbf(p, one, a);
            assert(qbf(p, two, a));
        }
    }
}

/// A signed number as an identifier.
pub open spec fn lit_name(l: int) -> Seq<char> {
    if l < 0 {
        "-v"@ + decimal((-l) as nat)
    } else {
        "v"@ + decimal(l as nat)
    }
}

/// The names of numbers, separated by commas.
pub open spec fn name_list(numbers: Seq<int>) -> Seq<char>
    decreases numbers.len(),
{
    if numbers.len() == 0 {
        Seq::empty()
    } else if numbers.len() == 1 {
        lit_name(numbers[0])
    } else {
        name_list(numbers.drop_last()) + ", "@ + lit_name(numbers.last())
    }
}

/// Consecutive numbers.
pub open spec fn numbers_from(from: int, count: nat) -> Seq<int> {
    Seq::new(count, |i: int| from + i)
}

/// The word of an operation.
pub open spec fn op_name(op: GateOp) -> Seq<char> {
    match op {
        GateOp::And => "and"@,
        GateOp::Or => "or"@,
        GateOp::Xor => "xor"@,
        GateOp::Ite => "ite"@,
    }
}

impl Gate {
    /// The arguments as numbers.
    pub open spec fn numbers(self) -> Seq<int> {
        Seq::new(self.args().len(), |i: int| self.args()[i] as int)
    }
}

impl Circuit {
    /// The lines of the first gates.
    pub open spec fn gate_lines(&self, count: int) -> Seq<char>
        decreases count,
    {
        if count <= 0 {
            Seq::empty()
        } else {
            self.gate_lines(count - 1) + self.gate_line(count - 1)
        }
    }

    /// The line of a gate.
    pub open spec fn gate_line(&self, k: int) -> Seq<char> {
        lit_name(self.gate_number(k)) + (" = "@ + (op_name(self.gates@[k].op()) + ("("@ + (name_list(self.gates@[k].numbers()) + ")\n"@))))
    }

    /// The line of a block, if it binds a variable.
    pub open spec fn block_line(word: Seq<char>, from: int, count: nat) -> Seq<char> {
        if count == 0 {
            Seq::empty()
        } else {
            word + "("@ + name_list(numbers_from(from, count)) + ")\n"@
        }
    }

    /// The circuit as text.
    pub open spec fn qcir_text(&self) -> Seq<char> {
        "#QCIR-G14\n"@ + Circuit::block_line("forall"@, 1, self.universals as nat) + Circuit::block_line(
            "exists"@,
            self.universals + 1,
            self.existentials as nat,
        ) + "output("@ + lit_name(self.output as int) + ")\n"@ + self.gate_lines(self.gates@.len() as int)
    }
}

/// Appends the name of a signed number.
fn push_name(out: &mut String, l: i64)
    requires
        l > i64::MIN,
    ensures
        final(out)@ == old(out)@ + lit_name(l as int),
{
    let ghost start = out@;
    if l < 0 {
        out.append("-v");
        push_decimal(out, (-l) as u64);
    } else {
        out.append("v");
        push_decimal(out, l as u64);
    }
    assert(out@ =~= start + lit_name(l as int));
}

/// Appends names, separated by commas.
fn push_names(out: &mut String, numbers: &Vec<i64>)
    requires
        forall|i: int| 0 <= i < numbers@.len() ==> #[trigger] numbers@[i] > i64::MIN,
    ensures
        final(out)@ == old(out)@ + name_list(Seq::new(numbers@.len(), |i: int| numbers@[i] as int)),
{
    let ghost start = out@;
    let ghost all = Seq::new(numbers@.len(), |i: int| numbers@[i] as int);
    let mut k: usize = 0;
    proof {
        assert(all.take(0) =~= Seq::<int>::empty());
        assert(start + name_list(all.take(0)) =~= start);
    }
    while k < numbers.len()
        invariant
            k <= numbers.len(),
            all == Seq::new(numbers@.len(), |i: int| numbers@[i] as int),
            forall|i: int| 0 <= i < numbers@.len() ==> #[trigger] numbers@[i] > i64::MIN,
            out@ == start + name_list(all.take(k as int)),
        decreases numbers.len() - k,
    {
        let ghost before = all.take(k as int);
        if k > 0 {
            out.append(", ");
        }
        push_name(out, numbers[k]);
        k += 1;
        proof {
            let now = all.take(k as int);
            assert(now.drop_last() =~= before);
            assert(now.last() == all[k - 1]);
            if k == 1 {
                assert(now[0] == all[0]);
                assert(name_list(before) =~= Seq::<char>::empty());
            }
            assert(out@ =~= start + name_list(now));
        }
    }
    assert(all.take(all.len() as int) =~= all);
}

impl Circuit {
    /// The circuit as QCIR text (named identifiers keep the numbering).
    pub fn to_qcir(&self) -> (text: String)
        requires
            self.wf(),
        ensures
            text@ == self.qcir_text(),
    {
        let mut text = String::new();
        text.append("#QCIR-G14\n");
        self.push_block(&mut text, "forall", 1, self.universals);
        self.push_block(&mut text, "exists", self.universals + 1, self.existentials);
        text.append("output(");
        push_name(&mut text, self.output as i64);
        text.append(")\n");
        let ghost start = text@;
        let mut k: usize = 0;
        assert(start + self.gate_lines(0) =~= start);
        while k < self.gates.len()
            invariant
                k <= self.gates.len(),
                self.wf(),
                text@ == start + self.gate_lines(k as int),
            decreases self.gates.len() - k,
        {
            self.push_gate_line(&mut text, k);
            k += 1;
            assert(text@ =~= start + self.gate_lines(k as int));
        }
        assert(text@ =~= self.qcir_text());
        text
    }

    /// Appends the line of a gate.
    #[verifier::rlimit(60)]
    fn push_gate_line(&self, text: &mut String, k: usize)
        requires
            self.wf(),
            k < self.gates@.len(),
        ensures
            final(text)@ == old(text)@ + self.gate_line(k as int),
    {
        let ghost start = text@;
        let ghost gate = self.gates@[k as int];
        push_name(text, (self.universals + self.existentials + k + 1) as i64);
        text.append(" = ");
        match &self.gates[k] {
            Gate::And(args) => text.append("and"),
            Gate::Or(args) => text.append("or"),
            Gate::Xor(a, b) => text.append("xor"),
        }
        text.append("(");
        let count = self.arity(k);
        let mut numbers: Vec<i64> = Vec::new();
        let mut i: usize = 0;
        while i < count
            invariant
                i <= count,
                k < self.gates@.len(),
                count == self.gates@[k as int].args().len(),
                numbers@.len() == i,
                forall|j: int| 0 <= j < i ==> #[trigger] numbers@[j] == self.gates@[k as int].args()[j],
            decreases count - i,
        {
            numbers.push(self.argument(k, i) as i64);
            i += 1;
        }
        assert(Seq::new(numbers@.len(), |j: int| numbers@[j] as int) =~= gate.numbers());
        push_names(text, &numbers);
        text.append(")\n");
        proof {
            let name = lit_name(self.gate_number(k as int));
            let op = op_name(gate.op());
            let list = name_list(gate.numbers());
            assert(text@ == start + name + " = "@ + op + "("@ + list + ")\n"@);
            assert(text@ =~= start + (name + (" = "@ + (op + ("("@ + (list + ")\n"@))))));
        }
    }

    /// Appends the line of a block, if it binds a variable.
    fn push_block(&self, text: &mut String, word: &str, from: usize, count: usize)
        requires
            from + count <= WIRE_LIMIT,
        ensures
            final(text)@ == old(text)@ + Circuit::block_line(word@, from as int, count as nat),
    {
        let ghost start = text@;
        if count == 0 {
            assert(text@ =~= start + Circuit::block_line(word@, from as int, 0));
            return;
        }
        text.append(word);
        text.append("(");
        let mut numbers: Vec<i64> = Vec::new();
        let mut i: usize = 0;
        while i < count
            invariant
                i <= count,
                from + count <= WIRE_LIMIT,
                numbers@.len() == i,
                forall|j: int| 0 <= j < i ==> #[trigger] numbers@[j] == from + j,
            decreases count - i,
        {
            numbers.push((from + i) as i64);
            i += 1;
        }
        assert(Seq::new(numbers@.len(), |j: int| numbers@[j] as int) =~= numbers_from(from as int, count as nat));
        push_names(text, &numbers);
        text.append(")\n");
        assert(text@ =~= start + Circuit::block_line(word@, from as int, count as nat));
    }
}

} // verus!
