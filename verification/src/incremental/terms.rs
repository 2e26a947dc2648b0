//! Terms over the solver's variables.
//!
//! Terms are Tseitin-encoded as they are built, and the variables this
//! introduces are the solver's own: existential, innermost, and excluded
//! from every answer. Building a term adds definitions only: every
//! assignment that satisfied the stack can be extended to the new
//! variables.
use crate::incremental::{lit_numbered, means, IncrementalSolver, VAR_LIMIT};
use crate::incremental::stack::stacked_clauses;
use crate::literal::{Lit, Var};
use crate::normal::copy_lits;
use crate::quantifier::QuantTy;
use crate::semantics::{clause_true, cube_true, lemma_matrix_coincide, lit_true, matrix_true, mentions, set_var, Assignment, Matrix};
use crate::simplify::{contains_lit, sort_dedup, sorted};
use vstd::prelude::*;

verus! {

broadcast use crate::literal::group_literal;

/// A term under construction: a literal over the solver's variables.
#[derive(Clone, Copy, PartialEq, Eq, Debug, Structural)]
pub struct Node(Lit);

impl Node {
    /// The literal that the term stands for.
    pub closed spec fn lit(self) -> Lit {
        self.0
    }

    pub(crate) fn to_lit(self) -> (lit: Lit)
        ensures
            lit == self.lit(),
    {
        self.0
    }

    /// The negation of the term.
    pub fn negated(self) -> (node: Node)
        ensures
            node.lit() == self.lit().neg(),
    {
        Node(self.0.negated())
    }
}

/// The literals of terms.
pub open spec fn node_lits(nodes: Seq<Node>) -> Seq<Lit> {
    Seq::new(nodes.len(), |i: int| nodes[i].lit())
}

/// The assignments agree on the variables below a number.
pub open spec fn agree_before(a: Assignment, b: Assignment, fresh: u32) -> bool {
    forall|x: Var| x.dimacs() < fresh ==> #[trigger] a(x) == b(x)
}

/// Some assignment that agrees below a number satisfies the clauses.
#[verifier::opaque]
pub open spec fn extendable(a: Assignment, m: Matrix, fresh: u32) -> bool {
    exists|b: Assignment| agree_before(a, b, fresh) && #[trigger] matrix_true(b, m)
}

/// The clauses were extended by definitions of fresh variables.
pub open spec fn defines_more(before: Matrix, after: Matrix, fresh: u32) -> bool {
    &&& forall|a: Assignment| #[trigger] matrix_true(a, after) ==> matrix_true(a, before)
    &&& completes(before, after, fresh)
}

/// What satisfied the first clauses can be extended to satisfy the second.
#[verifier::opaque]
pub open spec fn completes(before: Matrix, after: Matrix, fresh: u32) -> bool {
    forall|a: Assignment| #[trigger] matrix_true(a, before) ==> extendable(a, after, fresh)
}

proof fn lemma_extend_chain(a: Assignment, n: Matrix, o: Matrix, fresh: u32, later: u32)
    requires
        extendable(a, n, fresh),
        completes(n, o, later),
        fresh <= later,
    ensures
        extendable(a, o, fresh),
{
    reveal(extendable);
    let b = choose|b: Assignment| agree_before(a, b, fresh) && #[trigger] matrix_true(b, n);
    assert(extendable(b, o, later)) by {
        reveal(completes);
    }
    let c = choose|c: Assignment| agree_before(b, c, later) && #[trigger] matrix_true(c, o);
    assert(agree_before(a, c, fresh));
}

proof fn lemma_defines_nothing(m: Matrix, fresh: u32)
    ensures
        defines_more(m, m, fresh),
{
    assert(completes(m, m, fresh)) by {
        reveal(completes);
        assert forall|a: Assignment| #[trigger] matrix_true(a, m) implies extendable(a, m, fresh) by {
            reveal(extendable);
            assert(agree_before(a, a, fresh));
        }
    }
}

proof fn lemma_defines_chain(m: Matrix, n: Matrix, o: Matrix, fresh: u32, later: u32)
    requires
        defines_more(m, n, fresh),
        defines_more(n, o, later),
        fresh <= later,
    ensures
        defines_more(m, o, fresh),
{
    assert(completes(m, o, fresh)) by {
        assert forall|a: Assignment| #[trigger] matrix_true(a, m) implies extendable(a, o, fresh) by {
            assert(extendable(a, n, fresh)) by {
                reveal(completes);
            }
            lemma_extend_chain(a, n, o, fresh, later);
        }
        reveal(completes);
    }
    assert forall|a: Assignment| #[trigger] matrix_true(a, o) implies matrix_true(a, m) by {
        assert(matrix_true(a, n));
    }
}

/// What a fresh gate adds can be satisfied by its value.
proof fn lemma_fresh_gate(m: Matrix, after: Matrix, gate: Lit, inputs: Seq<Lit>, fresh: u32)
    requires
        gate.v().dimacs() == fresh,
        gate.pos(),
        forall|x: Var| #[trigger] mentions(m, x) ==> x.dimacs() < fresh,
        forall|i: int| 0 <= i < inputs.len() ==> (#[trigger] inputs[i]).v().dimacs() < fresh,
        forall|a: Assignment| #[trigger] matrix_true(a, after) <==> matrix_true(a, m) && (lit_true(a, gate) == cube_true(a, inputs)),
    ensures
        defines_more(m, after, fresh),
        means(after, gate, inputs),
{
    reveal(completes);
    assert forall|a: Assignment| #[trigger] matrix_true(a, m) implies extendable(a, after, fresh) by {
        reveal(extendable);
        let b = set_var(a, gate.v(), cube_true(a, inputs));
        assert forall|x: Var| mentions(m, x) implies #[trigger] a(x) == b(x) by {}
        lemma_matrix_coincide(m, a, b);
        assert forall|i: int| 0 <= i < inputs.len() implies lit_true(a, #[trigger] inputs[i]) == lit_true(b, inputs[i]) by {}
        assert(cube_true(a, inputs) == cube_true(b, inputs));
        assert(matrix_true(b, after));
        assert(agree_before(a, b, fresh));
    }
}

/// The literals of a list.
pub open spec fn members(lits: Seq<Lit>) -> Set<Lit> {
    Set::new(|l: Lit| lits.contains(l))
}

/// The literals in increasing order.
pub open spec fn in_order(lits: Set<Lit>) -> Seq<Lit> {
    choose|s: Seq<Lit>| sorted(s) && #[trigger] members(s) == lits
}

/// The set has two literals.
pub open spec fn several(lits: Set<Lit>) -> bool {
    exists|k: Lit, l: Lit| #[trigger] lits.contains(k) && #[trigger] lits.contains(l) && k != l
}

/// The literals that are left of the first ones of a conjunction without
/// constants and repetitions; `None` if one of them is false or two
/// contradict each other.
pub open spec fn folded(truth: Option<Lit>, lits: Seq<Lit>, count: int) -> Option<Set<Lit>>
    decreases count,
{
    if count <= 0 {
        Some(Set::empty())
    } else {
        match folded(truth, lits, count - 1) {
            None => None,
            Some(kept) => {
                let lit = lits[count - 1];
                if truth == Some(lit.neg()) || kept.contains(lit.neg()) {
                    None
                } else if truth == Some(lit) {
                    Some(kept)
                } else {
                    Some(kept.insert(lit))
                }
            },
        }
    }
}

proof fn lemma_folded_none(truth: Option<Lit>, lits: Seq<Lit>, low: int, high: int)
    requires
        low <= high,
        folded(truth, lits, low) is None,
    ensures
        folded(truth, lits, high) is None,
    decreases high - low,
{
    if low < high {
        lemma_folded_none(truth, lits, low, high - 1);
        if high <= 0 {
            assert(folded(truth, lits, low) is Some);
        }
    }
}

proof fn lemma_members(lits: Seq<Lit>, lit: Lit)
    ensures
        members(lits.push(lit)) == members(lits).insert(lit),
{
    assert forall|l: Lit| members(lits.push(lit)).contains(l) == members(lits).insert(lit).contains(l) by {
        crate::datastructure::lemma_push_contains(lits, lit, l);
    }
    assert(members(lits.push(lit)) =~= members(lits).insert(lit));
}

/// Literals in order are determined by their set.
proof fn lemma_in_order(s: Seq<Lit>)
    requires
        sorted(s),
    ensures
        in_order(members(s)) == s,
{
    let t = in_order(members(s));
    assert(sorted(t) && members(t) == members(s));
    lemma_sorted_unique(s, t);
}

proof fn lemma_sorted_unique(s: Seq<Lit>, t: Seq<Lit>)
    requires
        sorted(s),
        sorted(t),
        members(s) == members(t),
    ensures
        s == t,
    decreases s.len(),
{
    if s.len() == 0 {
        if t.len() > 0 {
            assert(members(t).contains(t[0]));
        }
        assert(s =~= t);
    } else {
        assert(members(s).contains(s.last()));
        let j = choose|j: int| 0 <= j < t.len() && t[j] == s.last();
        assert(members(t).contains(t.last()));
        let i = choose|i: int| 0 <= i < s.len() && s[i] == t.last();
        if j < t.len() - 1 {
            assert(t[j].dimacs() < t[t.len() - 1].dimacs());
            assert(i < s.len() - 1 ==> s[i].dimacs() < s[s.len() - 1].dimacs());
        }
        assert(s.last() == t.last());
        let a = s.drop_last();
        let b = t.drop_last();
        assert forall|l: Lit| members(a).contains(l) == members(b).contains(l) by {
            if a.contains(l) {
                let k = choose|k: int| 0 <= k < a.len() && a[k] == l;
                assert(s[k].dimacs() < s[s.len() - 1].dimacs());
                assert(members(s).contains(s[k]));
                let n = choose|n: int| 0 <= n < t.len() && t[n] == l;
                assert(b[n] == l);
            }
            if b.contains(l) {
                let k = choose|k: int| 0 <= k < b.len() && b[k] == l;
                assert(t[k].dimacs() < t[t.len() - 1].dimacs());
                assert(members(t).contains(t[k]));
                let n = choose|n: int| 0 <= n < s.len() && s[n] == l;
                assert(a[n] == l);
            }
        }
        assert(members(a) =~= members(b));
        lemma_sorted_unique(a, b);
        assert(s =~= a.push(s.last()));
        assert(t =~= b.push(t.last()));
    }
}

impl IncrementalSolver {
    /// The term is on known variables.
    pub open spec fn knows(&self, node: Node) -> bool {
        node.lit().v().dimacs() < self.fresh()
    }

    /// The solver is as it was but for definitions of fresh variables.
    pub open spec fn builds_on(&self, before: &IncrementalSolver) -> bool {
        &&& self.wf()
        &&& self.stack().len() == before.stack().len()
        &&& self.fresh() >= before.fresh()
        &&& defines_more(before.clauses(), self.clauses(), before.fresh())
        &&& forall|x: Var| #[trigger] before.introduced().contains(x) ==> self.introduced().contains(x)
        &&& forall|x: Var| #[trigger] self.introduced().contains(x) ==> before.introduced().contains(x) || x.dimacs() >= before.fresh()
        &&& self.verdict() == before.verdict()
        &&& self.goal() == before.goal()
    }

    /// Where the stack holds, the term has the value.
    pub open spec fn evaluates(&self, node: Node, value: spec_fn(Assignment) -> bool) -> bool {
        forall|a: Assignment| #[trigger] matrix_true(a, self.clauses()) ==> lit_true(a, node.lit()) == value(a)
    }

    /// Lifts a declared variable into a term.
    pub fn node(var: u32) -> (node: Node)
        requires
            0 < var < VAR_LIMIT,
        ensures
            node.lit() == lit_numbered(var as i32),
            node.lit().v().dimacs() == var,
    {
        let lit = Var::from_dimacs(var as i32).positive();
        proof {
            crate::literal::lemma_var_of(lit.v());
            crate::incremental::lemma_numbered(lit, var as i32);
        }
        Node(lit)
    }

    /// The literal a term denotes, for callers that still speak in clauses.
    pub fn literal(node: Node) -> (number: i32)
        ensures
            number == node.lit().dimacs(),
    {
        node.0.to_dimacs()
    }

    /// Whether a variable is one the solver introduced itself.
    pub fn is_auxiliary(&self, var: u32) -> (auxiliary: bool)
        requires
            0 < var < VAR_LIMIT,
        ensures
            auxiliary == self.introduced().contains(crate::literal::var_of(var as int)),
    {
        let var = Var::from_dimacs(var as i32);
        proof {
            crate::literal::lemma_var_of(var);
        }
        self.auxiliary.contains(var)
    }

    /// A fresh auxiliary variable that is the conjunction of literals.
    fn define_gate(&mut self, inputs: &Vec<Lit>) -> (gate: Lit)
        requires
            old(self).wf(),
            old(self).fresh() < VAR_LIMIT,
            forall|i: int| 0 <= i < inputs@.len() ==> (#[trigger] inputs@[i]).v().dimacs() < old(self).fresh(),
        ensures
            final(self).builds_on(old(self)),
            final(self).fresh() == old(self).fresh() + 1,
            final(self).introduced().contains(gate.v()),
            gate.v().dimacs() < final(self).fresh(),
            gate.v().dimacs() == old(self).fresh(),
            means(final(self).clauses(), gate, inputs@),
            final(self).gates@ == old(self).gates@,
            final(self).buckets == old(self).buckets,
            final(self).truth == old(self).truth,
            final(self).continuation == old(self).continuation,
    {
        let ghost m = self.clauses();
        let ghost fresh = self.next_var;
        let number = self.next_var;
        self.declare(number, QuantTy::Exists);
        let var = Var::from_dimacs(number as i32);
        self.auxiliary.insert(var);
        let gate = var.positive();
        proof {
            crate::literal::lemma_var_of(var);
        }
        self.push_gate(gate, inputs);
        proof {
            lemma_fresh_gate(m, self.clauses(), gate, inputs@, fresh);
        }
        gate
    }

    /// The constant term.
    pub fn constant(&mut self, value: bool) -> (node: Node)
        requires
            old(self).wf(),
            old(self).fresh() < VAR_LIMIT,
        ensures
            final(self).builds_on(old(self)),
            final(self).fresh() <= old(self).fresh() + 1,
            final(self).knows(node),
            final(self).evaluates(node, |a: Assignment| value),
            final(self).truth_term() == Some(if value { node.lit() } else { node.lit().neg() }),
            old(self).truth_term() is Some ==> *final(self) == *old(self),
            old(self).truth_term() is None ==> final(self).fresh() == old(self).fresh() + 1 && final(self).introduced().contains(node.lit().v()),
            forall|lits: Set<Lit>| #[trigger] final(self).gate_of(lits) == old(self).gate_of(lits),
            final(self).continues() == old(self).continues(),
    {
        proof {
            lemma_defines_nothing(self.clauses(), self.fresh());
        }
        let truth = match self.truth {
            Some(truth) => truth,
            None => {
                let none: Vec<Lit> = Vec::new();
                let gate = self.define_gate(&none);
                proof {
                    assert forall|a: Assignment| #[trigger] matrix_true(a, self.clauses()) implies clause_true(a, seq![gate]) by {
                        assert(lit_true(a, gate) == cube_true(a, none@));
                        assert(lit_true(a, seq![gate][0]));
                    }
                }
                self.truth = Some(gate);
                proof {
                    self.lemma_keeps_gates(old(self));
                }
                gate
            },
        };
        proof {
            assert forall|a: Assignment| #[trigger] matrix_true(a, self.clauses()) implies lit_true(a, truth) by {
                let unit = seq![truth];
                assert(clause_true(a, unit));
                let i = choose|i: int| 0 <= i < unit.len() && lit_true(a, #[trigger] unit[i]);
                assert(unit[i] == truth);
            }
        }
        if value {
            Node(truth)
        } else {
            Node(truth.negated())
        }
    }

    /// The literal of the constant true, if it is allocated.
    pub closed spec fn truth_term(&self) -> Option<Lit> {
        self.truth
    }

    /// The recorded gate of a conjunction.
    pub closed spec fn gate_of(&self, lits: Set<Lit>) -> Option<Lit> {
        let inputs = in_order(lits);
        if exists|k: int| #[trigger] self.recorded_at(inputs, k) {
            let k = choose|k: int| #[trigger] self.recorded_at(inputs, k) && forall|i: int| i < k ==> !#[trigger] self.recorded_at(inputs, i);
            Some(self.gates@[self.buckets.row(inputs[0].id())[k] as int].0)
        } else {
            None
        }
    }

    /// The recorded gates and the constant are as they were.
    pub open spec fn keeps_terms(&self, before: &IncrementalSolver) -> bool {
        &&& self.truth_term() == before.truth_term()
        &&& forall|lits: Set<Lit>| #[trigger] self.gate_of(lits) == before.gate_of(lits)
    }

    pub(crate) proof fn lemma_keeps_gates(&self, before: &IncrementalSolver)
        requires
            self.gates@ == before.gates@,
            self.buckets == before.buckets,
        ensures
            forall|lits: Set<Lit>| #[trigger] self.gate_of(lits) == before.gate_of(lits),
    {
        assert forall|lits: Set<Lit>| #[trigger] self.gate_of(lits) == before.gate_of(lits) by {
            let inputs = in_order(lits);
            if exists|k: int| #[trigger] self.recorded_at(inputs, k) {
                let some = choose|k: int| #[trigger] self.recorded_at(inputs, k);
                let k = self.lemma_first_recorded(inputs, some);
                assert(before.recorded_at(inputs, k));
                assert forall|i: int| i < k implies !#[trigger] before.recorded_at(inputs, i) by {
                    assert(!self.recorded_at(inputs, i));
                }
                let j = choose|j: int| #[trigger]
                    before.recorded_at(inputs, j) && forall|i: int| i < j ==> !#[trigger] before.recorded_at(inputs, i);
                assert(self.recorded_at(inputs, j));
                let h = choose|h: int| #[trigger]
                    self.recorded_at(inputs, h) && forall|i: int| i < h ==> !#[trigger] self.recorded_at(inputs, i);
                assert(before.recorded_at(inputs, h));
                assert(j == k && h == k);
            } else if exists|k: int| #[trigger] before.recorded_at(inputs, k) {
                let k = choose|k: int| #[trigger] before.recorded_at(inputs, k);
                assert(self.recorded_at(inputs, k));
            }
        }
    }

    pub(crate) proof fn lemma_keeps_terms(&self, before: &IncrementalSolver)
        requires
            self.gates@ == before.gates@,
            self.buckets == before.buckets,
            self.truth == before.truth,
        ensures
            self.keeps_terms(before),
    {
        self.lemma_keeps_gates(before);
    }

    proof fn lemma_gate_of(&self, inputs: Seq<Lit>, k: int)
        requires
            sorted(inputs),
            self.recorded_at(inputs, k),
            forall|i: int| i < k ==> !#[trigger] self.recorded_at(inputs, i),
        ensures
            self.gate_of(members(inputs)) == Some(self.gates@[self.buckets.row(inputs[0].id())[k] as int].0),
    {
        lemma_in_order(inputs);
        let j = choose|j: int| #[trigger] self.recorded_at(inputs, j) && forall|i: int| i < j ==> !#[trigger] self.recorded_at(inputs, i);
        assert(j == k);
    }

    /// A gate listed for the first input has the inputs.
    spec fn recorded_at(&self, inputs: Seq<Lit>, k: int) -> bool {
        &&& inputs.len() > 0
        &&& 0 <= k < self.buckets.row(inputs[0].id()).len()
        &&& self.buckets.row(inputs[0].id())[k] < self.gates@.len()
        &&& self.gates@[self.buckets.row(inputs[0].id())[k] as int].1@ == inputs
    }

    /// Which conjunction was recorded for inputs.
    fn find_gate(&self, inputs: &Vec<Lit>) -> (gate: Option<Lit>)
        requires
            self.wf(),
        ensures
            gate matches Some(gate) ==> means(self.clauses(), gate, inputs@) && gate.v().dimacs() < self.fresh(),
            match gate {
                Some(gate) => exists|k: int| #[trigger]
                    self.recorded_at(inputs@, k) && self.gates@[self.buckets.row(inputs@[0].id())[k] as int].0 == gate,
                None => forall|k: int| !#[trigger] self.recorded_at(inputs@, k),
            },
            sorted(inputs@) ==> gate == self.gate_of(members(inputs@)),
    {
        proof {
            if sorted(inputs@) {
                lemma_in_order(inputs@);
            }
        }
        if inputs.len() == 0 {
            return None;
        }
        let bucket = inputs[0].as_index();
        let count = self.buckets.count(bucket);
        let mut k: usize = 0;
        while k < count
            invariant
                self.wf(),
                k <= count,
                inputs@.len() > 0,
                bucket == inputs@[0].id(),
                count == self.buckets.row(bucket as int).len(),
                forall|i: int| i < k ==> !#[trigger] self.recorded_at(inputs@, i),
            decreases count - k,
        {
            let index = self.buckets.at(bucket, k);
            assert(self.recorded_at(inputs@, k as int) == (index < self.gates@.len() && self.gates@[index as int].1@ == inputs@));
            if index < self.gates.len() && crate::incremental::stack::same_lits(&self.gates[index].1, inputs) {
                assert(means(self.clauses(), self.gates@[index as int].0, self.gates@[index as int].1@));
                proof {
                    if sorted(inputs@) {
                        self.lemma_gate_of(inputs@, k as int);
                    }
                }
                return Some(self.gates[index].0);
            }
            k += 1;
        }
        None
    }

    proof fn lemma_new_gate(&self, before: &IncrementalSolver, inputs: Seq<Lit>, gate: Lit)
        requires
            sorted(inputs),
            inputs.len() > 0,
            forall|k: int| !#[trigger] before.recorded_at(inputs, k),
            exists|k: int| #[trigger] self.recorded_at(inputs, k),
            before.gates@.len() <= usize::MAX,
            self.gates@.len() == before.gates@.len() + 1,
            forall|i: int| 0 <= i < before.gates@.len() ==> #[trigger] self.gates@[i] == before.gates@[i],
            self.gates@.last().0 == gate,
            self.buckets.row(inputs[0].id()) == before.buckets.row(inputs[0].id()).push(before.gates@.len() as usize),
        ensures
            self.gate_of(members(inputs)) == Some(gate),
    {
        lemma_in_order(inputs);
        let some = choose|k: int| #[trigger] self.recorded_at(inputs, k);
        let k = self.lemma_first_recorded(inputs, some);
        self.lemma_gate_of(inputs, k);
        let row = self.buckets.row(inputs[0].id());
        let index = row[k];
        if index < before.gates@.len() {
            assert(k < row.len() - 1 ==> before.recorded_at(inputs, k));
        }
    }

    proof fn lemma_first_recorded(&self, inputs: Seq<Lit>, some: int) -> (k: int)
        requires
            self.recorded_at(inputs, some),
        ensures
            self.recorded_at(inputs, k),
            forall|i: int| i < k ==> !#[trigger] self.recorded_at(inputs, i),
        decreases some,
    {
        if exists|i: int| i < some && #[trigger] self.recorded_at(inputs, i) {
            let i = choose|i: int| i < some && #[trigger] self.recorded_at(inputs, i);
            self.lemma_first_recorded(inputs, i)
        } else {
            some
        }
    }

    /// A conjunction that is recorded gives its gate and changes nothing;
    /// another one gives a new auxiliary variable, and is recorded.
    pub open spec fn shares(&self, later: &IncrementalSolver, lits: Set<Lit>, gate: Lit) -> bool {
        &&& later.gate_of(lits) == Some(gate)
        &&& match self.gate_of(lits) {
            Some(recorded) => gate == recorded && *later == *self,
            None => gate.v().dimacs() == self.fresh() && later.fresh() == self.fresh() + 1 && later.introduced().contains(gate.v()),
        }
    }

    /// What conjoining the literals comes to: constants are decided, and a
    /// single literal is itself.
    pub open spec fn conjoins(&self, later: &IncrementalSolver, lits: Seq<Lit>, lit: Lit) -> bool {
        match folded(self.truth_term(), lits, lits.len() as int) {
            None => later.truth_term() == Some(lit.neg()) && (self.truth_term() is Some ==> *later == *self),
            Some(kept) => {
                &&& kept == Set::<Lit>::empty() ==> later.truth_term() == Some(lit) && (self.truth_term() is Some ==> *later == *self)
                &&& !several(kept) && kept.contains(lit) ==> *later == *self
                &&& !several(kept) && kept != Set::<Lit>::empty() ==> kept.contains(lit)
                &&& several(kept) ==> self.shares(later, kept, lit)
            },
        }
    }

    /// The conjunction of known literals: a recorded gate, or a new one.
    #[verifier::rlimit(60)]
    fn share_gate(&mut self, lits: &Vec<Lit>) -> (gate: Lit)
        requires
            old(self).wf(),
            old(self).fresh() < VAR_LIMIT,
            lits@.len() > 0,
            forall|i: int| 0 <= i < lits@.len() ==> (#[trigger] lits@[i]).v().dimacs() < old(self).fresh(),
        ensures
            final(self).builds_on(old(self)),
            final(self).fresh() <= old(self).fresh() + 1,
            gate.v().dimacs() < final(self).fresh(),
            means(final(self).clauses(), gate, lits@),
            old(self).shares(final(self), members(lits@), gate),
    {
        let inputs = sort_dedup(lits);
        proof {
            assert(members(inputs@) =~= members(lits@));
            lemma_in_order(inputs@);
            assert(lits@.contains(lits@[0]));
            assert(inputs@.contains(lits@[0]));
            lemma_defines_nothing(self.clauses(), self.fresh());
            assert forall|i: int| 0 <= i < inputs@.len() implies (#[trigger] inputs@[i]).v().dimacs() < self.fresh() by {
                assert(inputs@.contains(inputs@[i]));
                assert(lits@.contains(inputs@[i]));
                let j = choose|j: int| 0 <= j < lits@.len() && lits@[j] == inputs@[i];
                assert(lits@[j].v().dimacs() < self.fresh());
            }
            assert forall|a: Assignment| #[trigger] cube_true(a, inputs@) == cube_true(a, lits@) by {
                lemma_same_cube(a, inputs@, lits@);
            }
        }
        match self.find_gate(&inputs) {
            Some(gate) => gate,
            None => {
                let gate = self.define_gate(&inputs);
                if inputs.len() > 0 {
                    let index = self.gates.len();
                    let ghost defined = *self;
                    let ghost key = inputs@;
                    let ghost row = self.buckets.row(key[0].id());
                    self.buckets.push(inputs[0].as_index(), index);
                    self.gate_at.insert(gate.var(), index);
                    let ghost before = self.gates@;
                    self.gates.push((gate, inputs));
                    proof {
                        assert forall|i: int| 0 <= i < self.gates@.len() implies means(
                            stacked_clauses(self.frames@),
                            (#[trigger] self.gates@[i]).0,
                            self.gates@[i].1@,
                        ) by {
                            if i < before.len() {
                                assert(self.gates@[i] == before[i]);
                            }
                        }
                        assert forall|i: int, j: int| 0 <= i < self.gates@.len() && 0 <= j < self.gates@[i].1@.len() implies (
                        #[trigger] self.gates@[i].1@[j]).v().dimacs() < self.next_var by {
                            if i < before.len() {
                                assert(self.gates@[i] == before[i]);
                                assert(before[i].1@[j].v().dimacs() < self.next_var);
                            }
                        }
                        assert forall|i: int| 0 <= i < self.gates@.len() implies (#[trigger] self.gates@[i]).0.v().dimacs() < self.next_var by {
                            if i < before.len() {
                                assert(self.gates@[i] == before[i]);
                            }
                        }
                        assert(self.recorded_at(key, row.len() as int));
                        self.lemma_new_gate(old(self), key, gate);
                    }
                }
                gate
            },
        }
    }

    /// The conjunction of two terms. A term written twice is encoded once,
    /// and a trivial one is not encoded at all.
    pub fn and(&mut self, a: Node, b: Node) -> (node: Node)
        requires
            old(self).wf(),
            old(self).fresh() < VAR_LIMIT,
            old(self).knows(a),
            old(self).knows(b),
        ensures
            final(self).builds_on(old(self)),
            final(self).fresh() <= old(self).fresh() + 1,
            final(self).knows(node),
            final(self).evaluates(node, |x: Assignment| lit_true(x, a.lit()) && lit_true(x, b.lit())),
            a.lit() == b.lit() ==> node == a,
    {
        let mut nodes: Vec<Node> = Vec::new();
        nodes.push(a);
        nodes.push(b);
        let node = self.and_all(&nodes);
        proof {
            let lits = node_lits(nodes@);
            assert forall|x: Assignment| #[trigger] matrix_true(x, self.clauses()) implies lit_true(x, node.lit()) == (lit_true(x, a.lit())
                && lit_true(x, b.lit())) by {
                assert(lits[0] == a.lit() && lits[1] == b.lit());
                if lit_true(x, a.lit()) && lit_true(x, b.lit()) {
                    assert(cube_true(x, lits));
                } else {
                    assert(!lit_true(x, lits[0]) || !lit_true(x, lits[1]));
                }
            }
        }
        if a.0 == b.0 {
            return a;
        }
        node
    }

    /// The conjunction of any number of terms, by one variable.
    pub fn and_all(&mut self, nodes: &Vec<Node>) -> (node: Node)
        requires
            old(self).wf(),
            old(self).fresh() < VAR_LIMIT,
            forall|i: int| 0 <= i < nodes@.len() ==> old(self).knows(#[trigger] nodes@[i]),
        ensures
            final(self).builds_on(old(self)),
            final(self).fresh() <= old(self).fresh() + 1,
            final(self).knows(node),
            final(self).evaluates(node, |x: Assignment| cube_true(x, node_lits(nodes@))),
            old(self).conjoins(final(self), node_lits(nodes@), node.lit()),
    {
        let ghost all = node_lits(nodes@);
        let mut lits: Vec<Lit> = Vec::new();
        let mut k: usize = 0;
        let mut refuted = false;
        while k < nodes.len() && !refuted
            invariant
                k <= nodes@.len(),
                *self == *old(self),
                self.wf(),
                all == node_lits(nodes@),
                forall|i: int| 0 <= i < nodes@.len() ==> self.knows(#[trigger] nodes@[i]),
                forall|i: int| 0 <= i < lits@.len() ==> (#[trigger] lits@[i]).v().dimacs() < self.fresh(),
                !refuted ==> forall|x: Assignment| #[trigger]
                    matrix_true(x, self.clauses()) ==> cube_true(x, lits@) == cube_true(x, all.take(k as int)),
                refuted ==> forall|x: Assignment| #[trigger] matrix_true(x, self.clauses()) ==> !cube_true(x, all),
                refuted ==> folded(self.truth, all, k as int) is None,
                !refuted ==> folded(self.truth, all, k as int) == Some(members(lits@)),
                lits@.no_duplicates(),
            decreases nodes.len() - k,
        {
            let lit = nodes[k].0;
            let ghost before = lits@;
            let holds = match self.truth {
                Some(truth) => lit == truth,
                None => false,
            };
            let fails = match self.truth {
                Some(truth) => lit == truth.negated(),
                None => false,
            };
            proof {
                assert(self.knows(nodes@[k as int]));
                assert(all.take(k as int + 1) =~= all.take(k as int).push(lit));
                assert forall|x: Assignment| #[trigger] matrix_true(x, self.clauses()) implies (holds ==> lit_true(x, lit)) && (fails
                    ==> !lit_true(x, lit)) by {
                    self.lemma_truth(x);
                }
                assert forall|x: Assignment| cube_true(x, all) implies lit_true(x, lit) by {
                    assert(lit_true(x, all[k as int]));
                }
            }
            if fails || contains_lit(&lits, lit.negated()) {
                proof {
                    assert forall|x: Assignment| #[trigger] matrix_true(x, self.clauses()) implies !cube_true(x, all) by {
                        if cube_true(x, all) && !fails {
                            assert(cube_true(x, all.take(k as int))) by {
                                assert forall|i: int| 0 <= i < k implies lit_true(x, #[trigger] all.take(k as int)[i]) by {
                                    assert(lit_true(x, all[i]));
                                }
                            }
                            let j = choose|j: int| 0 <= j < lits@.len() && lits@[j] == lit.neg();
                            assert(lit_true(x, lits@[j]));
                        }
                    }
                }
                refuted = true;
            } else {
                let present = contains_lit(&lits, lit);
                if !holds && !present {
                    lits.push(lit);
                }
                proof {
                    lemma_members(before, lit);
                    assert(present ==> members(before).insert(lit) =~= members(before));
                    assert forall|x: Assignment| #[trigger] matrix_true(x, self.clauses()) implies cube_true(x, lits@) == cube_true(
                        x,
                        all.take(k as int + 1),
                    ) by {
                        lemma_cube_push(x, all.take(k as int), lit);
                        lemma_cube_push(x, before, lit);
                        assert(cube_true(x, before) == cube_true(x, all.take(k as int)));
                        if present && cube_true(x, before) {
                            let j = choose|j: int| 0 <= j < before.len() && before[j] == lit;
                            assert(lit_true(x, before[j]));
                        }
                    }
                }
            }
            k += 1;
        }
        if refuted {
            proof {
                lemma_folded_none(self.truth, all, k as int, all.len() as int);
            }
            return self.constant(false);
        }
        assert(all.take(all.len() as int) =~= all);
        proof {
            lemma_defines_nothing(self.clauses(), self.fresh());
        }
        let ghost kept = members(lits@);
        if lits.len() == 0 {
            assert(kept =~= Set::<Lit>::empty());
            return self.constant(true);
        }
        assert(kept.contains(lits@[0]));
        if lits.len() == 1 {
            proof {
                assert forall|x: Assignment| #[trigger] matrix_true(x, self.clauses()) implies lit_true(x, lits@[0]) == cube_true(x, all) by {
                    assert(cube_true(x, lits@) == lit_true(x, lits@[0]));
                }
            }
            return Node(lits[0]);
        }
        let ghost m = self.clauses();
        let gate = self.share_gate(&lits);
        proof {
            assert(lits@[0] != lits@[1]);
            assert(kept.contains(lits@[1]));
            assert forall|x: Assignment| #[trigger] matrix_true(x, self.clauses()) implies lit_true(x, gate) == cube_true(x, all) by {
                assert(matrix_true(x, m));
            }
        }
        Node(gate)
    }

    /// The disjunction of two terms.
    pub fn or(&mut self, a: Node, b: Node) -> (node: Node)
        requires
            old(self).wf(),
            old(self).fresh() < VAR_LIMIT,
            old(self).knows(a),
            old(self).knows(b),
        ensures
            final(self).builds_on(old(self)),
            final(self).fresh() <= old(self).fresh() + 1,
            final(self).knows(node),
            final(self).evaluates(node, |x: Assignment| lit_true(x, a.lit()) || lit_true(x, b.lit())),
    {
        let node = self.and(a.negated(), b.negated()).negated();
        node
    }

    /// The disjunction of any number of terms.
    pub fn or_all(&mut self, nodes: &Vec<Node>) -> (node: Node)
        requires
            old(self).wf(),
            old(self).fresh() < VAR_LIMIT,
            forall|i: int| 0 <= i < nodes@.len() ==> old(self).knows(#[trigger] nodes@[i]),
        ensures
            final(self).builds_on(old(self)),
            final(self).fresh() <= old(self).fresh() + 1,
            final(self).knows(node),
            final(self).evaluates(node, |x: Assignment| clause_true(x, node_lits(nodes@))),
    {
        let mut negated: Vec<Node> = Vec::new();
        let mut k: usize = 0;
        while k < nodes.len()
            invariant
                k <= nodes@.len(),
                *self == *old(self),
                negated@.len() == k,
                forall|i: int| 0 <= i < nodes@.len() ==> old(self).knows(#[trigger] nodes@[i]),
                forall|i: int| 0 <= i < k ==> (#[trigger] negated@[i]).lit() == nodes@[i].lit().neg() && old(self).knows(negated@[i]),
            decreases nodes.len() - k,
        {
            assert(old(self).knows(nodes@[k as int]));
            negated.push(nodes[k].negated());
            k += 1;
        }
        let node = self.and_all(&negated).negated();
        proof {
            let c = node_lits(nodes@);
            let d = node_lits(negated@);
            assert forall|x: Assignment| #[trigger] matrix_true(x, self.clauses()) implies lit_true(x, node.lit()) == clause_true(x, c) by {
                if clause_true(x, c) {
                    let i = choose|i: int| 0 <= i < c.len() && lit_true(x, #[trigger] c[i]);
                    assert(d[i] == c[i].neg());
                    assert(!lit_true(x, d[i]));
                }
                if !cube_true(x, d) {
                    let i = choose|i: int| 0 <= i < d.len() && !lit_true(x, #[trigger] d[i]);
                    assert(d[i] == c[i].neg());
                    assert(lit_true(x, c[i]));
                }
            }
        }
        node
    }

    /// The exclusive disjunction of two terms.
    pub fn xor(&mut self, a: Node, b: Node) -> (node: Node)
        requires
            old(self).wf(),
            old(self).fresh() + 2 < VAR_LIMIT,
            old(self).knows(a),
            old(self).knows(b),
        ensures
            final(self).builds_on(old(self)),
            final(self).fresh() <= old(self).fresh() + 3,
            final(self).knows(node),
            final(self).evaluates(node, |x: Assignment| lit_true(x, a.lit()) != lit_true(x, b.lit())),
    {
        let ghost start = *self;
        let left = self.and(a, b.negated());
        let ghost first = *self;
        let right = self.and(a.negated(), b);
        let ghost second = *self;
        let node = self.or(left, right);
        proof {
            lemma_builds_chain(&start, &first, &second);
            lemma_builds_chain(&start, &second, &*self);
            assert forall|x: Assignment| #[trigger] matrix_true(x, self.clauses()) implies lit_true(x, node.lit()) == (lit_true(x, a.lit())
                != lit_true(x, b.lit())) by {
                assert(matrix_true(x, second.clauses()));
                assert(matrix_true(x, first.clauses()));
            }
        }
        node
    }

    /// `if cond then a else b`.
    pub fn ite(&mut self, cond: Node, a: Node, b: Node) -> (node: Node)
        requires
            old(self).wf(),
            old(self).fresh() + 2 < VAR_LIMIT,
            old(self).knows(cond),
            old(self).knows(a),
            old(self).knows(b),
        ensures
            final(self).builds_on(old(self)),
            final(self).fresh() <= old(self).fresh() + 3,
            final(self).knows(node),
            final(self).evaluates(
                node,
                |x: Assignment| if lit_true(x, cond.lit()) { lit_true(x, a.lit()) } else { lit_true(x, b.lit()) },
            ),
    {
        let ghost start = *self;
        let taken = self.and(cond, a);
        let ghost first = *self;
        let skipped = self.and(cond.negated(), b);
        let ghost second = *self;
        let node = self.or(taken, skipped);
        proof {
            lemma_builds_chain(&start, &first, &second);
            lemma_builds_chain(&start, &second, &*self);
            assert forall|x: Assignment| #[trigger] matrix_true(x, self.clauses()) implies lit_true(x, node.lit()) == (if lit_true(
                x,
                cond.lit(),
            ) {
                lit_true(x, a.lit())
            } else {
                lit_true(x, b.lit())
            }) by {
                assert(matrix_true(x, second.clauses()));
                assert(matrix_true(x, first.clauses()));
            }
        }
        node
    }

    /// Binds a term to a variable of its own, which the solver can
    /// determinize and record a Skolem function for.
    pub fn named(&mut self, node: Node) -> (name: Node)
        requires
            old(self).wf(),
            old(self).fresh() < VAR_LIMIT,
            old(self).knows(node),
        ensures
            final(self).builds_on(old(self)),
            final(self).fresh() == old(self).fresh() + 1,
            final(self).knows(name),
            name.lit().v().dimacs() == old(self).fresh(),
            final(self).introduced().contains(name.lit().v()),
            final(self).evaluates(name, |x: Assignment| lit_true(x, node.lit())),
    {
        let mut inputs: Vec<Lit> = Vec::new();
        inputs.push(node.0);
        let gate = self.define_gate(&inputs);
        proof {
            assert forall|x: Assignment| #[trigger] matrix_true(x, self.clauses()) implies lit_true(x, gate) == lit_true(x, node.lit()) by {
                assert(cube_true(x, inputs@) == lit_true(x, inputs@[0]));
            }
        }
        Node(gate)
    }

    /// The literal is a gate that the solver introduced for a term.
    spec fn is_gate(&self, lit: Lit) -> bool {
        &&& lit.pos()
        &&& self.gate_at@.contains_key(lit.v())
        &&& self.gate_at@[lit.v()] < self.gates@.len()
        &&& self.gates@[self.gate_at@[lit.v()] as int].0 == lit
    }

    /// The inputs of a positively-signed gate that the solver introduced
    /// for a term.
    fn gate(&self, lit: Lit) -> (inputs: Option<Vec<Lit>>)
        requires
            self.wf(),
        ensures
            inputs matches Some(inputs) ==> means(self.clauses(), lit, inputs@) && forall|i: int|
                0 <= i < inputs@.len() ==> (#[trigger] inputs@[i]).v().dimacs() < self.fresh(),
            inputs is Some <==> self.is_gate(lit),
            inputs matches Some(inputs) ==> inputs@ == self.gates@[self.gate_at@[lit.v()] as int].1@,
    {
        if !lit.is_positive() {
            return None;
        }
        match self.gate_at.get(lit.var()) {
            Some(index) => {
                if index < self.gates.len() && self.gates[index].0 == lit {
                    assert(means(self.clauses(), self.gates@[index as int].0, self.gates@[index as int].1@));
                    let inputs = copy_lits(&self.gates[index].1);
                    assert forall|i: int| 0 <= i < inputs@.len() implies (#[trigger] inputs@[i]).v().dimacs() < self.fresh() by {
                        assert(self.gates@[index as int].1@[i].v().dimacs() < self.next_var);
                    }
                    Some(inputs)
                } else {
                    None
                }
            },
            None => None,
        }
    }

    /// Asserts a term in the current frame.
    ///
    /// The top-level structure becomes clauses rather than a unit on a
    /// reified literal: a conjunction is asserted conjunct by conjunct, and
    /// a disjunction is flattened into one clause.
    pub fn assert_node(&mut self, node: Node)
        requires
            old(self).wf(),
            old(self).knows(node),
        ensures
            final(self).wf(),
            final(self).stack().len() == old(self).stack().len(),
            final(self).fresh() == old(self).fresh(),
            final(self).blocks() == old(self).blocks(),
            final(self).introduced() == old(self).introduced(),
            final(self).verdict() == old(self).verdict(),
            final(self).goal() == old(self).goal(),
            forall|a: Assignment| #[trigger]
                matrix_true(a, final(self).clauses()) <==> matrix_true(a, old(self).clauses()) && lit_true(a, node.lit()),
    {
        let ghost m = self.clauses();
        let mut conjuncts: Vec<Lit> = Vec::new();
        conjuncts.push(node.0);
        let mut clauses: Vec<Vec<Lit>> = Vec::new();
        let mut budget: u32 = EXPANSION_STEPS;
        proof {
            assert forall|a: Assignment| #[trigger] matrix_true(a, m) implies lit_true(a, node.lit()) == (cube_true(a, conjuncts@)
                && all_true(a, clauses@)) by {
                assert(cube_true(a, conjuncts@) == lit_true(a, conjuncts@[0]));
            }
        }
        while conjuncts.len() > 0
            invariant
                *self == *old(self),
                self.wf(),
                m == self.clauses(),
                forall|i: int| 0 <= i < conjuncts@.len() ==> (#[trigger] conjuncts@[i]).v().dimacs() < self.fresh(),
                forall|i: int, j: int| 0 <= i < clauses@.len() && 0 <= j < clauses@[i]@.len() ==> (#[trigger] clauses@[i]@[j]).v().dimacs() < self.fresh(),
                forall|a: Assignment| #[trigger]
                    matrix_true(a, m) ==> lit_true(a, node.lit()) == (cube_true(a, conjuncts@) && all_true(a, clauses@)),
            decreases budget, conjuncts@.len(),
        {
            let ghost before = conjuncts@;
            let ghost held = clauses@;
            let lit = match conjuncts.pop() {
                Some(lit) => lit,
                None => {
                    return;
                },
            };
            proof {
                assert(before =~= conjuncts@.push(lit));
                assert(before[before.len() - 1] == lit);
                assert forall|i: int| 0 <= i < conjuncts@.len() implies (#[trigger] conjuncts@[i]).v().dimacs() < self.fresh() by {
                    assert(before[i] == conjuncts@[i]);
                }
            }
            let ghost rest = conjuncts@;
            let inputs = if budget > 0 {
                self.gate(lit)
            } else {
                None
            };
            match inputs {
                Some(mut inputs) => {
                    budget = budget - 1;
                    let ghost added = inputs@;
                    conjuncts.append(&mut inputs);
                    proof {
                        assert(conjuncts@ =~= rest + added);
                        assert forall|i: int| 0 <= i < conjuncts@.len() implies (#[trigger] conjuncts@[i]).v().dimacs() < self.fresh() by {
                            if i >= rest.len() {
                                assert(conjuncts@[i] == added[i - rest.len()]);
                            } else {
                                assert(conjuncts@[i] == rest[i]);
                            }
                        }
                        assert forall|a: Assignment| #[trigger] matrix_true(a, m) implies lit_true(a, node.lit()) == (cube_true(
                            a,
                            conjuncts@,
                        ) && all_true(a, clauses@)) by {
                            lemma_cube_push(a, rest, lit);
                            lemma_cube_concat(a, rest, added);
                        }
                    }
                },
                None => {
                    let clause = self.flatten(lit, budget);
                    clauses.push(clause);
                    proof {
                        assert forall|i: int, j: int| 0 <= i < clauses@.len() && 0 <= j < clauses@[i]@.len() implies (
                        #[trigger] clauses@[i]@[j]).v().dimacs() < self.fresh() by {
                            if i < held.len() {
                                assert(clauses@[i] == held[i]);
                                assert(held[i]@[j].v().dimacs() < self.fresh());
                            }
                        }
                        assert forall|a: Assignment| #[trigger] matrix_true(a, m) implies lit_true(a, node.lit()) == (cube_true(
                            a,
                            conjuncts@,
                        ) && all_true(a, clauses@)) by {
                            lemma_cube_push(a, rest, lit);
                            assert(all_true(a, clauses@) == (all_true(a, held) && clause_true(a, clause@))) by {
                                if all_true(a, clauses@) {
                                    assert forall|i: int| 0 <= i < held.len() implies clause_true(a, (#[trigger] held[i])@) by {
                                        assert(clauses@[i] == held[i]);
                                    }
                                    assert(clauses@[held.len() as int] == clause);
                                }
                                if all_true(a, held) && clause_true(a, clause@) {
                                    assert forall|i: int| 0 <= i < clauses@.len() implies clause_true(a, (#[trigger] clauses@[i])@) by {
                                        if i < held.len() {
                                            assert(clauses@[i] == held[i]);
                                        }
                                    }
                                }
                            }
                        }
                    }
                },
            }
        }
        let top = self.frames.len() - 1;
        let mut k: usize = 0;
        proof {
            assert forall|a: Assignment| #[trigger] matrix_true(a, m) implies lit_true(a, node.lit()) == all_true(a, clauses@) by {
                assert(cube_true(a, conjuncts@));
            }
        }
        while k < clauses.len()
            invariant
                k <= clauses@.len(),
                self.wf(),
                top == self.frames@.len() - 1,
                self.stack().len() == old(self).stack().len(),
                self.fresh() == old(self).fresh(),
                self.blocks() == old(self).blocks(),
                self.introduced() == old(self).introduced(),
                self.verdict() == old(self).verdict(),
                self.goal() == old(self).goal(),
                forall|i: int, j: int| 0 <= i < clauses@.len() && 0 <= j < clauses@[i]@.len() ==> (#[trigger] clauses@[i]@[j]).v().dimacs() < self.fresh(),
                forall|a: Assignment| #[trigger]
                    matrix_true(a, self.clauses()) <==> matrix_true(a, m) && forall|i: int| 0 <= i < k ==> clause_true(a, (#[trigger] clauses@[i])@),
            decreases clauses.len() - k,
        {
            let ghost before = self.frames@;
            let ghost held = self.clauses();
            let clause = copy_lits(&clauses[k]);
            assert forall|j: int| 0 <= j < clause@.len() implies (#[trigger] clause@[j]).v().dimacs() < self.next_var by {
                assert(clauses@[k as int]@[j].v().dimacs() < self.fresh());
            }
            self.push_clause(top, clause);
            proof {
                crate::incremental::lemma_top_clause(before, self.frames@, clause@);
                crate::incremental::lemma_same_declarations(before, self.frames@);
                assert forall|a: Assignment| #[trigger] matrix_true(a, self.clauses()) <==> matrix_true(a, m) && forall|i: int|
                    0 <= i < k + 1 ==> clause_true(a, (#[trigger] clauses@[i])@) by {
                    crate::simplify::lemma_push_true(a, held, clause@);
                    assert(matrix_true(a, held) <==> matrix_true(a, m) && forall|i: int|
                        0 <= i < k ==> clause_true(a, (#[trigger] clauses@[i])@));
                }
            }
            k += 1;
        }
        proof {
            assert forall|a: Assignment| #[trigger] matrix_true(a, self.clauses()) <==> matrix_true(a, m) && lit_true(a, node.lit()) by {
                assert(all_true(a, clauses@) == forall|i: int| 0 <= i < clauses@.len() ==> clause_true(a, (#[trigger] clauses@[i])@));
            }
        }
    }

    /// A clause that holds iff the literal does: negated gates are
    /// disjunctions and are flattened.
    fn flatten(&self, lit: Lit, limit: u32) -> (clause: Vec<Lit>)
        requires
            self.wf(),
            lit.v().dimacs() < self.fresh(),
        ensures
            forall|j: int| 0 <= j < clause@.len() ==> (#[trigger] clause@[j]).v().dimacs() < self.fresh(),
            forall|a: Assignment| #[trigger] matrix_true(a, self.clauses()) ==> lit_true(a, lit) == clause_true(a, clause@),
    {
        let ghost m = self.clauses();
        let mut budget = limit;
        let mut clause: Vec<Lit> = Vec::new();
        let mut pending: Vec<Lit> = Vec::new();
        pending.push(lit);
        proof {
            assert forall|a: Assignment| #[trigger] matrix_true(a, m) implies lit_true(a, lit) == (clause_true(a, pending@)
                || clause_true(a, clause@)) by {
                lemma_clause_push(a, Seq::empty(), lit);
                assert(pending@ =~= Seq::<Lit>::empty().push(lit));
            }
        }
        while pending.len() > 0
            invariant
                self.wf(),
                m == self.clauses(),
                forall|j: int| 0 <= j < clause@.len() ==> (#[trigger] clause@[j]).v().dimacs() < self.fresh(),
                forall|j: int| 0 <= j < pending@.len() ==> (#[trigger] pending@[j]).v().dimacs() < self.fresh(),
                forall|a: Assignment| #[trigger]
                    matrix_true(a, m) ==> lit_true(a, lit) == (clause_true(a, pending@) || clause_true(a, clause@)),
            decreases budget, pending@.len(),
        {
            let ghost before = pending@;
            let ghost held = clause@;
            let term = match pending.pop() {
                Some(term) => term,
                None => {
                    return clause;
                },
            };
            let ghost rest = pending@;
            proof {
                assert(before =~= rest.push(term));
                assert(before[before.len() - 1] == term);
                assert forall|j: int| 0 <= j < rest.len() implies (#[trigger] rest[j]).v().dimacs() < self.fresh() by {
                    assert(before[j] == rest[j]);
                }
            }
            let inputs = if budget > 0 {
                self.gate(term.negated())
            } else {
                None
            };
            match inputs {
                Some(inputs) => {
                    budget = budget - 1;
                    let mut negated = crate::incdet::state::negate_all(&inputs);
                    let ghost added = negated@;
                    pending.append(&mut negated);
                    proof {
                        assert(pending@ =~= rest + added);
                        assert forall|j: int| 0 <= j < pending@.len() implies (#[trigger] pending@[j]).v().dimacs() < self.fresh() by {
                            if j >= rest.len() {
                                assert(pending@[j] == added[j - rest.len()]);
                                assert(inputs@[j - rest.len()].v().dimacs() < self.fresh());
                            } else {
                                assert(pending@[j] == rest[j]);
                            }
                        }
                        assert forall|a: Assignment| #[trigger] matrix_true(a, m) implies lit_true(a, lit) == (clause_true(a, pending@)
                            || clause_true(a, clause@)) by {
                            lemma_clause_push(a, rest, term);
                            lemma_clause_concat(a, rest, added);
                            lemma_negated_cube(a, inputs@, added);
                            assert(lit_true(a, term.neg()) == cube_true(a, inputs@));
                        }
                    }
                },
                None => {
                    clause.push(term);
                    proof {
                        assert forall|a: Assignment| #[trigger] matrix_true(a, m) implies lit_true(a, lit) == (clause_true(a, pending@)
                            || clause_true(a, clause@)) by {
                            lemma_clause_push(a, rest, term);
                            lemma_clause_push(a, held, term);
                        }
                    }
                },
            }
        }
        proof {
            assert forall|a: Assignment| #[trigger] matrix_true(a, m) implies lit_true(a, lit) == clause_true(a, clause@) by {
                assert(!clause_true(a, pending@));
            }
        }
        clause
    }

    proof fn lemma_truth(&self, a: Assignment)
        requires
            self.wf(),
            matrix_true(a, self.clauses()),
        ensures
            self.truth matches Some(truth) ==> lit_true(a, truth),
    {
        if self.truth is Some {
            let truth = self.truth->0;
            let unit = seq![truth];
            assert(clause_true(a, unit));
            let i = choose|i: int| 0 <= i < unit.len() && lit_true(a, #[trigger] unit[i]);
            assert(unit[i] == truth);
        }
    }
}

/// How many gates an assertion takes apart.
pub const EXPANSION_STEPS: u32 = 65_536;

/// All clauses hold.
spec fn all_true(a: Assignment, clauses: Seq<Vec<Lit>>) -> bool {
    forall|i: int| 0 <= i < clauses.len() ==> clause_true(a, (#[trigger] clauses[i])@)
}

proof fn lemma_builds_chain(start: &IncrementalSolver, middle: &IncrementalSolver, end: &IncrementalSolver)
    requires
        middle.builds_on(start),
        end.builds_on(middle),
    ensures
        end.builds_on(start),
{
    lemma_defines_chain(start.clauses(), middle.clauses(), end.clauses(), start.fresh(), middle.fresh());
    assert forall|x: Var| #[trigger] start.introduced().contains(x) implies end.introduced().contains(x) by {
        assert(middle.introduced().contains(x));
    }
    assert forall|x: Var| #[trigger] end.introduced().contains(x) implies start.introduced().contains(x) || x.dimacs() >= start.fresh() by {
        if middle.introduced().contains(x) {
            assert(start.introduced().contains(x) || x.dimacs() >= start.fresh());
        }
    }
}

proof fn lemma_same_cube(a: Assignment, c: Seq<Lit>, d: Seq<Lit>)
    requires
        crate::simplify::same_lits(c, d),
    ensures
        cube_true(a, c) == cube_true(a, d),
{
    if cube_true(a, c) {
        assert forall|i: int| 0 <= i < d.len() implies lit_true(a, #[trigger] d[i]) by {
            assert(d.contains(d[i]));
            assert(c.contains(d[i]));
            let j = choose|j: int| 0 <= j < c.len() && c[j] == d[i];
            assert(lit_true(a, c[j]));
        }
    }
    if cube_true(a, d) {
        assert forall|i: int| 0 <= i < c.len() implies lit_true(a, #[trigger] c[i]) by {
            assert(c.contains(c[i]));
            assert(d.contains(c[i]));
            let j = choose|j: int| 0 <= j < d.len() && d[j] == c[i];
            assert(lit_true(a, d[j]));
        }
    }
}

proof fn lemma_cube_push(a: Assignment, c: Seq<Lit>, l: Lit)
    ensures
        cube_true(a, c.push(l)) <==> cube_true(a, c) && lit_true(a, l),
{
    let d = c.push(l);
    if cube_true(a, d) {
        assert forall|i: int| 0 <= i < c.len() implies lit_true(a, #[trigger] c[i]) by {
            assert(d[i] == c[i]);
        }
        assert(d[c.len() as int] == l);
    }
    if cube_true(a, c) && lit_true(a, l) {
        assert forall|i: int| 0 <= i < d.len() implies lit_true(a, #[trigger] d[i]) by {
            if i < c.len() {
                assert(d[i] == c[i]);
            }
        }
    }
}

proof fn lemma_cube_concat(a: Assignment, c: Seq<Lit>, d: Seq<Lit>)
    ensures
        cube_true(a, c + d) <==> cube_true(a, c) && cube_true(a, d),
{
    let all = c + d;
    if cube_true(a, all) {
        assert forall|i: int| 0 <= i < c.len() implies lit_true(a, #[trigger] c[i]) by {
            assert(all[i] == c[i]);
        }
        assert forall|i: int| 0 <= i < d.len() implies lit_true(a, #[trigger] d[i]) by {
            assert(all[c.len() + i] == d[i]);
        }
    }
    if cube_true(a, c) && cube_true(a, d) {
        assert forall|i: int| 0 <= i < all.len() implies lit_true(a, #[trigger] all[i]) by {
            if i < c.len() {
                assert(all[i] == c[i]);
            } else {
                assert(all[i] == d[i - c.len()]);
            }
        }
    }
}

proof fn lemma_clause_push(a: Assignment, c: Seq<Lit>, l: Lit)
    ensures
        clause_true(a, c.push(l)) <==> clause_true(a, c) || lit_true(a, l),
{
    let d = c.push(l);
    if clause_true(a, c) {
        let i = choose|i: int| 0 <= i < c.len() && lit_true(a, #[trigger] c[i]);
        assert(d[i] == c[i]);
    }
    if lit_true(a, l) {
        assert(d[c.len() as int] == l);
    }
    if clause_true(a, d) {
        let i = choose|i: int| 0 <= i < d.len() && lit_true(a, #[trigger] d[i]);
        if i < c.len() {
            assert(c[i] == d[i]);
        }
    }
}

proof fn lemma_clause_concat(a: Assignment, c: Seq<Lit>, d: Seq<Lit>)
    ensures
        clause_true(a, c + d) <==> clause_true(a, c) || clause_true(a, d),
{
    let all = c + d;
    if clause_true(a, c) {
        let i = choose|i: int| 0 <= i < c.len() && lit_true(a, #[trigger] c[i]);
        assert(all[i] == c[i]);
    }
    if clause_true(a, d) {
        let i = choose|i: int| 0 <= i < d.len() && lit_true(a, #[trigger] d[i]);
        assert(all[c.len() + i] == d[i]);
    }
    if clause_true(a, all) {
        let i = choose|i: int| 0 <= i < all.len() && lit_true(a, #[trigger] all[i]);
        if i < c.len() {
            assert(c[i] == all[i]);
        } else {
            assert(d[i - c.len()] == all[i]);
        }
    }
}

proof fn lemma_negated_cube(a: Assignment, c: Seq<Lit>, d: Seq<Lit>)
    requires
        d.len() == c.len(),
        forall|i: int| 0 <= i < c.len() ==> #[trigger] d[i] == c[i].neg(),
    ensures
        clause_true(a, d) == !cube_true(a, c),
{
    if clause_true(a, d) {
        let i = choose|i: int| 0 <= i < d.len() && lit_true(a, #[trigger] d[i]);
        assert(d[i] == c[i].neg());
        assert(!lit_true(a, c[i]));
    }
    if !cube_true(a, c) {
        let i = choose|i: int| 0 <= i < c.len() && !lit_true(a, #[trigger] c[i]);
        assert(d[i] == c[i].neg());
        assert(lit_true(a, d[i]));
    }
}

} // verus!
