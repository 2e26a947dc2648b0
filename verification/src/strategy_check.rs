//! Checking a strategy against the formula it is for.
//!
//! The strategy circuit is encoded into clauses alongside the matrix, and
//! the queries ask for an assignment of the universal variables that
//! falsifies a clause, one clause at a time.
use crate::datastructure::VarMap;
use crate::incdet::aig::{wire, AigBuilder, MAX_GRAPH};
use crate::incdet::cegar::negate;
use crate::incdet::circuit::{point, wires_ok};
use crate::incdet::conflict::check::{clauses_below, lits_below};
use crate::incdet::model::{agrees, SkolemModel};
use crate::literal::{Lit, Var, MAX_INDEX};
use crate::qcnf::QCNF;
use crate::quantifier::QuantTy;
use crate::render::{lemma_strategy_circuit, sorted_outputs, strategy_circuit};
use crate::sat::{SatOutcome, SatSolver};
use crate::semantics::{
    bound_by, clause_mentions, clause_true, cube_true, lemma_matrix_coincide, lit_true, matrix_true, mentions,
    Assignment, Matrix, Prefix,
};
use crate::simplify::lemma_push_true;
use crate::strategy::Strategy;
use crate::strategy_circuit::{bounded, computes_at, roomy};
use std::rc::Rc;
use vstd::prelude::*;

verus! {

broadcast use crate::literal::group_literal;

/// The values that the inputs of a circuit have, one per variable; where a
/// variable is listed twice the later input counts.
pub open spec fn input_values(universals: Seq<Var>, env: Seq<bool>) -> Map<Var, bool>
    decreases universals.len(),
{
    if universals.len() == 0 {
        Map::empty()
    } else {
        input_values(universals.drop_last(), env).insert(universals.last(), env[universals.len() - 1])
    }
}

/// The values of the variables under an assignment, in order.
pub open spec fn env_of(universals: Seq<Var>, a: Assignment) -> Seq<bool> {
    Seq::new(universals.len(), |i: int| a(universals[i]))
}

/// The values of the listed variables under an assignment.
pub open spec fn restricted_to(universals: Seq<Var>, a: Assignment) -> Map<Var, bool> {
    Map::new(|x: Var| universals.contains(x), |x: Var| a(x))
}

/// Inputs that take the values of an assignment read as the assignment.
proof fn lemma_input_values(universals: Seq<Var>, a: Assignment, n: nat)
    requires
        n <= universals.len(),
    ensures
        input_values(universals.take(n as int), env_of(universals, a)) == restricted_to(universals.take(n as int), a),
    decreases n,
{
    let part = universals.take(n as int);
    if n > 0 {
        let front = universals.take(n - 1);
        assert(part.drop_last() =~= front);
        lemma_input_values(universals, a, (n - 1) as nat);
        assert(part =~= front.push(universals[n - 1]));
        assert forall|x: Var| part.contains(x) <==> front.contains(x) || x == universals[n - 1] by {
            crate::datastructure::lemma_push_contains(front, universals[n - 1], x);
        }
        assert(input_values(part, env_of(universals, a)) =~= restricted_to(part, a));
    } else {
        assert(input_values(part, env_of(universals, a)) =~= restricted_to(part, a));
    }
}

impl Strategy {
    /// Builds the strategy into a fresh graph whose inputs are the given
    /// universal variables, and returns it together with the output wire
    /// of every variable the strategy determines.
    pub(crate) fn build(&self, universals: &Vec<Var>) -> (result: (AigBuilder, VarMap<u64>))
        requires
            universals@.len() < MAX_GRAPH,
        ensures
            result.0.wf(),
            result.0.spec_inputs() == universals@.len(),
            wires_ok(&result.0, result.1@),
            forall|set: Set<Var>| #[trigger] names_within(*self, set) ==> result.0.spec_gates().len() <= self.gate_bound(set.len())
                && forall|x: Var| #[trigger] result.1@.contains_key(x) ==> set.contains(x),
            !result.0.spec_full() ==> forall|env: Seq<bool>|
                env.len() == universals@.len() ==> #[trigger] point(result.0.spec_gates(), env, result.1@) == self.circuit(
                    input_values(universals@, env),
                    Map::empty(),
                ),
    {
        let mut aig = AigBuilder::new(universals.len());
        let mut inputs: VarMap<u64> = VarMap::new();
        let mut k: usize = 0;
        let ghost gates = aig.spec_gates();
        assert(universals@.take(0) =~= Seq::<Var>::empty());
        proof {
            assert forall|env: Seq<bool>| #[trigger] point(gates, env, inputs@) == Map::<Var, bool>::empty() by {
                assert(point(gates, env, inputs@) =~= Map::empty());
            }
        }
        while k < universals.len()
            invariant
                k <= universals@.len(),
                universals@.len() < MAX_GRAPH,
                aig.wf(),
                aig.spec_inputs() == universals@.len(),
                gates == aig.spec_gates(),
                gates.len() == 0,
                wires_ok(&aig, inputs@),
                forall|env: Seq<bool>|
                    env.len() == universals@.len() ==> #[trigger] point(gates, env, inputs@) == input_values(
                        universals@.take(k as int),
                        env,
                    ),
            decreases universals.len() - k,
        {
            let var = universals[k];
            let lit = AigBuilder::input(k);
            let ghost before = inputs@;
            inputs.insert(var, lit);
            proof {
                let part = universals@.take(k as int);
                let next = universals@.take(k as int + 1);
                assert(next.drop_last() =~= part);
                assert(next.last() == var);
                assert forall|env: Seq<bool>| env.len() == universals@.len() implies #[trigger] point(gates, env, inputs@)
                    == input_values(next, env) by {
                    assert(point(gates, env, before) == input_values(part, env));
                    assert(wire(gates, env, lit as int) == env[k as int]);
                    assert(point(gates, env, inputs@) =~= point(gates, env, before).insert(var, env[k as int]));
                }
                assert forall|x: Var| #[trigger] inputs@.contains_key(x) implies aig.has(inputs@[x]) by {
                    if x != var {
                        assert(before.contains_key(x));
                    }
                }
            }
            k += 1;
        }
        assert(universals@.take(universals@.len() as int) =~= universals@);
        let mut values: VarMap<u64> = VarMap::new();
        let ghost start = aig;
        let ghost none = values@;
        self.build_into(&mut aig, &inputs, &mut values);
        proof {
            assert forall|set: Set<Var>| #[trigger] names_within(*self, set) implies aig.spec_gates().len() <= self.gate_bound(set.len())
                && forall|x: Var| #[trigger] values@.contains_key(x) ==> set.contains(x) by {
                assert(roomy(*self, none, set));
                assert(bounded(*self, &start, &aig, values@, set));
            }
            if !aig.spec_full() {
                assert forall|env: Seq<bool>| env.len() == universals@.len() implies #[trigger] point(
                    aig.spec_gates(),
                    env,
                    values@,
                ) == self.circuit(input_values(universals@, env), Map::empty()) by {
                    assert(computes_at(*self, &start, &aig, inputs@, none, values@, env));
                    assert(point(start.spec_gates(), env, none) =~= Map::empty());
                }
            }
        }
        (aig, values)
    }

    /// The size of the circuit this strategy compiles to, in and-gates.
    pub fn gates(&self, universals: &Vec<Var>) -> (gates: usize)
        requires
            universals@.len() < MAX_GRAPH,
        ensures
            gates < MAX_GRAPH,
            exists|graph: Seq<(u64, u64, u64)>, outputs: Seq<(Var, u64)>| #[trigger]
                strategy_circuit(*self, universals@, graph, outputs) && gates == graph.len(),
    {
        let (aig, values) = self.build(universals);
        let outputs = sorted_outputs(&values);
        proof {
            aig.lemma_wf();
            lemma_strategy_circuit(*self, universals@, &aig, values@, outputs@);
        }
        aig.gates().len()
    }
}

/// The universal variables of the prefix, in order.
pub open spec fn universals_of(p: Prefix) -> Seq<Var>
    decreases p.len(),
{
    if p.len() == 0 {
        Seq::empty()
    } else if p.last().0 == QuantTy::Forall {
        universals_of(p.drop_last()) + p.last().1
    } else {
        universals_of(p.drop_last())
    }
}

/// The universal variables of the prefix are those bound universally.
pub proof fn lemma_universals_of(p: Prefix, x: Var)
    ensures
        universals_of(p).contains(x) <==> bound_by(p, QuantTy::Forall, x),
    decreases p.len(),
{
    if p.len() > 0 {
        let h = p.drop_last();
        lemma_universals_of(h, x);
        crate::semantics::lemma_concat_contains(universals_of(h), p.last().1, x);
        if bound_by(h, QuantTy::Forall, x) {
            let i = choose|i: int| 0 <= i < h.len() && (#[trigger] h[i]).0 == QuantTy::Forall && h[i].1.contains(x);
            assert(p[i].0 == QuantTy::Forall && p[i].1.contains(x));
        }
        if p.last().0 == QuantTy::Forall && p.last().1.contains(x) {
            assert(p[p.len() - 1].0 == QuantTy::Forall && p[p.len() - 1].1.contains(x));
        }
        if bound_by(p, QuantTy::Forall, x) {
            let i = choose|i: int| 0 <= i < p.len() && (#[trigger] p[i]).0 == QuantTy::Forall && p[i].1.contains(x);
            if i < h.len() {
                assert(h[i].0 == QuantTy::Forall && h[i].1.contains(x));
            }
        }
    }
}

impl QCNF {
    /// The universal variables, in the order of the prefix.
    pub fn universals(&self) -> (universals: Vec<Var>)
        ensures
            universals@ == universals_of(self.blocks()),
    {
        let ghost p = self.blocks();
        let mut universals: Vec<Var> = Vec::new();
        let mut i: usize = 0;
        assert(p.take(0) =~= Prefix::empty());
        while i < self.prefix.len()
            invariant
                i <= self.prefix@.len(),
                p == self.blocks(),
                universals@ == universals_of(p.take(i as int)),
            decreases self.prefix.len() - i,
        {
            proof {
                let next = p.take(i as int + 1);
                assert(next.drop_last() =~= p.take(i as int));
                assert(next.last() == p[i as int]);
            }
            if self.prefix[i].0 == QuantTy::Forall {
                let ghost before = universals@;
                let vars = &self.prefix[i].1;
                let mut j: usize = 0;
                while j < vars.len()
                    invariant
                        j <= vars@.len(),
                        universals@ =~= before + vars@.take(j as int),
                    decreases vars.len() - j,
                {
                    universals.push(vars[j]);
                    j += 1;
                }
                assert(vars@.take(vars@.len() as int) =~= vars@);
            }
            i += 1;
        }
        assert(p.take(p.len() as int) =~= p);
        universals
    }
}

/// The circuit of the strategy wins: whatever the universal player does,
/// the values it computes satisfy every clause, with any values for the
/// variables it leaves out.
pub open spec fn circuit_wins(strategy: Strategy, p: Prefix, m: Matrix) -> bool {
    forall|a: Assignment| #[trigger] circuit_follows(strategy, p, a) ==> matrix_true(a, m)
}

/// The assignment takes the values the circuit computes from its universal
/// variables.
pub open spec fn circuit_follows(strategy: Strategy, p: Prefix, a: Assignment) -> bool {
    agrees(a, strategy.circuit(restricted_to(universals_of(p), a), Map::empty()))
}

/// The variables that stand for the gates of a circuit: the constant one,
/// and one variable per gate, numbered from a base on.
struct Encoding {
    universals: Vec<Var>,
    base: u32,
    gates: Ghost<Seq<(u64, u64, u64)>>,
}

impl Encoding {
    spec fn wf(&self) -> bool {
        &&& self.base + 1 + self.gates@.len() <= MAX_INDEX + 1
        &&& self.universals@.len() + self.gates@.len() < MAX_GRAPH
        &&& forall|i: int| 0 <= i < self.universals@.len() ==> (#[trigger] self.universals@[i]).id() < self.base
    }

    /// The assignment gives the constant and the gates before `n` their
    /// values.
    spec fn true_of(&self, a: Assignment, n: int) -> bool {
        &&& forall|x: Var| x.id() == self.base ==> #[trigger] a(x)
        &&& forall|x: Var|
            self.base + 1 <= x.id() < self.base + 1 + n ==> #[trigger] a(x) == wire(
                self.gates@,
                env_of(self.universals@, a),
                2 * (self.universals@.len() + x.id() - self.base),
            )
    }

    /// The literal that stands for a literal of the graph.
    fn lit(&self, lit: u64) -> (result: Lit)
        requires
            self.wf(),
            lit / 2 <= self.universals@.len() + self.gates@.len(),
        ensures
            forall|a: Assignment|
                #![trigger lit_true(a, result)]
                self.true_of(a, lit / 2 - self.universals@.len()) ==> lit_true(a, result) == wire(
                    self.gates@,
                    env_of(self.universals@, a),
                    lit as int,
                ),
            result.v().id() <= self.base || result.v().id() == self.base + lit / 2 - self.universals@.len(),
    {
        let var = lit / 2;
        let base = if var == 0 {
            Var::from_index(self.base)
        } else if var <= self.universals.len() as u64 {
            let position = (var - 1) as usize;
            self.universals[position]
        } else {
            Var::from_index(self.base + (var - self.universals.len() as u64) as u32)
        };
        // the constant variable is true, so it stands for the literal one
        let positive = if var == 0 {
            lit % 2 == 1
        } else {
            lit % 2 == 0
        };
        let result = Lit::from_var(base, positive);
        proof {
            assert forall|a: Assignment|
                #![trigger lit_true(a, result)]
                self.true_of(a, var - self.universals@.len()) implies lit_true(a, result) == wire(
                self.gates@,
                env_of(self.universals@, a),
                lit as int,
            ) by {
                let env = env_of(self.universals@, a);
                if var == 0 {
                    assert(a(base));
                } else if var <= self.universals@.len() {
                    assert(env[var - 1] == a(base));
                } else {
                    assert(a(base) == wire(self.gates@, env, 2 * (self.universals@.len() + base.id() - self.base)));
                    assert(2 * (self.universals@.len() + base.id() - self.base) == 2 * var);
                    if lit % 2 == 1 {
                        assert(lit == 2 * var + 1);
                        lemma_odd(self.gates@, env, var as int);
                    }
                }
            }
        }
        result
    }
}

proof fn lemma_odd(gates: Seq<(u64, u64, u64)>, env: Seq<bool>, var: int)
    requires
        var >= 0,
    ensures
        wire(gates, env, 2 * var + 1) == !wire(gates, env, 2 * var),
{
    assert((2 * var + 1) / 2 == var);
    assert((2 * var) / 2 == var);
}

/// Three literals as a clause, and two.
fn clause3(a: Lit, b: Lit, c: Lit) -> (clause: Vec<Lit>)
    ensures
        clause@ == seq![a, b, c],
        forall|e: Assignment| #[trigger] clause_true(e, clause@) == (lit_true(e, a) || lit_true(e, b) || lit_true(e, c)),
{
    let mut clause: Vec<Lit> = Vec::new();
    clause.push(a);
    clause.push(b);
    clause.push(c);
    assert(clause@ =~= seq![a, b, c]);
    proof {
        assert forall|e: Assignment| #[trigger] clause_true(e, clause@) == (lit_true(e, a) || lit_true(e, b) || lit_true(e, c)) by {
            assert(clause@[0] == a && clause@[1] == b && clause@[2] == c);
            if clause_true(e, clause@) {
                let i = choose|i: int| 0 <= i < clause@.len() && lit_true(e, #[trigger] clause@[i]);
                assert(i == 0 || i == 1 || i == 2);
            }
        }
    }
    clause
}

fn clause2(a: Lit, b: Lit) -> (clause: Vec<Lit>)
    ensures
        clause@ == seq![a, b],
        forall|e: Assignment| #[trigger] clause_true(e, clause@) == (lit_true(e, a) || lit_true(e, b)),
{
    let mut clause: Vec<Lit> = Vec::new();
    clause.push(a);
    clause.push(b);
    assert(clause@ =~= seq![a, b]);
    proof {
        assert forall|e: Assignment| #[trigger] clause_true(e, clause@) == (lit_true(e, a) || lit_true(e, b)) by {
            assert(clause@[0] == a && clause@[1] == b);
            if clause_true(e, clause@) {
                let i = choose|i: int| 0 <= i < clause@.len() && lit_true(e, #[trigger] clause@[i]);
                assert(i == 0 || i == 1);
            }
        }
    }
    clause
}

fn clause1(a: Lit) -> (clause: Vec<Lit>)
    ensures
        clause@ == seq![a],
        forall|e: Assignment| #[trigger] clause_true(e, clause@) == lit_true(e, a),
{
    let mut clause: Vec<Lit> = Vec::new();
    clause.push(a);
    assert(clause@ =~= seq![a]);
    proof {
        assert forall|e: Assignment| #[trigger] clause_true(e, clause@) == lit_true(e, a) by {
            assert(clause@[0] == a);
        }
    }
    clause
}

/// All variables of the clauses, of the map and of the list are below an
/// index.
spec fn all_below(m: Matrix, values: Map<Var, u64>, universals: Seq<Var>, n: int) -> bool {
    &&& forall|x: Var| #[trigger] mentions(m, x) ==> x.id() < n
    &&& forall|x: Var| #[trigger] values.contains_key(x) ==> x.id() < n
    &&& forall|i: int| 0 <= i < universals.len() ==> (#[trigger] universals[i]).id() < n
}

/// The back end has numbers for the variables of a formula and of a model,
/// and for as many gates as the circuit of the model can have.
pub open spec fn leaf_numbered(p: Prefix, m: Matrix, model: SkolemModel) -> bool {
    &&& universals_of(p).len() + model.gate_bound() + 1 < MAX_GRAPH
    &&& exists|n: int| #[trigger] leaf_below(p, m, model, n) && n + model.gate_bound() + 1 <= crate::sat::MAX_NUMBER
}

/// All variables of a formula and of a model are below an index.
pub open spec fn leaf_below(p: Prefix, m: Matrix, model: SkolemModel, n: int) -> bool {
    &&& 0 <= n
    &&& forall|x: Var| #[trigger] mentions(m, x) ==> x.id() < n
    &&& forall|x: Var| #[trigger] model.defines(x) ==> x.id() < n
    &&& forall|i: int| 0 <= i < universals_of(p).len() ==> (#[trigger] universals_of(p)[i]).id() < n
}

/// A finite set holds the variables that the strategy names.
pub open spec fn names_within(strategy: Strategy, set: Set<Var>) -> bool {
    set.finite() && forall|x: Var| #[trigger] strategy.names(x) ==> set.contains(x)
}

/// All variables of a formula and of a set are below an index.
pub open spec fn formula_below(p: Prefix, m: Matrix, set: Set<Var>, n: int) -> bool {
    &&& 0 <= n
    &&& forall|x: Var| #[trigger] mentions(m, x) ==> x.id() < n
    &&& forall|x: Var| #[trigger] set.contains(x) ==> x.id() < n
    &&& forall|i: int| 0 <= i < universals_of(p).len() ==> (#[trigger] universals_of(p)[i]).id() < n
}

/// With the variables of the set and below the index, the back end has
/// numbers for the formula and for as many gates as the circuit of the
/// strategy can have.
pub open spec fn room_for(strategy: Strategy, p: Prefix, m: Matrix, set: Set<Var>, n: int) -> bool {
    &&& names_within(strategy, set)
    &&& formula_below(p, m, set, n)
    &&& universals_of(p).len() + strategy.gate_bound(set.len()) + 1 < MAX_GRAPH
    &&& n + strategy.gate_bound(set.len()) + 1 <= crate::sat::MAX_NUMBER
}

/// The back end can number the circuit of the strategy beside the formula.
pub open spec fn numbered_circuit(strategy: Strategy, p: Prefix, m: Matrix) -> bool {
    exists|set: Set<Var>, n: int| #[trigger] room_for(strategy, p, m, set, n)
}

proof fn lemma_fits(strategy: Strategy, p: Prefix, m: Matrix, aig: &AigBuilder, values: Map<Var, u64>)
    requires
        numbered_circuit(strategy, p, m),
        aig.spec_inputs() == universals_of(p).len(),
        forall|set: Set<Var>| #[trigger] names_within(strategy, set) ==> aig.spec_gates().len() <= strategy.gate_bound(set.len())
            && forall|x: Var| #[trigger] values.contains_key(x) ==> set.contains(x),
    ensures
        aig.spec_inputs() + aig.spec_gates().len() + 1 < MAX_GRAPH,
        forall|base: int|
            (forall|n: int| 0 <= n && #[trigger] all_below(m, values, universals_of(p), n) ==> base <= n) ==> #[trigger] (base + 1)
                + aig.spec_gates().len() <= crate::sat::MAX_NUMBER,
{
    let (set, n) = choose|set: Set<Var>, n: int| #[trigger] room_for(strategy, p, m, set, n);
    assert(names_within(strategy, set));
    assert(all_below(m, values, universals_of(p), n));
}

/// A model whose circuit can be numbered is a strategy whose circuit can.
pub proof fn lemma_leaf_numbered(model: Rc<SkolemModel>, p: Prefix, m: Matrix)
    ensures
        leaf_numbered(p, m, *model) ==> numbered_circuit(Strategy::Leaf(model), p, m),
{
    assert forall|n: int| #[trigger] leaf_below(p, m, *model, n) && n + model.gate_bound() + 1 <= crate::sat::MAX_NUMBER
        && leaf_numbered(p, m, *model) implies numbered_circuit(Strategy::Leaf(model), p, m) by {
        let strategy = Strategy::Leaf(model);
        let set = Set::new(|x: Var| model.defines(x));
        lemma_finite_below(set, n);
        assert(names_within(strategy, set));
        assert(room_for(strategy, p, m, set, n));
    }
}

/// Variables below an index are finitely many.
proof fn lemma_finite_below(set: Set<Var>, n: int)
    requires
        forall|x: Var| #[trigger] set.contains(x) ==> x.id() < n,
    ensures
        set.finite(),
{
    let ids = set.map(|x: Var| x.id());
    vstd::set_lib::lemma_int_range(0, if n > 0 { n } else { 0 });
    assert(ids.subset_of(vstd::set_lib::set_int_range(0, if n > 0 { n } else { 0 }))) by {
        assert forall|i: int| #[trigger] ids.contains(i) implies 0 <= i < n by {
            let x = choose|x: Var| set.contains(x) && x.id() == i;
        }
    }
    vstd::set_lib::lemma_len_subset(ids, vstd::set_lib::set_int_range(0, if n > 0 { n } else { 0 }));
    let back = ids.map(|i: int| crate::literal::var_of(i + 1));
    ids.lemma_map_finite(|i: int| crate::literal::var_of(i + 1));
    assert(set =~= back) by {
        assert forall|x: Var| set.contains(x) == back.contains(x) by {
            if set.contains(x) {
                assert(ids.contains(x.id()));
                crate::literal::lemma_var_of(x);
                assert(back.contains(crate::literal::var_of(x.id() + 1)));
            }
            if back.contains(x) {
                let i = choose|i: int| ids.contains(i) && crate::literal::var_of(i + 1) == x;
                let y = choose|y: Var| set.contains(y) && y.id() == i;
                crate::literal::lemma_var_of(y);
            }
        }
    }
}

/// An index above all variables of the formula and of the map.
fn index_above(qcnf: &QCNF, values: &VarMap<u64>, universals: &Vec<Var>) -> (index: u32)
    ensures
        index <= MAX_INDEX + 1,
        forall|x: Var| #[trigger] mentions(qcnf.clauses(), x) ==> x.id() < index,
        forall|x: Var| #[trigger] values@.contains_key(x) ==> x.id() < index,
        forall|i: int| 0 <= i < universals@.len() ==> (#[trigger] universals@[i]).id() < index,
        forall|n: int| 0 <= n && #[trigger] all_below(qcnf.clauses(), values@, universals@, n) ==> index <= n,
{
    let occurring = crate::simplify::occurring_vars(&qcnf.matrix);
    let mut index: u32 = 0;
    let mut i: usize = 0;
    let ghost m = qcnf.clauses();
    while i < qcnf.matrix.len()
        invariant
            i <= qcnf.matrix@.len(),
            m == qcnf.clauses(),
            index <= MAX_INDEX + 1,
            forall|n: int| 0 <= n && #[trigger] all_below(m, values@, universals@, n) ==> index <= n,
            forall|k: int, x: Var| 0 <= k < i && #[trigger] clause_mentions(m[k], x) ==> x.id() < index,
        decreases qcnf.matrix.len() - i,
    {
        let mut j: usize = 0;
        while j < qcnf.matrix[i].len()
            invariant
                i < qcnf.matrix@.len(),
                m == qcnf.clauses(),
                j <= m[i as int].len(),
                index <= MAX_INDEX + 1,
                forall|n: int| 0 <= n && #[trigger] all_below(m, values@, universals@, n) ==> index <= n,
                forall|k: int, x: Var| 0 <= k < i && #[trigger] clause_mentions(m[k], x) ==> x.id() < index,
                forall|k: int| 0 <= k < j ==> (#[trigger] m[i as int][k]).v().id() < index,
            decreases m[i as int].len() - j,
        {
            let own = qcnf.matrix[i][j].var().as_index();
            proof {
                assert(m[i as int][j as int].v().id() == own);
                assert(clause_mentions(m[i as int], m[i as int][j as int].v()));
                assert(mentions(m, m[i as int][j as int].v()));
                assert forall|n: int| 0 <= n && #[trigger] all_below(m, values@, universals@, n) implies own < n by {}
            }
            if own >= index as usize {
                index = own as u32 + 1;
            }
            j += 1;
        }
        proof {
            assert forall|k: int, x: Var| 0 <= k < i + 1 && #[trigger] clause_mentions(m[k], x) implies x.id() < index by {
                if k == i {
                    let n = choose|n: int| 0 <= n < m[k].len() && (#[trigger] m[k][n]).v() == x;
                    assert(m[i as int][n].v().id() < index);
                }
            }
        }
        i += 1;
    }
    let keys = values.keys();
    let mut i: usize = 0;
    while i < keys.len()
        invariant
            i <= keys@.len(),
            m == qcnf.clauses(),
            index <= MAX_INDEX + 1,
            forall|x: Var| #[trigger] values@.contains_key(x) <==> keys@.contains(x),
            forall|n: int| 0 <= n && #[trigger] all_below(m, values@, universals@, n) ==> index <= n,
            forall|k: int, x: Var| 0 <= k < m.len() && #[trigger] clause_mentions(m[k], x) ==> x.id() < index,
            forall|k: int| 0 <= k < i ==> (#[trigger] keys@[k]).id() < index,
        decreases keys.len() - i,
    {
        let own = keys[i].as_index();
        proof {
            assert(keys@.contains(keys@[i as int]));
            assert(values@.contains_key(keys@[i as int]));
            assert forall|n: int| 0 <= n && #[trigger] all_below(m, values@, universals@, n) implies own < n by {}
        }
        if own >= index as usize {
            index = own as u32 + 1;
        }
        i += 1;
    }
    let mut i: usize = 0;
    while i < universals.len()
        invariant
            i <= universals@.len(),
            m == qcnf.clauses(),
            index <= MAX_INDEX + 1,
            forall|n: int| 0 <= n && #[trigger] all_below(m, values@, universals@, n) ==> index <= n,
            forall|k: int, x: Var| 0 <= k < m.len() && #[trigger] clause_mentions(m[k], x) ==> x.id() < index,
            forall|k: int| 0 <= k < keys@.len() ==> (#[trigger] keys@[k]).id() < index,
            forall|k: int| 0 <= k < i ==> (#[trigger] universals@[k]).id() < index,
        decreases universals.len() - i,
    {
        let own = universals[i].as_index();
        proof {
            assert(universals@[i as int].id() == own);
            assert forall|n: int| 0 <= n && #[trigger] all_below(m, values@, universals@, n) implies own < n by {}
        }
        if own >= index as usize {
            index = own as u32 + 1;
        }
        i += 1;
    }
    proof {
        assert forall|x: Var| #[trigger] mentions(m, x) implies x.id() < index by {
            let k = choose|k: int| 0 <= k < m.len() && clause_mentions(#[trigger] m[k], x);
            assert(clause_mentions(m[k], x));
        }
        assert forall|x: Var| #[trigger] values@.contains_key(x) implies x.id() < index by {
            assert(keys@.contains(x));
            let k = choose|k: int| 0 <= k < keys@.len() && keys@[k] == x;
            assert(keys@[k].id() < index);
        }
    }
    index
}

/// The clauses say exactly that the constant and the gates have their
/// values.
spec fn encodes(clauses: Matrix, encoding: &Encoding, n: int) -> bool {
    forall|a: Assignment| #[trigger] matrix_true(a, clauses) == encoding.true_of(a, n)
}

/// Encodes the constant and the gates of a circuit.
#[verifier::loop_isolation(false)]
fn encode_gates(solver: &mut SatSolver, encoding: &Encoding, aig: &AigBuilder)
    requires
        old(solver).wf(),
        old(solver).clauses().len() == 0,
        aig.wf(),
        encoding.wf(),
        encoding.gates@ == aig.spec_gates(),
        encoding.universals@.len() == aig.spec_inputs(),
    ensures
        final(solver).wf(),
        encodes(final(solver).clauses(), encoding, aig.spec_gates().len() as int),
        clauses_below(final(solver).clauses(), encoding.base + 1 + aig.spec_gates().len()),
{
    let ghost gates = aig.spec_gates();
    let ghost inputs = encoding.universals@.len() as int;
    proof {
        aig.lemma_wf();
    }
    let one = Var::from_index(encoding.base);
    let unit = clause1(Lit::positive(one));
    let ghost empty = solver.clauses();
    solver.add_clause(&unit);
    let ghost end = encoding.base + 1 + gates.len();
    proof {
        assert forall|i: int| 0 <= i < solver.clauses().len() implies lits_below(#[trigger] solver.clauses()[i], end) by {
            assert(solver.clauses()[i] == unit@);
        }
        assert forall|a: Assignment| #[trigger] matrix_true(a, solver.clauses()) == encoding.true_of(a, 0) by {
            lemma_push_true(a, empty, unit@);
            if encoding.true_of(a, 0) {
                assert(a(one));
            }
            if a(one) {
                assert forall|x: Var| x.id() == encoding.base implies #[trigger] a(x) by {
                    crate::literal::lemma_var_ext(x, one);
                }
            }
        }
    }
    let mut k: usize = 0;
    while k < aig.gates().len()
        invariant
            k <= gates.len(),
            solver.wf(),
            encodes(solver.clauses(), encoding, k as int),
            clauses_below(solver.clauses(), end),
        decreases gates.len() - k,
    {
        let (lhs, rhs0, rhs1) = aig.gates()[k];
        let gate = Lit::positive(Var::from_index(encoding.base + 1 + k as u32));
        proof {
            assert(gates[k as int] == (lhs, rhs0, rhs1));
            assert(lhs == 2 * (inputs + 1 + k));
        }
        let a = encoding.lit(rhs0);
        let b = encoding.lit(rhs1);
        let ghost before = solver.clauses();
        let c1 = clause2(gate.negated(), a);
        let c2 = clause2(gate.negated(), b);
        let c3 = clause3(gate, a.negated(), b.negated());
        solver.add_clause(&c1);
        solver.add_clause(&c2);
        solver.add_clause(&c3);
        proof {
            assert(lits_below(c1@, end) && lits_below(c2@, end) && lits_below(c3@, end));
            lemma_below_pushed(before, c1@, end);
            lemma_below_pushed(before.push(c1@), c2@, end);
            lemma_below_pushed(before.push(c1@).push(c2@), c3@, end);
            assert forall|e: Assignment| #[trigger] matrix_true(e, solver.clauses()) == encoding.true_of(e, k as int + 1) by {
                lemma_push_true(e, before, c1@);
                lemma_push_true(e, before.push(c1@), c2@);
                lemma_push_true(e, before.push(c1@).push(c2@), c3@);
                assert(matrix_true(e, before) == encoding.true_of(e, k as int));
                let env = env_of(encoding.universals@, e);
                let g = gate.v();
                assert(g.id() == encoding.base + 1 + k);
                assert(wire(gates, env, lhs as int) == (wire(gates, env, rhs0 as int) && wire(gates, env, rhs1 as int)));
                assert(2 * (inputs + g.id() - encoding.base) == lhs);
                if encoding.true_of(e, k as int) {
                    lemma_true_of_less(encoding, e, k as int, rhs0 as int / 2 - inputs);
                    lemma_true_of_less(encoding, e, k as int, rhs1 as int / 2 - inputs);
                    assert(lit_true(e, a) == wire(gates, env, rhs0 as int));
                    assert(lit_true(e, b) == wire(gates, env, rhs1 as int));
                    if matrix_true(e, solver.clauses()) {
                        assert(e(g) == wire(gates, env, lhs as int));
                        assert forall|x: Var|
                            encoding.base + 1 <= x.id() < encoding.base + 1 + k + 1 implies #[trigger] e(x) == wire(
                            gates,
                            env,
                            2 * (inputs + x.id() - encoding.base),
                        ) by {
                            if x.id() == g.id() {
                                crate::literal::lemma_var_ext(x, g);
                            }
                        }
                    }
                    if encoding.true_of(e, k as int + 1) {
                        assert(e(g) == wire(gates, env, 2 * (inputs + g.id() - encoding.base)));
                    }
                } else {
                    if encoding.true_of(e, k as int + 1) {
                        lemma_true_of_less(encoding, e, k as int + 1, k as int);
                    }
                }
            }
        }
        k += 1;
    }
}

proof fn lemma_below_pushed(m: Matrix, c: Seq<Lit>, n: int)
    requires
        clauses_below(m, n),
        lits_below(c, n),
    ensures
        clauses_below(m.push(c), n),
{
    let all = m.push(c);
    assert forall|i: int| 0 <= i < all.len() implies lits_below(#[trigger] all[i], n) by {
        if i < m.len() {
            assert(all[i] == m[i]);
        }
    }
}

proof fn lemma_true_of_less(encoding: &Encoding, a: Assignment, n: int, m: int)
    requires
        encoding.true_of(a, n),
        m <= n,
    ensures
        encoding.true_of(a, m),
{
}

/// Whether the circuit of the strategy wins; `None` when the circuit is
/// beyond what the back end can number.
#[verifier::loop_isolation(false)]
pub fn check_strategy(qcnf: &QCNF, strategy: &Strategy) -> (result: Option<bool>)
    requires
        universals_of(qcnf.blocks()).len() < MAX_GRAPH,
    ensures
        result matches Some(wins) ==> wins == circuit_wins(*strategy, qcnf.blocks(), qcnf.clauses()),
        numbered_circuit(*strategy, qcnf.blocks(), qcnf.clauses()) ==> result is Some,
{
    let ghost p = qcnf.blocks();
    let ghost m = qcnf.clauses();
    let universals = qcnf.universals();
    let ghost us = universals@;
    let (aig, values) = strategy.build(&universals);
    let ghost fits = numbered_circuit(*strategy, p, m);
    proof {
        if fits {
            lemma_fits(*strategy, p, m, &aig, values@);
            aig.lemma_not_full();
        }
    }
    if aig.is_full() {
        return None;
    }
    let base = index_above(qcnf, &values, &universals);
    proof {
        aig.lemma_wf();
    }
    let count = aig.gates().len();
    proof {
        if fits {
            assert((base as int + 1) + aig.spec_gates().len() <= crate::sat::MAX_NUMBER);
        }
    }
    if count as u64 + base as u64 + 1 > MAX_INDEX as u64 {
        return None;
    }
    let encoding = Encoding { universals, base, gates: Ghost(aig.spec_gates()) };
    let ghost gates = aig.spec_gates();
    let ghost total = gates.len() as int;
    let mut solver = SatSolver::new();
    encode_gates(&mut solver, &encoding, &aig);

    // tie every determined variable to the wire computing it
    let keys = values.keys();
    let mut k: usize = 0;
    while k < keys.len()
        invariant
            k <= keys@.len(),
            solver.wf(),
            clauses_below(solver.clauses(), base + 1 + total),
            forall|a: Assignment| #[trigger] matrix_true(a, solver.clauses()) == (encoding.true_of(a, total) && tied(
                a,
                gates,
                us,
                values@,
                keys@.take(k as int),
            )),
        decreases keys.len() - k,
    {
        let var = keys[k];
        let ghost before = solver.clauses();
        if let Some(wire_of) = values.get(var) {
            assert(aig.has(values@[var]));
            let value = encoding.lit(wire_of);
            let lit = Lit::positive(var);
            let c1 = clause2(lit.negated(), value);
            let c2 = clause2(lit, value.negated());
            solver.add_clause(&c1);
            solver.add_clause(&c2);
            proof {
                assert(lits_below(c1@, base + 1 + total) && lits_below(c2@, base + 1 + total));
                lemma_below_pushed(before, c1@, base + 1 + total);
                lemma_below_pushed(before.push(c1@), c2@, base + 1 + total);
                assert forall|a: Assignment| #[trigger] matrix_true(a, solver.clauses()) == (encoding.true_of(a, total) && tied(
                    a,
                    gates,
                    us,
                    values@,
                    keys@.take(k as int + 1),
                )) by {
                    lemma_push_true(a, before, c1@);
                    lemma_push_true(a, before.push(c1@), c2@);
                    lemma_tied_push(a, gates, us, values@, keys@, k as int);
                    if encoding.true_of(a, total) {
                        lemma_true_of_less(&encoding, a, total, wire_of as int / 2 - us.len());
                        assert(lit_true(a, value) == wire(gates, env_of(us, a), wire_of as int));
                    }
                }
            }
        }
        k += 1;
    }
    proof {
        assert(keys@.take(keys@.len() as int) =~= keys@);
        assert(keys@.take(0) =~= Seq::<Var>::empty());
    }

    // one query per clause: this clause is falsified
    let mut k: usize = 0;
    while k < qcnf.matrix.len()
        invariant
            k <= qcnf.matrix@.len(),
            solver.wf(),
            forall|a: Assignment, i: int|
                #![trigger matrix_true(a, solver.clauses()), m[i]]
                matrix_true(a, solver.clauses()) && 0 <= i < k ==> clause_true(a, m[i]),
        decreases qcnf.matrix.len() - k,
    {
        let falsified = negate(&qcnf.matrix[k]);
        match solver.solve_with_assumptions(&falsified) {
            SatOutcome::OutOfRange => {
                proof {
                    if fits {
                        assert forall|i: int| 0 <= i < solver.clauses().len() implies crate::sat::lits_ok(#[trigger] solver.clauses()[i]) by {
                            assert(lits_below(solver.clauses()[i], base + 1 + total));
                        }
                        assert(crate::sat::clauses_ok(solver.clauses()));
                        assert forall|j: int| 0 <= j < falsified@.len() implies crate::sat::lit_ok(#[trigger] falsified@[j]) by {
                            assert(m[k as int] == qcnf.matrix@[k as int]@);
                            assert(falsified@[j] == m[k as int][j].neg());
                            assert(clause_mentions(m[k as int], m[k as int][j].v()));
                            assert(mentions(m, m[k as int][j].v()));
                        }
                        assert(false);
                    }
                }
                return None;
            },
            SatOutcome::Sat(model) => {
                proof {
                    let a = lemma_model_assignment(model@);
                    assert(matrix_true(a, solver.clauses()) && cube_true(a, falsified@));
                    lemma_tied_follows(*strategy, p, us, a, &aig, values@, keys@);
                    assert(!clause_true(a, m[k as int])) by {
                        assert(m[k as int] == qcnf.matrix@[k as int]@);
                        if clause_true(a, m[k as int]) {
                            let i = choose|i: int| 0 <= i < m[k as int].len() && lit_true(a, #[trigger] m[k as int][i]);
                            assert(lit_true(a, falsified@[i]));
                        }
                    }
                    assert(!matrix_true(a, m));
                }
                return Some(false);
            },
            SatOutcome::Unsat => {
                proof {
                    assert forall|a: Assignment, i: int|
                        #![trigger matrix_true(a, solver.clauses()), m[i]]
                        matrix_true(a, solver.clauses()) && 0 <= i < k + 1 implies clause_true(a, m[i]) by {
                        if i == k && !clause_true(a, m[i]) {
                            assert forall|j: int| 0 <= j < falsified@.len() implies lit_true(a, #[trigger] falsified@[j]) by {
                                assert(falsified@[j] == m[i][j].neg());
                                assert(!lit_true(a, m[i][j]));
                            }
                            assert(cube_true(a, falsified@));
                        }
                    }
                }
            },
        }
        k += 1;
    }
    proof {
        assert forall|a: Assignment| #[trigger] circuit_follows(*strategy, p, a) implies matrix_true(a, m) by {
            let b = lemma_encode(&encoding, a, total);
            lemma_follows_tied(*strategy, p, us, a, b, &aig, values@, keys@, base as int);
            assert(matrix_true(b, solver.clauses()));
            assert forall|i: int| 0 <= i < m.len() implies clause_true(b, #[trigger] m[i]) by {}
            assert(matrix_true(b, m));
            lemma_matrix_coincide(m, b, a);
        }
    }
    Some(true)
}

/// Every listed variable has the value of its wire.
spec fn tied(a: Assignment, gates: Seq<(u64, u64, u64)>, us: Seq<Var>, values: Map<Var, u64>, keys: Seq<Var>) -> bool {
    forall|i: int| 0 <= i < keys.len() ==> a(#[trigger] keys[i]) == wire(gates, env_of(us, a), values[keys[i]] as int)
}

proof fn lemma_tied_push(a: Assignment, gates: Seq<(u64, u64, u64)>, us: Seq<Var>, values: Map<Var, u64>, keys: Seq<Var>, k: int)
    requires
        0 <= k < keys.len(),
    ensures
        tied(a, gates, us, values, keys.take(k + 1)) == (tied(a, gates, us, values, keys.take(k)) && a(keys[k]) == wire(
            gates,
            env_of(us, a),
            values[keys[k]] as int,
        )),
{
    let part = keys.take(k);
    let next = keys.take(k + 1);
    if tied(a, gates, us, values, next) {
        assert(next[k] == keys[k]);
        assert forall|i: int| 0 <= i < part.len() implies a(#[trigger] part[i]) == wire(gates, env_of(us, a), values[part[i]] as int) by {
            assert(next[i] == part[i]);
        }
    }
    if tied(a, gates, us, values, part) && a(keys[k]) == wire(gates, env_of(us, a), values[keys[k]] as int) {
        assert forall|i: int| 0 <= i < next.len() implies a(#[trigger] next[i]) == wire(gates, env_of(us, a), values[next[i]] as int) by {
            if i < k {
                assert(part[i] == next[i]);
            }
        }
    }
}

/// A total assignment that takes the literals of a consistent model.
proof fn lemma_model_assignment(model: Seq<Lit>) -> (a: Assignment)
    requires
        crate::sat::consistent(model),
    ensures
        cube_true(a, model),
{
    let a = |x: Var| exists|i: int| 0 <= i < model.len() && (#[trigger] model[i]).v() == x && model[i].pos();
    assert forall|i: int| 0 <= i < model.len() implies lit_true(a, #[trigger] model[i]) by {
        let x = model[i].v();
        if a(x) {
            let j = choose|j: int| 0 <= j < model.len() && (#[trigger] model[j]).v() == x && model[j].pos();
            assert(model[i].v() == model[j].v());
        }
    }
    a
}

/// Values tied to the wires are what the circuit computes.
proof fn lemma_tied_follows(strategy: Strategy, p: Prefix, us: Seq<Var>, a: Assignment, aig: &AigBuilder, values: Map<Var, u64>, keys: Seq<Var>)
    requires
        us == universals_of(p),
        tied(a, aig.spec_gates(), us, values, keys),
        forall|x: Var| #[trigger] values.contains_key(x) <==> keys.contains(x),
        forall|env: Seq<bool>|
            env.len() == us.len() ==> #[trigger] point(aig.spec_gates(), env, values) == strategy.circuit(
                input_values(us, env),
                Map::empty(),
            ),
    ensures
        circuit_follows(strategy, p, a),
{
    let env = env_of(us, a);
    lemma_input_values(us, a, us.len());
    assert(us.take(us.len() as int) =~= us);
    let computed = point(aig.spec_gates(), env, values);
    assert(computed == strategy.circuit(restricted_to(us, a), Map::empty()));
    assert forall|x: Var| #[trigger] computed.contains_key(x) implies a(x) == computed[x] by {
        assert(values.contains_key(x));
        assert(keys.contains(x));
        let i = choose|i: int| 0 <= i < keys.len() && keys[i] == x;
        assert(a(keys[i]) == wire(aig.spec_gates(), env, values[keys[i]] as int));
    }
    assert(agrees(a, strategy.circuit(restricted_to(us, a), Map::empty())));
}

/// Every assignment extends to one that gives the gates their values.
proof fn lemma_encode(encoding: &Encoding, a: Assignment, n: int) -> (b: Assignment)
    requires
        encoding.wf(),
    ensures
        encoding.true_of(b, n),
        forall|x: Var| x.id() < encoding.base ==> #[trigger] b(x) == a(x),
{
    let env = env_of(encoding.universals@, a);
    let b = |x: Var|
        if x.id() < encoding.base {
            a(x)
        } else if x.id() == encoding.base {
            true
        } else {
            wire(encoding.gates@, env, 2 * (encoding.universals@.len() + x.id() - encoding.base))
        };
    assert(env_of(encoding.universals@, b) =~= env) by {
        assert forall|i: int| 0 <= i < encoding.universals@.len() implies b(encoding.universals@[i]) == a(encoding.universals@[i]) by {
            assert(encoding.universals@[i].id() < encoding.base);
        }
    }
    b
}

/// What the circuit computes is tied to the wires.
proof fn lemma_follows_tied(
    strategy: Strategy,
    p: Prefix,
    us: Seq<Var>,
    a: Assignment,
    b: Assignment,
    aig: &AigBuilder,
    values: Map<Var, u64>,
    keys: Seq<Var>,
    base: int,
)
    requires
        us == universals_of(p),
        circuit_follows(strategy, p, a),
        forall|x: Var| x.id() < base ==> #[trigger] b(x) == a(x),
        forall|x: Var| #[trigger] values.contains_key(x) ==> x.id() < base,
        forall|i: int| 0 <= i < us.len() ==> (#[trigger] us[i]).id() < base,
        forall|x: Var| #[trigger] values.contains_key(x) <==> keys.contains(x),
        forall|env: Seq<bool>|
            env.len() == us.len() ==> #[trigger] point(aig.spec_gates(), env, values) == strategy.circuit(
                input_values(us, env),
                Map::empty(),
            ),
    ensures
        tied(b, aig.spec_gates(), us, values, keys),
{
    let env = env_of(us, a);
    assert(env_of(us, b) =~= env) by {
        assert forall|i: int| 0 <= i < us.len() implies b(us[i]) == a(us[i]) by {
            assert(us[i].id() < base);
        }
    }
    lemma_input_values(us, a, us.len());
    assert(us.take(us.len() as int) =~= us);
    let computed = point(aig.spec_gates(), env, values);
    assert(computed == strategy.circuit(restricted_to(us, a), Map::empty()));
    assert forall|i: int| 0 <= i < keys.len() implies b(#[trigger] keys[i]) == wire(
        aig.spec_gates(),
        env_of(us, b),
        values[keys[i]] as int,
    ) by {
        let x = keys[i];
        assert(keys.contains(x));
        assert(values.contains_key(x));
        assert(computed.contains_key(x));
        assert(a(x) == computed[x]);
    }
}

/// Verifies a strategy against the formula: whether its circuit wins. A
/// circuit that the back end cannot number is not accepted.
pub fn verify_strategy(qcnf: &QCNF, strategy: &Strategy) -> (wins: bool)
    requires
        universals_of(qcnf.blocks()).len() < MAX_GRAPH,
    ensures
        wins ==> circuit_wins(*strategy, qcnf.blocks(), qcnf.clauses()),
        numbered_circuit(*strategy, qcnf.blocks(), qcnf.clauses()) ==> wins == circuit_wins(*strategy, qcnf.blocks(), qcnf.clauses()),
{
    match check_strategy(qcnf, strategy) {
        Some(wins) => wins,
        None => false,
    }
}

} // verus!
