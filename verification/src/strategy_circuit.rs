//! Strategies as circuits over the universal variables.
//!
//! The circuit counterpart of evaluating a strategy: instead of values
//! under one universal assignment it accumulates wires that compute those
//! values under every assignment at once. A variable that only some branch
//! defines reads, elsewhere, as it did before the branch, or as false.
use crate::datastructure::VarMap;
use crate::incdet::aig::{all_wires, any_wire, flip, lemma_flip, lemma_grows, lemma_grows_trans, negate_wire, wire, AigBuilder};
use crate::incdet::circuit::{circuit_value, lemma_point_grows, lemma_value_grows, point, value_or_false, wires_ok};
use crate::incdet::model::{commit, SkolemModel};
use crate::literal::{Lit, Var};
use crate::semantics::clause_mentions;
use crate::strategy::{Copies, Strategy};
use std::rc::Rc;
use vstd::prelude::*;

verus! {

broadcast use crate::literal::group_literal;

/// What a literal reads as: inputs before values; an unknown variable
/// makes the literal false whatever its polarity.
pub open spec fn lit_reads(inputs: Map<Var, bool>, values: Map<Var, bool>, l: Lit) -> bool {
    if inputs.contains_key(l.v()) {
        inputs[l.v()] == l.pos()
    } else {
        values.contains_key(l.v()) && values[l.v()] == l.pos()
    }
}

/// Every literal of the cube reads true.
pub open spec fn cube_reads(inputs: Map<Var, bool>, values: Map<Var, bool>, cube: Seq<Lit>) -> bool {
    forall|i: int| 0 <= i < cube.len() ==> lit_reads(inputs, values, #[trigger] cube[i])
}

/// Something holds at the index and at none before it.
pub open spec fn first_at(holds: spec_fn(int) -> bool, k: int) -> bool {
    holds(k) && none_at(holds, k)
}

/// Something holds at no index below the given one.
pub open spec fn none_at(holds: spec_fn(int) -> bool, k: int) -> bool {
    forall|j: int| 0 <= j < k ==> !#[trigger] holds(j)
}

/// The first index at which something holds, or the number of indices.
pub open spec fn first_of(holds: spec_fn(int) -> bool, from: int, n: int) -> int
    decreases n - from,
{
    if from >= n {
        n
    } else if holds(from) {
        from
    } else {
        first_of(holds, from + 1, n)
    }
}

proof fn lemma_first_of(holds: spec_fn(int) -> bool, from: int, n: int)
    requires
        0 <= from <= n,
        none_at(holds, from),
    ensures
        from <= first_of(holds, from, n) <= n,
        none_at(holds, first_of(holds, from, n)),
        first_of(holds, from, n) < n ==> holds(first_of(holds, from, n)),
    decreases n - from,
{
    if from < n && !holds(from) {
        assert(none_at(holds, from + 1)) by {
            assert forall|j: int| 0 <= j < from + 1 implies !#[trigger] holds(j) by {
                if j == from {
                }
            }
        }
        lemma_first_of(holds, from + 1, n);
    }
}

/// Some map of the list has the variable.
pub open spec fn in_some(maps: Seq<Map<Var, bool>>, x: Var) -> bool {
    exists|i: int| 0 <= i < maps.len() && (#[trigger] maps[i]).contains_key(x)
}

/// The values of the chosen branch; where it has none, or no branch is
/// chosen, those from before, or false.
pub open spec fn merge(branches: Seq<Map<Var, bool>>, k: int, values: Map<Var, bool>) -> Map<Var, bool> {
    Map::new(
        |x: Var| values.contains_key(x) || in_some(branches, x),
        |x: Var|
            if 0 <= k < branches.len() && branches[k].contains_key(x) {
                branches[k][x]
            } else {
                value_or_false(values, x)
            },
    )
}

/// Some renaming has the variable as an original.
pub open spec fn is_original(copies: Seq<(Vec<Lit>, Vec<(Var, Var)>)>, x: Var) -> bool {
    exists|k: int, j: int| 0 <= k < copies.len() && 0 <= j < copies[k].1@.len() && (#[trigger] copies[k].1@[j]).0 == x
}

/// Some renaming has the variable as a copy.
pub open spec fn is_copied(copies: Seq<(Vec<Lit>, Vec<(Var, Var)>)>, x: Var) -> bool {
    exists|k: int, j: int| 0 <= k < copies.len() && 0 <= j < copies[k].1@.len() && (#[trigger] copies[k].1@[j]).1 == x
}

/// The first position of the variable in a renaming, or its length.
pub open spec fn position(rename: Seq<(Var, Var)>, from: int, x: Var) -> int
    decreases rename.len() - from,
{
    if from < 0 || from >= rename.len() {
        rename.len() as int
    } else if rename[from].0 == x {
        from
    } else {
        position(rename, from + 1, x)
    }
}

/// The value of the copy of a variable, or its own, or false.
pub open spec fn copy_value(rename: Seq<(Var, Var)>, inner: Map<Var, bool>, x: Var) -> bool {
    let j = position(rename, 0, x);
    if 0 <= j < rename.len() && inner.contains_key(rename[j].1) {
        inner[rename[j].1]
    } else {
        value_or_false(inner, x)
    }
}

/// The values without the copies, with every original taking the value of
/// its selected copy.
pub open spec fn fold_copies(copies: Seq<(Vec<Lit>, Vec<(Var, Var)>)>, k: int, inner: Map<Var, bool>) -> Map<Var, bool> {
    Map::new(
        |x: Var| is_original(copies, x) || (inner.contains_key(x) && !is_copied(copies, x)),
        |x: Var|
            if is_original(copies, x) {
                if 0 <= k < copies.len() {
                    copy_value(copies[k].1@, inner, x)
                } else {
                    value_or_false(inner, x)
                }
            } else {
                inner[x]
            },
    )
}

/// The universal values a leaf reads; one that is no input is false.
pub open spec fn leaf_inputs(universals: Seq<Var>, inputs: Map<Var, bool>) -> Map<Var, bool> {
    Map::new(|x: Var| universals.contains(x), |x: Var| value_or_false(inputs, x))
}

impl Strategy {
    /// The values that the circuit of the strategy computes on top of the
    /// values so far.
    pub open spec fn circuit(self, inputs: Map<Var, bool>, values: Map<Var, bool>) -> Map<Var, bool>
        decreases self, 0nat,
    {
        match self {
            Strategy::Done => values,
            Strategy::Fixed { assignments, rest } => rest.circuit(inputs, commit(values, assignments@)),
            Strategy::Choose { constants, rest } => rest.circuit(inputs, commit(values, constants@)),
            Strategy::Split { cases } => merge(
                Strategy::branches(cases, cases@.len(), inputs, values),
                first_of(|i: int| cube_reads(inputs, values, cases@[i].0@), 0, cases@.len() as int),
                values,
            ),
            Strategy::Expanded { copies, rest } => fold_copies(
                copies@,
                first_of(|i: int| cube_reads(inputs, Map::empty(), copies@[i].0@), 0, copies@.len() as int),
                rest.circuit(inputs, values),
            ),
            Strategy::Leaf(model) => {
                let point = leaf_inputs(model.spec_universals(), inputs);
                Map::new(
                    |x: Var| values.contains_key(x) || model.defines(x),
                    |x: Var|
                        if model.defines(x) {
                            circuit_value(*model, point, x)
                        } else {
                            values[x]
                        },
                )
            },
        }
    }

    /// The values of the first cases, each on top of the same values.
    pub open spec fn branches(cases: Vec<(Vec<Lit>, Rc<Strategy>)>, n: nat, inputs: Map<Var, bool>, values: Map<Var, bool>) -> Seq<Map<Var, bool>>
        decreases cases, n,
    {
        if n == 0 || n > cases@.len() {
            Seq::empty()
        } else {
            Strategy::branches(cases, (n - 1) as nat, inputs, values).push(cases@[n - 1].1.circuit(inputs, values))
        }
    }
}

impl Strategy {
    /// The circuit of the strategy has a wire for the variable somewhere.
    pub open spec fn names(self, x: Var) -> bool
        decreases self, 0nat,
    {
        match self {
            Strategy::Done => false,
            Strategy::Fixed { assignments, rest } => clause_mentions(assignments@, x) || rest.names(x),
            Strategy::Choose { constants, rest } => clause_mentions(constants@, x) || rest.names(x),
            Strategy::Split { cases } => Strategy::case_names(cases, cases@.len(), x),
            Strategy::Expanded { copies, rest } => is_original(copies@, x) || rest.names(x),
            Strategy::Leaf(model) => model.defines(x),
        }
    }

    /// The circuit of one of the first cases has a wire for the variable.
    pub open spec fn case_names(cases: Vec<(Vec<Lit>, Rc<Strategy>)>, n: nat, x: Var) -> bool
        decreases cases, n,
    {
        if n == 0 || n > cases@.len() {
            false
        } else {
            Strategy::case_names(cases, (n - 1) as nat, x) || cases@[n - 1].1.names(x)
        }
    }

    /// As many gates suffice for the circuit of the strategy, if at most
    /// `width` variables have wires.
    pub open spec fn gate_bound(self, width: nat) -> nat
        decreases self, 0nat,
    {
        match self {
            Strategy::Done => 0,
            Strategy::Fixed { assignments, rest } => rest.gate_bound(width),
            Strategy::Choose { constants, rest } => rest.gate_bound(width),
            Strategy::Split { cases } => Strategy::case_bound(cases, cases@.len(), width) + width * (2 * cases@.len() + 2),
            Strategy::Expanded { copies, rest } => rest.gate_bound(width) + copy_bound(copies@, copies@.len() as int) + width * (2
                * copies@.len() + 2),
            Strategy::Leaf(model) => model.gate_bound(),
        }
    }

    /// As many gates suffice for the first cases.
    pub open spec fn case_bound(cases: Vec<(Vec<Lit>, Rc<Strategy>)>, n: nat, width: nat) -> nat
        decreases cases, n,
    {
        if n == 0 || n > cases@.len() {
            0
        } else {
            Strategy::case_bound(cases, (n - 1) as nat, width) + cases@[n - 1].0@.len() + 2 + cases@[n - 1].1.gate_bound(width)
        }
    }
}

/// As many gates suffice to select among the first copies.
pub open spec fn copy_bound(copies: Seq<(Vec<Lit>, Vec<(Var, Var)>)>, count: int) -> nat
    decreases count,
{
    if count <= 0 {
        0
    } else {
        copy_bound(copies, count - 1) + copies[count - 1].0@.len() + 2
    }
}

/// The set holds the variables with wires and those that the strategy
/// names.
pub open spec fn roomy(strategy: Strategy, values: Map<Var, u64>, set: Set<Var>) -> bool {
    &&& set.finite()
    &&& forall|x: Var| #[trigger] values.contains_key(x) ==> set.contains(x)
    &&& forall|x: Var| #[trigger] strategy.names(x) ==> set.contains(x)
}

/// The graph grew by at most the bound, and the set holds the variables
/// with wires.
pub open spec fn bounded(strategy: Strategy, start: &AigBuilder, aig: &AigBuilder, values: Map<Var, u64>, set: Set<Var>) -> bool {
    &&& aig.spec_gates().len() <= start.spec_gates().len() + strategy.gate_bound(set.len())
    &&& forall|x: Var| #[trigger] values.contains_key(x) ==> set.contains(x)
}

/// Each branch is the circuit of its case.
proof fn lemma_branches(cases: Vec<(Vec<Lit>, Rc<Strategy>)>, n: nat, inputs: Map<Var, bool>, values: Map<Var, bool>)
    requires
        n <= cases@.len(),
    ensures
        Strategy::branches(cases, n, inputs, values).len() == n,
        forall|i: int| 0 <= i < n ==> #[trigger] Strategy::branches(cases, n, inputs, values)[i] == cases@[i].1.circuit(inputs, values),
    decreases n,
{
    if n > 0 {
        lemma_branches(cases, (n - 1) as nat, inputs, values);
    }
}

/// The wire a literal reads.
fn read_wire(lit: Lit, inputs: &VarMap<u64>, values: &VarMap<u64>, aig: &AigBuilder) -> (result: u64)
    requires
        aig.wf(),
        wires_ok(aig, inputs@),
        wires_ok(aig, values@),
    ensures
        aig.has(result),
        forall|env: Seq<bool>|
            #![trigger wire(aig.spec_gates(), env, result as int)]
            wire(aig.spec_gates(), env, result as int) == lit_reads(
                point(aig.spec_gates(), env, inputs@),
                point(aig.spec_gates(), env, values@),
                lit,
            ),
{
    proof {
        aig.lemma_wf();
    }
    let var = lit.var();
    let base = match inputs.get(var) {
        Some(base) => base,
        None => match values.get(var) {
            Some(base) => base,
            None => {
                assert forall|env: Seq<bool>| !#[trigger] wire(aig.spec_gates(), env, 0int) by {}
                return 0;
            },
        },
    };
    assert(aig.has(base)) by {
        if inputs@.contains_key(var) {
            assert(aig.has(inputs@[var]));
        } else {
            assert(aig.has(values@[var]));
        }
    }
    if lit.is_positive() {
        base
    } else {
        proof {
            assert forall|env: Seq<bool>| #[trigger] wire(aig.spec_gates(), env, flip(base) as int) == !wire(
                aig.spec_gates(),
                env,
                base as int,
            ) by {
                lemma_flip(aig.spec_gates(), env, base);
            }
        }
        negate_wire(base)
    }
}

/// The wires that the literals of a cube read.
fn read_cube(cube: &Vec<Lit>, inputs: &VarMap<u64>, values: &VarMap<u64>, aig: &AigBuilder) -> (result: Vec<u64>)
    requires
        aig.wf(),
        wires_ok(aig, inputs@),
        wires_ok(aig, values@),
    ensures
        result@.len() == cube@.len(),
        forall|i: int| 0 <= i < result@.len() ==> aig.has(#[trigger] result@[i]),
        forall|env: Seq<bool>|
            #![trigger all_wires(aig.spec_gates(), env, result@)]
            all_wires(aig.spec_gates(), env, result@) == cube_reads(
                point(aig.spec_gates(), env, inputs@),
                point(aig.spec_gates(), env, values@),
                cube@,
            ),
{
    let ghost gates = aig.spec_gates();
    let mut result: Vec<u64> = Vec::new();
    let mut k: usize = 0;
    while k < cube.len()
        invariant
            k <= cube@.len(),
            gates == aig.spec_gates(),
            aig.wf(),
            wires_ok(aig, inputs@),
            wires_ok(aig, values@),
            result@.len() == k,
            forall|i: int| 0 <= i < k ==> aig.has(#[trigger] result@[i]),
            forall|env: Seq<bool>, i: int|
                #![trigger wire(gates, env, result@[i] as int)]
                0 <= i < k ==> wire(gates, env, result@[i] as int) == lit_reads(
                    point(gates, env, inputs@),
                    point(gates, env, values@),
                    cube@[i],
                ),
        decreases cube.len() - k,
    {
        let ghost before = result@;
        let lit = read_wire(cube[k], inputs, values, aig);
        result.push(lit);
        proof {
            assert forall|env: Seq<bool>, i: int|
                #![trigger wire(gates, env, result@[i] as int)]
                0 <= i < k + 1 implies wire(gates, env, result@[i] as int) == lit_reads(
                point(gates, env, inputs@),
                point(gates, env, values@),
                cube@[i],
            ) by {
                if i < k {
                    assert(result@[i] == before[i]);
                    assert(wire(gates, env, before[i] as int) == lit_reads(
                        point(gates, env, inputs@),
                        point(gates, env, values@),
                        cube@[i],
                    ));
                } else {
                    assert(wire(gates, env, lit as int) == lit_reads(
                        point(gates, env, inputs@),
                        point(gates, env, values@),
                        cube@[i],
                    ));
                }
            }
        }
        k += 1;
    }
    proof {
        assert forall|env: Seq<bool>|
            #![trigger all_wires(gates, env, result@)]
            all_wires(gates, env, result@) == cube_reads(point(gates, env, inputs@), point(gates, env, values@), cube@) by {
            let i0 = point(gates, env, inputs@);
            let v0 = point(gates, env, values@);
            if all_wires(gates, env, result@) {
                assert forall|i: int| 0 <= i < cube@.len() implies lit_reads(i0, v0, #[trigger] cube@[i]) by {
                    assert(wire(gates, env, result@[i] as int));
                }
            }
            if cube_reads(i0, v0, cube@) {
                assert forall|i: int| 0 <= i < result@.len() implies wire(gates, env, #[trigger] result@[i] as int) by {
                    assert(lit_reads(i0, v0, cube@[i]));
                }
            }
        }
    }
    result
}

/// Which of a list of conditions is the first to hold, as wires: one wire
/// per condition, and one for none of them.
struct Selection {
    selected: Vec<u64>,
    rest: u64,
}

impl Selection {
    spec fn wf(&self, aig: &AigBuilder) -> bool {
        &&& aig.has(self.rest)
        &&& forall|k: int| 0 <= k < self.selected@.len() ==> aig.has(#[trigger] self.selected@[k])
    }

    /// The wires compute the selection among conditions that depend on
    /// the inputs.
    spec fn picks(&self, aig: &AigBuilder, holds: spec_fn(Seq<bool>, int) -> bool) -> bool {
        forall|env: Seq<bool>| #[trigger] self.picks_at(aig, holds, env)
    }

    spec fn picks_at(&self, aig: &AigBuilder, holds: spec_fn(Seq<bool>, int) -> bool, env: Seq<bool>) -> bool {
        env.len() == aig.spec_inputs() ==> {
            &&& wire(aig.spec_gates(), env, self.rest as int) == none_at(|i: int| holds(env, i), self.selected@.len() as int)
            &&& forall|k: int|
                0 <= k < self.selected@.len() ==> wire(aig.spec_gates(), env, #[trigger] self.selected@[k] as int) == first_at(
                    |i: int| holds(env, i),
                    k,
                )
        }
    }

    proof fn lemma_grows(&self, before: &AigBuilder, after: &AigBuilder, holds: spec_fn(Seq<bool>, int) -> bool)
        requires
            after.extends(before),
            self.wf(before),
        ensures
            self.wf(after),
            self.picks(before, holds) ==> self.picks(after, holds),
    {
        if self.picks(before, holds) {
            assert forall|env: Seq<bool>| #[trigger] self.picks_at(after, holds, env) by {
                assert(self.picks_at(before, holds, env));
                if env.len() == after.spec_inputs() {
                    lemma_value_grows(before, after, self.rest, env);
                    assert forall|k: int| 0 <= k < self.selected@.len() implies wire(after.spec_gates(), env, #[trigger] self.selected@[k] as int)
                        == first_at(|i: int| holds(env, i), k) by {
                        assert(before.has(self.selected@[k]));
                        lemma_value_grows(before, after, self.selected@[k], env);
                    }
                }
            }
        }
    }

    fn new(aig: &AigBuilder) -> (selection: Selection)
        requires
            aig.wf(),
        ensures
            selection.wf(aig),
            selection.selected@.len() == 0,
            forall|holds: spec_fn(Seq<bool>, int) -> bool| #[trigger] selection.picks(aig, holds),
    {
        let selection = Selection { selected: Vec::new(), rest: 1 };
        proof {
            assert forall|holds: spec_fn(Seq<bool>, int) -> bool| #[trigger] selection.picks(aig, holds) by {
                assert forall|env: Seq<bool>| #[trigger] selection.picks_at(aig, holds, env) by {
                    assert(wire(aig.spec_gates(), env, 1int));
                }
            }
        }
        selection
    }

    /// Adds a condition: the conjunction of the given wires.
    fn push(&mut self, aig: &mut AigBuilder, lits: &Vec<u64>, Ghost(holds): Ghost<spec_fn(Seq<bool>, int) -> bool>)
        requires
            old(aig).wf(),
            old(self).wf(old(aig)),
            !old(aig).spec_full() ==> old(self).picks(old(aig), holds),
            forall|i: int| 0 <= i < lits@.len() ==> old(aig).has(#[trigger] lits@[i]),
            forall|env: Seq<bool>|
                #![trigger all_wires(old(aig).spec_gates(), env, lits@)]
                env.len() == old(aig).spec_inputs() ==> all_wires(old(aig).spec_gates(), env, lits@) == holds(
                    env,
                    old(self).selected@.len() as int,
                ),
        ensures
            final(aig).wf(),
            final(aig).extends(old(aig)),
            final(self).wf(final(aig)),
            final(aig).spec_gates().len() <= old(aig).spec_gates().len() + lits@.len() + 2,
            final(self).selected@.len() == old(self).selected@.len() + 1,
            !final(aig).spec_full() ==> final(self).picks(final(aig), holds),
    {
        let ghost before = *aig;
        let ghost old_rest = self.rest;
        let ghost old_selected = self.selected@;
        let condition = aig.and_all(lits);
        let ghost step1 = *aig;
        proof {
            step1.lemma_wf();
        }
        let select = aig.and(self.rest, condition);
        let ghost step2 = *aig;
        self.rest = aig.and(self.rest, negate_wire(condition));
        self.selected.push(select);
        proof {
            lemma_grows_trans(before.spec_gates(), step1.spec_gates(), step2.spec_gates());
            lemma_grows_trans(before.spec_gates(), step2.spec_gates(), aig.spec_gates());
            lemma_grows_trans(step1.spec_gates(), step2.spec_gates(), aig.spec_gates());
            let n = old_selected.len() as int;
            assert forall|k: int| 0 <= k < self.selected@.len() implies aig.has(#[trigger] self.selected@[k]) by {
                if k < n {
                    assert(self.selected@[k] == old_selected[k]);
                    assert(before.has(old_selected[k]));
                }
            }
            if !aig.spec_full() {
                assert forall|env: Seq<bool>| #[trigger] self.picks_at(aig, holds, env) by {
                    if env.len() == aig.spec_inputs() {
                        assert(old(self).picks_at(&before, holds, env));
                        let at = |i: int| holds(env, i);
                        lemma_value_grows(&before, &step1, old_rest, env);
                        lemma_value_grows(&before, &step2, old_rest, env);
                        lemma_value_grows(&step1, &step2, condition, env);
                        lemma_flip(step2.spec_gates(), env, condition);
                        lemma_value_grows(&step2, aig, select, env);
                        assert(step1.value(env, condition) == holds(env, n));
                        assert(wire(before.spec_gates(), env, old_rest as int) == none_at(at, n));
                        assert(aig.value(env, self.rest) == (none_at(at, n) && !at(n)));
                        assert(none_at(at, n + 1) == (none_at(at, n) && !at(n))) by {
                            if none_at(at, n + 1) {
                                assert(!at(n));
                            }
                            if none_at(at, n) && !at(n) {
                                assert forall|j: int| 0 <= j < n + 1 implies !#[trigger] at(j) by {
                                    if j == n {
                                    }
                                }
                            }
                        }
                        assert forall|k: int| 0 <= k < self.selected@.len() implies wire(aig.spec_gates(), env, #[trigger] self.selected@[k] as int)
                            == first_at(at, k) by {
                            if k < n {
                                assert(self.selected@[k] == old_selected[k]);
                                assert(before.has(old_selected[k]));
                                lemma_value_grows(&before, aig, old_selected[k], env);
                                assert(wire(before.spec_gates(), env, old_selected[k] as int) == first_at(at, k));
                            } else {
                                assert(step2.value(env, select) == (none_at(at, n) && at(n)));
                            }
                        }
                    }
                }
            }
        }
    }

    /// The wire that takes the value of the selected condition, or the
    /// base where none holds.
    fn pick(&self, aig: &mut AigBuilder, base: u64, values: &Vec<u64>, Ghost(holds): Ghost<spec_fn(Seq<bool>, int) -> bool>) -> (result: u64)
        requires
            old(aig).wf(),
            self.wf(old(aig)),
            old(aig).has(base),
            values@.len() == self.selected@.len(),
            forall|i: int| 0 <= i < values@.len() ==> old(aig).has(#[trigger] values@[i]),
            !old(aig).spec_full() ==> self.picks(old(aig), holds),
        ensures
            final(aig).wf(),
            final(aig).extends(old(aig)),
            final(aig).spec_gates().len() <= old(aig).spec_gates().len() + 2 * values@.len() + 2,
            final(aig).has(result),
            !final(aig).spec_full() ==> forall|env: Seq<bool>|
                env.len() == old(aig).spec_inputs() ==> #[trigger] final(aig).value(env, result) == picked(
                    old(aig).spec_gates(),
                    env,
                    first_of(|i: int| holds(env, i), 0, values@.len() as int),
                    base,
                    values@,
                ),
    {
        let ghost start = *aig;
        let first = aig.and(self.rest, base);
        let mut terms: Vec<u64> = Vec::new();
        terms.push(first);
        let mut k: usize = 0;
        proof {
            if !aig.spec_full() {
                assert forall|env: Seq<bool>, i: int|
                    #![trigger wire(aig.spec_gates(), env, terms@[i] as int)]
                    env.len() == start.spec_inputs() && 0 <= i < terms@.len() implies wire(aig.spec_gates(), env, terms@[i] as int)
                    == term(start.spec_gates(), env, self.rest, self.selected@, base, values@, i) by {
                    assert(aig.value(env, first) == (start.value(env, self.rest) && start.value(env, base)));
                }
            }
        }
        while k < values.len()
            invariant
                k <= values@.len(),
                aig.wf(),
                aig.extends(&start),
                aig.spec_gates().len() <= start.spec_gates().len() + k + 1,
                self.wf(&start),
                start.has(base),
                values@.len() == self.selected@.len(),
                forall|i: int| 0 <= i < values@.len() ==> start.has(#[trigger] values@[i]),
                terms@.len() == k + 1,
                forall|i: int| 0 <= i < terms@.len() ==> aig.has(#[trigger] terms@[i]),
                !aig.spec_full() ==> forall|env: Seq<bool>, i: int|
                    #![trigger wire(aig.spec_gates(), env, terms@[i] as int)]
                    env.len() == start.spec_inputs() && 0 <= i < terms@.len() ==> wire(aig.spec_gates(), env, terms@[i] as int)
                        == term(start.spec_gates(), env, self.rest, self.selected@, base, values@, i),
            decreases values.len() - k,
        {
            let ghost before = *aig;
            let ghost old_terms = terms@;
            assert(start.has(values@[k as int]));
            assert(start.has(self.selected@[k as int]));
            let next = aig.and(self.selected[k], values[k]);
            terms.push(next);
            proof {
                lemma_grows_trans(start.spec_gates(), before.spec_gates(), aig.spec_gates());
                assert forall|i: int| 0 <= i < terms@.len() implies aig.has(#[trigger] terms@[i]) by {
                    if i < old_terms.len() {
                        assert(terms@[i] == old_terms[i]);
                        assert(before.has(old_terms[i]));
                    }
                }
                if !aig.spec_full() {
                    assert forall|env: Seq<bool>, i: int|
                        #![trigger wire(aig.spec_gates(), env, terms@[i] as int)]
                        env.len() == start.spec_inputs() && 0 <= i < terms@.len() implies wire(aig.spec_gates(), env, terms@[i] as int)
                        == term(start.spec_gates(), env, self.rest, self.selected@, base, values@, i) by {
                        if i < old_terms.len() {
                            assert(terms@[i] == old_terms[i]);
                            assert(before.has(old_terms[i]));
                            lemma_value_grows(&before, aig, old_terms[i], env);
                            assert(wire(before.spec_gates(), env, old_terms[i] as int) == term(
                                start.spec_gates(),
                                env,
                                self.rest,
                                self.selected@,
                                base,
                                values@,
                                i,
                            ));
                        } else {
                            lemma_value_grows(&start, &before, values@[k as int], env);
                            lemma_value_grows(&start, &before, self.selected@[k as int], env);
                            assert(aig.value(env, next) == (before.value(env, self.selected@[k as int]) && before.value(
                                env,
                                values@[k as int],
                            )));
                        }
                    }
                }
            }
            k += 1;
        }
        let ghost before = *aig;
        let result = aig.or_all(&terms);
        proof {
            lemma_grows_trans(start.spec_gates(), before.spec_gates(), aig.spec_gates());
            if !aig.spec_full() {
                assert forall|env: Seq<bool>| env.len() == start.spec_inputs() implies #[trigger] aig.value(env, result) == picked(
                    start.spec_gates(),
                    env,
                    first_of(|i: int| holds(env, i), 0, values@.len() as int),
                    base,
                    values@,
                ) by {
                    let at = |i: int| holds(env, i);
                    let n = values@.len() as int;
                    let gates = start.spec_gates();
                    assert(self.picks_at(&start, holds, env));
                    lemma_first_of(at, 0, n);
                    let k = first_of(at, 0, n);
                    assert(aig.value(env, result) == any_wire(before.spec_gates(), env, terms@));
                    if any_wire(before.spec_gates(), env, terms@) {
                        let i = choose|i: int| 0 <= i < terms@.len() && wire(before.spec_gates(), env, #[trigger] terms@[i] as int);
                        assert(term(gates, env, self.rest, self.selected@, base, values@, i));
                        if i == 0 {
                            assert(none_at(at, n));
                            if k < n {
                                assert(!at(k));
                            }
                        } else {
                            assert(wire(gates, env, self.selected@[i - 1] as int));
                            assert(first_at(at, i - 1));
                            if k < i - 1 {
                                assert(!at(k));
                            } else if i - 1 < k {
                                assert(!at(i - 1));
                            }
                        }
                    }
                    if picked(gates, env, k, base, values@) {
                        if k < n {
                            assert(wire(gates, env, self.selected@[k] as int) == first_at(at, k));
                            assert(term(gates, env, self.rest, self.selected@, base, values@, k + 1));
                            assert(wire(before.spec_gates(), env, terms@[k + 1] as int));
                        } else {
                            assert(term(gates, env, self.rest, self.selected@, base, values@, 0));
                            assert(wire(before.spec_gates(), env, terms@[0] as int));
                        }
                    }
                }
            }
        }
        result
    }
}

/// The value at an index of a list of wires, or of the base.
pub open spec fn picked(gates: Seq<(u64, u64, u64)>, env: Seq<bool>, k: int, base: u64, values: Seq<u64>) -> bool {
    if 0 <= k < values.len() {
        wire(gates, env, values[k] as int)
    } else {
        wire(gates, env, base as int)
    }
}

spec fn term(gates: Seq<(u64, u64, u64)>, env: Seq<bool>, rest: u64, selected: Seq<u64>, base: u64, values: Seq<u64>, i: int) -> bool {
    if i == 0 {
        wire(gates, env, rest as int) && wire(gates, env, base as int)
    } else {
        wire(gates, env, selected[i - 1] as int) && wire(gates, env, values[i - 1] as int)
    }
}

/// The circuit commits to the literals one by one.
fn commit_wires(values: &mut VarMap<u64>, lits: &Vec<Lit>, aig: &AigBuilder)
    requires
        aig.wf(),
        wires_ok(aig, old(values)@),
    ensures
        wires_ok(aig, final(values)@),
        forall|x: Var| #[trigger] final(values)@.contains_key(x) <==> old(values)@.contains_key(x) || clause_mentions(lits@, x),
        forall|env: Seq<bool>| #[trigger]
            point(aig.spec_gates(), env, final(values)@) == commit(point(aig.spec_gates(), env, old(values)@), lits@),
{
    let ghost gates = aig.spec_gates();
    let ghost first = values@;
    let mut k: usize = 0;
    assert(lits@.take(0) =~= Seq::<Lit>::empty());
    while k < lits.len()
        invariant
            k <= lits@.len(),
            aig.wf(),
            gates == aig.spec_gates(),
            wires_ok(aig, values@),
            forall|x: Var| #[trigger] values@.contains_key(x) <==> first.contains_key(x) || clause_mentions(lits@.take(k as int), x),
            forall|env: Seq<bool>| #[trigger] point(gates, env, values@) == commit(point(gates, env, first), lits@.take(k as int)),
        decreases lits.len() - k,
    {
        let lit = lits[k];
        let ghost before = values@;
        let value: u64 = if lit.is_positive() {
            1
        } else {
            0
        };
        values.insert(lit.var(), value);
        proof {
            let part = lits@.take(k as int);
            let next = lits@.take(k as int + 1);
            assert(next.drop_last() =~= part);
            assert(next.last() == lit);
            assert(next =~= part.push(lit));
            assert forall|x: Var| #[trigger] values@.contains_key(x) <==> first.contains_key(x) || clause_mentions(next, x) by {
                crate::qcnf::lemma_clause_push(part, lit, x);
                assert(before.contains_key(x) <==> first.contains_key(x) || clause_mentions(part, x));
            }
            assert forall|env: Seq<bool>| #[trigger] point(gates, env, values@) == commit(point(gates, env, first), next) by {
                assert(point(gates, env, before) == commit(point(gates, env, first), part));
                assert(wire(gates, env, 1int));
                assert(!wire(gates, env, 0int));
                assert(point(gates, env, values@) =~= point(gates, env, before).insert(lit.v(), lit.pos()));
            }
            assert forall|x: Var| #[trigger] values@.contains_key(x) implies aig.has(values@[x]) by {
                if x != lit.v() {
                    assert(before.contains_key(x));
                }
            }
        }
        k += 1;
    }
    assert(lits@.take(lits@.len() as int) =~= lits@);
}

/// The variables that some map has, each once.
fn union_keys(maps: &Vec<VarMap<u64>>) -> (vars: Vec<Var>)
    ensures
        vars@.no_duplicates(),
        forall|x: Var| #[trigger] vars@.contains(x) <==> exists|i: int| 0 <= i < maps@.len() && (#[trigger] maps@[i])@.contains_key(x),
{
    let mut seen: VarMap<bool> = VarMap::new();
    let mut i: usize = 0;
    while i < maps.len()
        invariant
            i <= maps@.len(),
            forall|x: Var| #[trigger] seen@.contains_key(x) <==> exists|k: int| 0 <= k < i && (#[trigger] maps@[k])@.contains_key(x),
        decreases maps.len() - i,
    {
        let keys = maps[i].keys();
        let ghost before = seen@;
        let mut j: usize = 0;
        while j < keys.len()
            invariant
                j <= keys@.len(),
                forall|x: Var| #[trigger] seen@.contains_key(x) <==> before.contains_key(x) || keys@.take(j as int).contains(x),
            decreases keys.len() - j,
        {
            let var = keys[j];
            assert(keys@.take(j as int + 1) =~= keys@.take(j as int).push(var));
            seen.insert(var, true);
            proof {
                assert forall|x: Var| #[trigger] keys@.take(j as int + 1).contains(x) <==> keys@.take(j as int).contains(x) || x == var by {
                    crate::datastructure::lemma_push_contains(keys@.take(j as int), var, x);
                }
            }
            j += 1;
        }
        proof {
            assert(keys@.take(keys@.len() as int) =~= keys@);
            assert forall|x: Var| #[trigger] seen@.contains_key(x) <==> exists|k: int| 0 <= k < i + 1 && (#[trigger] maps@[k])@.contains_key(x) by {
                assert(maps@[i as int]@.contains_key(x) <==> keys@.contains(x));
                if before.contains_key(x) {
                    let k = choose|k: int| 0 <= k < i && (#[trigger] maps@[k])@.contains_key(x);
                    assert(0 <= k < i + 1 && maps@[k]@.contains_key(x));
                }
                if exists|k: int| 0 <= k < i + 1 && (#[trigger] maps@[k])@.contains_key(x) {
                    let k = choose|k: int| 0 <= k < i + 1 && (#[trigger] maps@[k])@.contains_key(x);
                    if k < i {
                        assert(before.contains_key(x));
                    }
                }
            }
        }
        i += 1;
    }
    let vars = seen.keys();
    proof {
        assert forall|x: Var| #[trigger] vars@.contains(x) <==> exists|i: int| 0 <= i < maps@.len() && (#[trigger] maps@[i])@.contains_key(x) by {
            assert(seen@.contains_key(x) <==> vars@.contains(x));
        }
    }
    vars
}

/// The wires of one variable in the branches, `base` where a branch has
/// none; also tells whether all branches have the given wire.
fn branch_wires(branches: &Vec<VarMap<u64>>, var: Var, before: Option<u64>, base: u64, aig: &AigBuilder) -> (result: (Vec<u64>, bool))
    requires
        aig.has(base),
        forall|i: int| 0 <= i < branches@.len() ==> wires_ok(aig, (#[trigger] branches@[i])@),
    ensures
        result.0@.len() == branches@.len(),
        forall|i: int| 0 <= i < branches@.len() ==> aig.has(#[trigger] result.0@[i]),
        forall|i: int|
            0 <= i < branches@.len() ==> #[trigger] result.0@[i] == (if branches@[i]@.contains_key(var) {
                branches@[i]@[var]
            } else {
                base
            }),
        result.1 ==> forall|i: int|
            0 <= i < branches@.len() ==> before == (if (#[trigger] branches@[i])@.contains_key(var) {
                Some(branches@[i]@[var])
            } else {
                None
            }),
{
    let mut wires: Vec<u64> = Vec::new();
    let mut same = true;
    let mut i: usize = 0;
    while i < branches.len()
        invariant
            i <= branches@.len(),
            aig.has(base),
            forall|i: int| 0 <= i < branches@.len() ==> wires_ok(aig, (#[trigger] branches@[i])@),
            wires@.len() == i,
            forall|k: int| 0 <= k < i ==> aig.has(#[trigger] wires@[k]),
            forall|k: int|
                0 <= k < i ==> #[trigger] wires@[k] == (if branches@[k]@.contains_key(var) {
                    branches@[k]@[var]
                } else {
                    base
                }),
            same ==> forall|k: int|
                0 <= k < i ==> before == (if (#[trigger] branches@[k])@.contains_key(var) {
                    Some(branches@[k]@[var])
                } else {
                    None
                }),
        decreases branches.len() - i,
    {
        let here = branches[i].get(var);
        assert(wires_ok(aig, branches@[i as int]@));
        match (here, before) {
            (Some(a), Some(b)) => {
                if a != b {
                    same = false;
                }
            },
            (None, None) => {},
            _ => {
                same = false;
            },
        }
        match here {
            Some(wire) => {
                wires.push(wire);
            },
            None => {
                wires.push(base);
            },
        }
        i += 1;
    }
    (wires, same)
}

/// The wires of the values computed by a strategy.
pub open spec fn computes(s: Strategy, before: &AigBuilder, after: &AigBuilder, inputs: Map<Var, u64>, old_values: Map<Var, u64>, values: Map<Var, u64>) -> bool {
    forall|env: Seq<bool>| #[trigger] computes_at(s, before, after, inputs, old_values, values, env)
}

/// The wires of the values computed by a strategy, at given inputs.
pub open spec fn computes_at(s: Strategy, before: &AigBuilder, after: &AigBuilder, inputs: Map<Var, u64>, old_values: Map<Var, u64>, values: Map<Var, u64>, env: Seq<bool>) -> bool {
    env.len() == before.spec_inputs() ==> point(after.spec_gates(), env, values) == s.circuit(
        point(before.spec_gates(), env, inputs),
        point(before.spec_gates(), env, old_values),
    )
}

/// The conditions of a split.
spec fn split_holds(start: &AigBuilder, cases: Seq<(Vec<Lit>, Rc<Strategy>)>, inputs: Map<Var, u64>, values: Map<Var, u64>) -> spec_fn(Seq<bool>, int) -> bool {
    |env: Seq<bool>, i: int| cube_reads(
        point(start.spec_gates(), env, inputs),
        point(start.spec_gates(), env, values),
        cases[i].0@,
    )
}

/// The conditions of an expansion.
spec fn copy_holds(start: &AigBuilder, copies: Seq<(Vec<Lit>, Vec<(Var, Var)>)>, inputs: Map<Var, u64>) -> spec_fn(Seq<bool>, int) -> bool {
    |env: Seq<bool>, i: int| cube_reads(point(start.spec_gates(), env, inputs), Map::empty(), copies[i].0@)
}

/// The branches compute the circuits of their cases.
spec fn branches_ok(start: &AigBuilder, aig: &AigBuilder, cases: Seq<(Vec<Lit>, Rc<Strategy>)>, branches: Seq<VarMap<u64>>, inputs: Map<Var, u64>, values: Map<Var, u64>) -> bool {
    forall|env: Seq<bool>, i: int|
        #![trigger point(aig.spec_gates(), env, branches[i]@)]
        env.len() == start.spec_inputs() && 0 <= i < branches.len() ==> point(aig.spec_gates(), env, branches[i]@)
            == cases[i].1.circuit(point(start.spec_gates(), env, inputs), point(start.spec_gates(), env, values))
}

proof fn lemma_branches_grow(
    start: &AigBuilder,
    before: &AigBuilder,
    after: &AigBuilder,
    cases: Seq<(Vec<Lit>, Rc<Strategy>)>,
    branches: Seq<VarMap<u64>>,
    inputs: Map<Var, u64>,
    values: Map<Var, u64>,
)
    requires
        before.extends(start),
        after.extends(before),
        forall|i: int| 0 <= i < branches.len() ==> wires_ok(before, (#[trigger] branches[i])@),
    ensures
        forall|i: int| 0 <= i < branches.len() ==> wires_ok(after, (#[trigger] branches[i])@),
        branches_ok(start, before, cases, branches, inputs, values) ==> branches_ok(start, after, cases, branches, inputs, values),
{
    assert forall|i: int| 0 <= i < branches.len() implies wires_ok(after, (#[trigger] branches[i])@) by {
        assert(wires_ok(before, branches[i]@));
    }
    if branches_ok(start, before, cases, branches, inputs, values) {
        assert forall|env: Seq<bool>, i: int|
            #![trigger point(after.spec_gates(), env, branches[i]@)]
            env.len() == start.spec_inputs() && 0 <= i < branches.len() implies point(after.spec_gates(), env, branches[i]@)
            == cases[i].1.circuit(point(start.spec_gates(), env, inputs), point(start.spec_gates(), env, values)) by {
            assert(wires_ok(before, branches[i]@));
            lemma_point_grows(before, after, branches[i]@, env);
            assert(point(before.spec_gates(), env, branches[i]@) == cases[i].1.circuit(
                point(start.spec_gates(), env, inputs),
                point(start.spec_gates(), env, values),
            ));
        }
    }
}

impl Strategy {
    /// Builds the strategy into a graph over the given input wires, on top
    /// of the wires of the values so far.
    #[verifier::loop_isolation(false)]
    pub(crate) fn build_into(&self, aig: &mut AigBuilder, inputs: &VarMap<u64>, values: &mut VarMap<u64>)
        requires
            old(aig).wf(),
            wires_ok(old(aig), inputs@),
            wires_ok(old(aig), old(values)@),
        ensures
            final(aig).wf(),
            final(aig).extends(old(aig)),
            wires_ok(final(aig), final(values)@),
            !final(aig).spec_full() ==> computes(*self, old(aig), final(aig), inputs@, old(values)@, final(values)@),
            forall|set: Set<Var>| #[trigger]
                roomy(*self, old(values)@, set) ==> bounded(*self, old(aig), final(aig), final(values)@, set),
        decreases self,
    {
        let ghost start = *aig;
        let ghost first = values@;
        match self {
            Strategy::Done => {
                proof {
                    assert forall|env: Seq<bool>| #[trigger] computes_at(*self, &start, aig, inputs@, first, values@, env) by {}
                }
            },
            Strategy::Fixed { assignments, rest } => {
                commit_wires(values, assignments, aig);
                let ghost committed = values@;
                rest.build_into(aig, inputs, values);
                proof {
                    assert forall|set: Set<Var>| #[trigger] roomy(*self, first, set) implies bounded(*self, &start, aig, values@, set) by {
                        assert forall|x: Var| #[trigger] committed.contains_key(x) implies set.contains(x) by {
                            if !first.contains_key(x) {
                                assert(self.names(x));
                            }
                        }
                        assert forall|x: Var| #[trigger] rest.names(x) implies set.contains(x) by {
                            assert(self.names(x));
                        }
                        assert(roomy(**rest, committed, set));
                        assert(bounded(**rest, &start, aig, values@, set));
                    }
                    if !aig.spec_full() {
                        assert forall|env: Seq<bool>| #[trigger] computes_at(*self, &start, aig, inputs@, first, values@, env) by {
                            assert(computes_at(**rest, &start, aig, inputs@, committed, values@, env));
                            assert(point(start.spec_gates(), env, committed) == commit(
                                point(start.spec_gates(), env, first),
                                assignments@,
                            ));
                        }
                    }
                }
            },
            Strategy::Choose { constants, rest } => {
                commit_wires(values, constants, aig);
                let ghost committed = values@;
                rest.build_into(aig, inputs, values);
                proof {
                    assert forall|set: Set<Var>| #[trigger] roomy(*self, first, set) implies bounded(*self, &start, aig, values@, set) by {
                        assert forall|x: Var| #[trigger] committed.contains_key(x) implies set.contains(x) by {
                            if !first.contains_key(x) {
                                assert(self.names(x));
                            }
                        }
                        assert forall|x: Var| #[trigger] rest.names(x) implies set.contains(x) by {
                            assert(self.names(x));
                        }
                        assert(roomy(**rest, committed, set));
                        assert(bounded(**rest, &start, aig, values@, set));
                    }
                    if !aig.spec_full() {
                        assert forall|env: Seq<bool>| #[trigger] computes_at(*self, &start, aig, inputs@, first, values@, env) by {
                            assert(computes_at(**rest, &start, aig, inputs@, committed, values@, env));
                            assert(point(start.spec_gates(), env, committed) == commit(
                                point(start.spec_gates(), env, first),
                                constants@,
                            ));
                        }
                    }
                }
            },
            Strategy::Split { cases } => {
                let ghost holds = split_holds(&start, cases@, inputs@, first);
                let mut selection = Selection::new(aig);
                let mut branches: Vec<VarMap<u64>> = Vec::new();
                let mut k: usize = 0;
                while k < cases.len()
                    invariant
                        k <= cases@.len(),
                        aig.wf(),
                        aig.extends(&start),
                        wires_ok(aig, inputs@),
                        wires_ok(aig, values@),
                        values@ == first,
                        selection.wf(aig),
                        selection.selected@.len() == k,
                        branches@.len() == k,
                        forall|i: int| 0 <= i < k ==> wires_ok(aig, (#[trigger] branches@[i])@),
                        forall|set: Set<Var>| #[trigger]
                            roomy(*self, first, set) ==> split_bounded(*cases, &start, aig, branches@, k as nat, set),
                        !aig.spec_full() ==> selection.picks(aig, holds),
                        !aig.spec_full() ==> branches_ok(&start, aig, cases@, branches@, inputs@, first),
                    decreases cases.len() - k,
                {
                    let ghost before = *aig;
                    let ghost old_branches = branches@;
                    let lits = read_cube(&cases[k].0, inputs, values, aig);
                    proof {
                        assert forall|env: Seq<bool>|
                            #![trigger all_wires(aig.spec_gates(), env, lits@)]
                            env.len() == aig.spec_inputs() implies all_wires(aig.spec_gates(), env, lits@) == holds(env, k as int) by {
                            lemma_point_grows(&start, aig, inputs@, env);
                            lemma_point_grows(&start, aig, first, env);
                        }
                    }
                    selection.push(aig, &lits, Ghost(holds));
                    let ghost middle = *aig;
                    let mut branch = values.duplicate();
                    cases[k].1.build_into(aig, inputs, &mut branch);
                    branches.push(branch);
                    proof {
                        lemma_grows_trans(start.spec_gates(), before.spec_gates(), middle.spec_gates());
                        lemma_grows_trans(before.spec_gates(), middle.spec_gates(), aig.spec_gates());
                        lemma_grows_trans(start.spec_gates(), middle.spec_gates(), aig.spec_gates());
                        selection.lemma_grows(&middle, aig, holds);
                        assert forall|set: Set<Var>| #[trigger] roomy(*self, first, set) implies split_bounded(
                            *cases,
                            &start,
                            aig,
                            branches@,
                            (k + 1) as nat,
                            set,
                        ) by {
                            assert(split_bounded(*cases, &start, &before, old_branches, k as nat, set));
                            assert forall|x: Var| #[trigger] cases@[k as int].1.names(x) implies set.contains(x) by {
                                lemma_case_names(*cases, cases@.len(), k as int, x);
                                assert(self.names(x));
                            }
                            assert(roomy(*cases@[k as int].1, first, set));
                            assert(bounded(*cases@[k as int].1, &middle, aig, branch@, set));
                            assert forall|i: int, x: Var| 0 <= i < branches@.len() && #[trigger] branches@[i]@.contains_key(x) implies set.contains(x) by {
                                if i < k {
                                    assert(branches@[i] == old_branches[i]);
                                    assert(old_branches[i]@.contains_key(x));
                                } else {
                                    assert(branches@[i] == branch);
                                }
                            }
                        }
                        lemma_branches_grow(&start, &before, aig, cases@, old_branches, inputs@, first);
                        assert forall|i: int| 0 <= i < k + 1 implies wires_ok(aig, (#[trigger] branches@[i])@) by {
                            if i < k {
                                assert(branches@[i] == old_branches[i]);
                            }
                        }
                        if !aig.spec_full() {
                            assert forall|env: Seq<bool>, i: int|
                                #![trigger point(aig.spec_gates(), env, branches@[i]@)]
                                env.len() == start.spec_inputs() && 0 <= i < branches@.len() implies point(
                                aig.spec_gates(),
                                env,
                                branches@[i]@,
                            ) == cases@[i].1.circuit(point(start.spec_gates(), env, inputs@), point(start.spec_gates(), env, first)) by {
                                if i < k {
                                    assert(branches@[i] == old_branches[i]);
                                    assert(point(aig.spec_gates(), env, old_branches[i]@) == cases@[i].1.circuit(
                                        point(start.spec_gates(), env, inputs@),
                                        point(start.spec_gates(), env, first),
                                    ));
                                } else {
                                    assert(computes_at(*cases@[k as int].1, &middle, aig, inputs@, first, branch@, env));
                                    lemma_point_grows(&start, &middle, inputs@, env);
                                    lemma_point_grows(&start, &middle, first, env);
                                }
                            }
                        }
                    }
                    k += 1;
                }
                let ghost split = *aig;
                merge_branches(aig, values, &branches, &selection, Ghost(start), Ghost(*cases), Ghost(inputs@));
                proof {
                    assert forall|set: Set<Var>| #[trigger] roomy(*self, first, set) implies bounded(*self, &start, aig, values@, set) by {
                        assert(split_bounded(*cases, &start, &split, branches@, cases@.len(), set));
                        assert(covers_branches(branches@, first, set));
                    }
                    if !aig.spec_full() {
                        assert forall|env: Seq<bool>| #[trigger] computes_at(*self, &start, aig, inputs@, first, values@, env) by {
                            if env.len() == start.spec_inputs() {
                                assert(merges_at(&start, aig, *cases, inputs@, first, values@, env));
                            }
                        }
                    }
                }
            },
            Strategy::Expanded { copies, rest } => {
                rest.build_into(aig, inputs, values);
                let ghost inner_aig = *aig;
                let ghost inner = values@;
                fold_wires(aig, inputs, values, copies);
                proof {
                    assert forall|set: Set<Var>| #[trigger] roomy(*self, first, set) implies bounded(*self, &start, aig, values@, set) by {
                        assert forall|x: Var| #[trigger] rest.names(x) implies set.contains(x) by {
                            assert(self.names(x));
                        }
                        assert(roomy(**rest, first, set));
                        assert(bounded(**rest, &start, &inner_aig, inner, set));
                        assert forall|x: Var| #[trigger] is_original(copies@, x) implies set.contains(x) by {
                            assert(self.names(x));
                        }
                        assert(covers_copies(copies@, inner, set));
                    }
                    lemma_grows_trans(start.spec_gates(), inner_aig.spec_gates(), aig.spec_gates());
                    if !aig.spec_full() {
                        assert forall|env: Seq<bool>| #[trigger] computes_at(*self, &start, aig, inputs@, first, values@, env) by {
                            if env.len() == start.spec_inputs() {
                                assert(computes_at(**rest, &start, &inner_aig, inputs@, first, inner, env));
                                assert(folds_at(&inner_aig, aig, copies@, inputs@, inner, values@, env));
                                lemma_point_grows(&start, &inner_aig, inputs@, env);
                            }
                        }
                    }
                }
            },
            Strategy::Leaf(model) => {
                leaf_wires(aig, model, inputs, values);
                proof {
                    assert forall|set: Set<Var>| #[trigger] roomy(*self, first, set) implies bounded(*self, &start, aig, values@, set) by {
                        assert forall|x: Var| #[trigger] values@.contains_key(x) implies set.contains(x) by {
                            if !first.contains_key(x) {
                                assert(self.names(x));
                            }
                        }
                    }
                    if !aig.spec_full() {
                        assert forall|env: Seq<bool>| #[trigger] computes_at(*self, &start, aig, inputs@, first, values@, env) by {
                            assert(leaf_at(&start, aig, **model, inputs@, first, values@, env));
                        }
                    }
                }
            },
        }
    }
}

/// The first cases are within their bound, and the set holds the variables
/// with wires in them.
spec fn split_bounded(
    cases: Vec<(Vec<Lit>, Rc<Strategy>)>,
    start: &AigBuilder,
    aig: &AigBuilder,
    branches: Seq<VarMap<u64>>,
    n: nat,
    set: Set<Var>,
) -> bool {
    &&& aig.spec_gates().len() <= start.spec_gates().len() + Strategy::case_bound(cases, n, set.len())
    &&& forall|i: int, x: Var| 0 <= i < branches.len() && #[trigger] branches[i]@.contains_key(x) ==> set.contains(x)
}

/// The set holds the variables with wires before and in the branches.
spec fn covers_branches(branches: Seq<VarMap<u64>>, first: Map<Var, u64>, set: Set<Var>) -> bool {
    &&& set.finite()
    &&& forall|x: Var| #[trigger] first.contains_key(x) ==> set.contains(x)
    &&& forall|i: int, x: Var| 0 <= i < branches.len() && #[trigger] branches[i]@.contains_key(x) ==> set.contains(x)
}

/// The set holds the variables with wires and the originals of the copies.
spec fn covers_copies(copies: Seq<(Vec<Lit>, Vec<(Var, Var)>)>, inner: Map<Var, u64>, set: Set<Var>) -> bool {
    &&& set.finite()
    &&& forall|x: Var| #[trigger] inner.contains_key(x) ==> set.contains(x)
    &&& forall|x: Var| #[trigger] is_original(copies, x) ==> set.contains(x)
}

/// What a case names, the split does.
proof fn lemma_case_names(cases: Vec<(Vec<Lit>, Rc<Strategy>)>, n: nat, k: int, x: Var)
    requires
        0 <= k < n <= cases@.len(),
        cases@[k].1.names(x),
    ensures
        Strategy::case_names(cases, n, x),
    decreases n,
{
    if k < n - 1 {
        lemma_case_names(cases, (n - 1) as nat, k, x);
    }
}

/// The merged wires compute the split.
spec fn merges_at(start: &AigBuilder, aig: &AigBuilder, cases: Vec<(Vec<Lit>, Rc<Strategy>)>, inputs: Map<Var, u64>, first: Map<Var, u64>, values: Map<Var, u64>, env: Seq<bool>) -> bool {
    let i0 = point(start.spec_gates(), env, inputs);
    let v0 = point(start.spec_gates(), env, first);
    point(aig.spec_gates(), env, values) == merge(
        Strategy::branches(cases, cases@.len(), i0, v0),
        first_of(|i: int| cube_reads(i0, v0, cases@[i].0@), 0, cases@.len() as int),
        v0,
    )
}

/// Merges the wires of the branches back together: outside every cube the
/// value is whatever held before.
#[verifier::loop_isolation(false)]
fn merge_branches(
    aig: &mut AigBuilder,
    values: &mut VarMap<u64>,
    branches: &Vec<VarMap<u64>>,
    selection: &Selection,
    Ghost(start): Ghost<AigBuilder>,
    Ghost(cases): Ghost<Vec<(Vec<Lit>, Rc<Strategy>)>>,
    Ghost(inputs): Ghost<Map<Var, u64>>,
)
    requires
        old(aig).wf(),
        old(aig).extends(&start),
        wires_ok(&start, old(values)@),
        wires_ok(&start, inputs),
        selection.wf(old(aig)),
        selection.selected@.len() == cases@.len(),
        branches@.len() == cases@.len(),
        forall|i: int| 0 <= i < branches@.len() ==> wires_ok(old(aig), (#[trigger] branches@[i])@),
        !old(aig).spec_full() ==> selection.picks(old(aig), split_holds(&start, cases@, inputs, old(values)@)),
        !old(aig).spec_full() ==> branches_ok(&start, old(aig), cases@, branches@, inputs, old(values)@),
    ensures
        final(aig).wf(),
        final(aig).extends(old(aig)),
        final(aig).extends(&start),
        wires_ok(final(aig), final(values)@),
        forall|set: Set<Var>| #[trigger]
            covers_branches(branches@, old(values)@, set) ==> final(aig).spec_gates().len() <= old(aig).spec_gates().len() + set.len() * (2
                * cases@.len() + 2) && forall|x: Var| #[trigger] final(values)@.contains_key(x) ==> set.contains(x),
        !final(aig).spec_full() ==> forall|env: Seq<bool>| #[trigger]
            merges_at(&start, final(aig), cases, inputs, old(values)@, final(values)@, env) || env.len() != start.spec_inputs(),
{
    let ghost entry = *aig;
    let ghost first = values@;
    let ghost holds = split_holds(&start, cases@, inputs, first);
    let defined = union_keys(branches);
    let mut k: usize = 0;
    while k < defined.len()
        invariant
            k <= defined@.len(),
            aig.wf(),
            aig.extends(&entry),
            aig.spec_gates().len() <= entry.spec_gates().len() + k * (2 * cases@.len() + 2),
            wires_ok(aig, values@),
            forall|x: Var|
                !defined@.take(k as int).contains(x) ==> (#[trigger] values@.contains_key(x) <==> first.contains_key(x)) && (
                first.contains_key(x) ==> values@[x] == first[x]),
            forall|x: Var| #[trigger] defined@.take(k as int).contains(x) ==> values@.contains_key(x),
            !aig.spec_full() ==> forall|env: Seq<bool>, x: Var|
                #![trigger wire(aig.spec_gates(), env, values@[x] as int)]
                env.len() == start.spec_inputs() && defined@.take(k as int).contains(x) ==> wire(
                    aig.spec_gates(),
                    env,
                    values@[x] as int,
                ) == merged_value(&entry, env, branches@, holds, first, x),
        decreases defined.len() - k,
    {
        let ghost before = *aig;
        let ghost old_values = values@;
        let var = defined[k];
        let earlier = values.get(var);
        let base: u64 = match earlier {
            Some(base) => base,
            None => 0,
        };
        proof {
            let part = defined@.take(k as int);
            assert(defined@.take(k as int + 1) =~= part.push(var));
            assert(!part.contains(var)) by {
                if part.contains(var) {
                    let i = choose|i: int| 0 <= i < part.len() && part[i] == var;
                    assert(defined@[i] == defined@[k as int]);
                }
            }
            assert forall|x: Var| #[trigger] defined@.take(k as int + 1).contains(x) <==> part.contains(x) || x == var by {
                crate::datastructure::lemma_push_contains(part, var, x);
            }
            lemma_grows_trans(start.spec_gates(), entry.spec_gates(), before.spec_gates());
            lemma_branches_grow(&start, &entry, &before, cases@, branches@, inputs, first);
            selection.lemma_grows(&entry, &before, holds);
            assert(before.has(base)) by {
                if old_values.contains_key(var) {
                    assert(before.has(old_values[var]));
                }
            }
        }
        let (wires, same) = branch_wires(branches, var, earlier, base, aig);
        assert((k + 1) * (2 * cases@.len() + 2) == k * (2 * cases@.len() + 2) + (2 * cases@.len() + 2)) by (nonlinear_arith);
        if !same {
            let merged = selection.pick(aig, base, &wires, Ghost(holds));
            values.insert(var, merged);
            proof {
                lemma_grows_trans(entry.spec_gates(), before.spec_gates(), aig.spec_gates());
                assert forall|x: Var| #[trigger] values@.contains_key(x) implies aig.has(values@[x]) by {
                    if x != var {
                        assert(old_values.contains_key(x));
                        assert(before.has(old_values[x]));
                    }
                }
                if !aig.spec_full() {
                    assert forall|env: Seq<bool>, x: Var|
                        #![trigger wire(aig.spec_gates(), env, values@[x] as int)]
                        env.len() == start.spec_inputs() && defined@.take(k as int + 1).contains(x) implies wire(
                        aig.spec_gates(),
                        env,
                        values@[x] as int,
                    ) == merged_value(&entry, env, branches@, holds, first, x) by {
                        if x == var {
                            lemma_merged_wire(&entry, &before, env, branches@, holds, first, var, base, wires@);
                            assert(aig.value(env, merged) == picked(
                                before.spec_gates(),
                                env,
                                first_of(|i: int| holds(env, i), 0, wires@.len() as int),
                                base,
                                wires@,
                            ));
                        } else {
                            assert(old_values.contains_key(x));
                            assert(before.has(old_values[x]));
                            lemma_value_grows(&before, aig, old_values[x], env);
                            assert(wire(before.spec_gates(), env, old_values[x] as int) == merged_value(
                                &entry,
                                env,
                                branches@,
                                holds,
                                first,
                                x,
                            ));
                        }
                    }
                }
            }
        } else {
            proof {
                // some branch has the variable, so all have the wire from
                // before
                assert(defined@.contains(var)) by {
                    assert(defined@[k as int] == var);
                }
                let i = choose|i: int| 0 <= i < branches@.len() && (#[trigger] branches@[i])@.contains_key(var);
                assert(earlier == Some(branches@[i]@[var]));
                if !aig.spec_full() {
                    assert forall|env: Seq<bool>, x: Var|
                        #![trigger wire(aig.spec_gates(), env, values@[x] as int)]
                        env.len() == start.spec_inputs() && defined@.take(k as int + 1).contains(x) implies wire(
                        aig.spec_gates(),
                        env,
                        values@[x] as int,
                    ) == merged_value(&entry, env, branches@, holds, first, x) by {
                        if x == var {
                            lemma_merged_wire(&entry, &before, env, branches@, holds, first, var, base, wires@);
                            let at = |i: int| holds(env, i);
                            let c = first_of(at, 0, wires@.len() as int);
                            lemma_first_of(at, 0, wires@.len() as int);
                            if c < wires@.len() {
                                assert(wires@[c] == base);
                            }
                        }
                    }
                }
            }
        }
        proof {
            assert forall|x: Var| !defined@.take(k as int + 1).contains(x) implies (#[trigger] values@.contains_key(x)
                <==> first.contains_key(x)) && (first.contains_key(x) ==> values@[x] == first[x]) by {
                assert(!defined@.take(k as int).contains(x) && x != var);
                assert(old_values.contains_key(x) <==> first.contains_key(x));
            }
            assert forall|x: Var| #[trigger] defined@.take(k as int + 1).contains(x) implies values@.contains_key(x) by {
                if x != var {
                    assert(defined@.take(k as int).contains(x));
                    assert(old_values.contains_key(x));
                }
            }
        }
        k += 1;
    }
    proof {
        assert(defined@.take(defined@.len() as int) =~= defined@);
        assert forall|set: Set<Var>| #[trigger] covers_branches(branches@, first, set) implies aig.spec_gates().len()
            <= entry.spec_gates().len() + set.len() * (2 * cases@.len() + 2) && forall|x: Var| #[trigger]
            values@.contains_key(x) ==> set.contains(x) by {
            assert forall|x: Var| #[trigger] defined@.contains(x) implies set.contains(x) by {
                let i = choose|i: int| 0 <= i < branches@.len() && (#[trigger] branches@[i])@.contains_key(x);
                assert(branches@[i]@.contains_key(x));
            }
            assert forall|i: int| 0 <= i < defined@.len() implies set.contains(#[trigger] defined@[i]) by {
                assert(defined@.contains(defined@[i]));
            }
            crate::effort::lemma_distinct_len(defined@, set);
            lemma_times(defined@.len(), set.len(), 2 * cases@.len() + 2);
            assert forall|x: Var| #[trigger] values@.contains_key(x) implies set.contains(x) by {
                if !defined@.contains(x) {
                    assert(first.contains_key(x));
                }
            }
        }
        lemma_grows_trans(start.spec_gates(), entry.spec_gates(), aig.spec_gates());
        if !aig.spec_full() {
            assert forall|env: Seq<bool>| #[trigger] merges_at(&start, aig, cases, inputs, first, values@, env) || env.len()
                != start.spec_inputs() by {
                if env.len() == start.spec_inputs() {
                    lemma_merged_point(&start, &entry, aig, cases, branches@, inputs, first, values@, defined@, env);
                }
            }
        }
    }
}

/// The value of a variable after a split.
spec fn merged_value(entry: &AigBuilder, env: Seq<bool>, branches: Seq<VarMap<u64>>, holds: spec_fn(Seq<bool>, int) -> bool, first: Map<Var, u64>, x: Var) -> bool {
    let k = first_of(|i: int| holds(env, i), 0, branches.len() as int);
    if 0 <= k < branches.len() && branches[k]@.contains_key(x) {
        wire(entry.spec_gates(), env, branches[k]@[x] as int)
    } else {
        value_or_false(point(entry.spec_gates(), env, first), x)
    }
}

proof fn lemma_merged_wire(
    entry: &AigBuilder,
    before: &AigBuilder,
    env: Seq<bool>,
    branches: Seq<VarMap<u64>>,
    holds: spec_fn(Seq<bool>, int) -> bool,
    first: Map<Var, u64>,
    var: Var,
    base: u64,
    wires: Seq<u64>,
)
    requires
        before.extends(entry),
        env.len() == entry.spec_inputs(),
        wires.len() == branches.len(),
        wires_ok(entry, first),
        forall|i: int| 0 <= i < branches.len() ==> wires_ok(entry, (#[trigger] branches[i])@),
        forall|i: int|
            0 <= i < branches.len() ==> #[trigger] wires[i] == (if branches[i]@.contains_key(var) {
                branches[i]@[var]
            } else {
                base
            }),
        base == (if first.contains_key(var) { first[var] } else { 0 }),
    ensures
        picked(before.spec_gates(), env, first_of(|i: int| holds(env, i), 0, wires.len() as int), base, wires) == merged_value(
            entry,
            env,
            branches,
            holds,
            first,
            var,
        ),
{
    let at = |i: int| holds(env, i);
    let k = first_of(at, 0, wires.len() as int);
    lemma_first_of(at, 0, wires.len() as int);
    assert(!wire(before.spec_gates(), env, 0int));
    if first.contains_key(var) {
        assert(entry.has(first[var]));
        lemma_value_grows(entry, before, first[var], env);
    }
    if k < wires.len() {
        assert(wires_ok(entry, branches[k]@));
        if branches[k]@.contains_key(var) {
            assert(entry.has(branches[k]@[var]));
            lemma_value_grows(entry, before, branches[k]@[var], env);
        }
    }
}

proof fn lemma_merged_point(
    start: &AigBuilder,
    entry: &AigBuilder,
    aig: &AigBuilder,
    cases: Vec<(Vec<Lit>, Rc<Strategy>)>,
    branches: Seq<VarMap<u64>>,
    inputs: Map<Var, u64>,
    first: Map<Var, u64>,
    values: Map<Var, u64>,
    defined: Seq<Var>,
    env: Seq<bool>,
)
    requires
        entry.extends(start),
        aig.extends(entry),
        env.len() == start.spec_inputs(),
        wires_ok(start, first),
        branches.len() == cases@.len(),
        branches_ok(start, entry, cases@, branches, inputs, first),
        forall|x: Var| #[trigger] defined.contains(x) <==> exists|i: int| 0 <= i < branches.len() && (#[trigger] branches[i])@.contains_key(x),
        forall|x: Var|
            !defined.contains(x) ==> (#[trigger] values.contains_key(x) <==> first.contains_key(x)) && (first.contains_key(x)
                ==> values[x] == first[x]),
        forall|x: Var| #[trigger] defined.contains(x) ==> values.contains_key(x),
        forall|x: Var|
            #![trigger wire(aig.spec_gates(), env, values[x] as int)]
            defined.contains(x) ==> wire(aig.spec_gates(), env, values[x] as int) == merged_value(
                entry,
                env,
                branches,
                split_holds(start, cases@, inputs, first),
                first,
                x,
            ),
    ensures
        merges_at(start, aig, cases, inputs, first, values, env),
{
    let i0 = point(start.spec_gates(), env, inputs);
    let v0 = point(start.spec_gates(), env, first);
    let holds = split_holds(start, cases@, inputs, first);
    let bs = Strategy::branches(cases, cases@.len(), i0, v0);
    let at = |i: int| cube_reads(i0, v0, cases@[i].0@);
    let at2 = |i: int| holds(env, i);
    assert(at =~= at2);
    let n = cases@.len() as int;
    let k = first_of(at, 0, n);
    lemma_first_of(at, 0, n);
    lemma_branches(cases, cases@.len(), i0, v0);
    lemma_grows_trans(start.spec_gates(), entry.spec_gates(), aig.spec_gates());
    lemma_point_grows(start, entry, first, env);
    assert forall|i: int| 0 <= i < n implies bs[i] == point(entry.spec_gates(), env, (#[trigger] branches[i])@) by {}
    let target = merge(bs, k, v0);
    let now = point(aig.spec_gates(), env, values);
    assert forall|x: Var| now.contains_key(x) == target.contains_key(x) by {
        if in_some(bs, x) {
            let i = choose|i: int| 0 <= i < bs.len() && (#[trigger] bs[i]).contains_key(x);
            assert(branches[i]@.contains_key(x));
            assert(defined.contains(x));
        }
        if defined.contains(x) {
            let i = choose|i: int| 0 <= i < branches.len() && (#[trigger] branches[i])@.contains_key(x);
            assert(bs[i].contains_key(x));
        }
    }
    assert forall|x: Var| now.contains_key(x) implies now[x] == target[x] by {
        if defined.contains(x) {
            assert(wire(aig.spec_gates(), env, values[x] as int) == merged_value(entry, env, branches, holds, first, x));
            if k < n {
                assert(bs[k] == point(entry.spec_gates(), env, branches[k]@));
            }
        } else {
            assert(values[x] == first[x]);
            assert(start.has(first[x]));
            lemma_value_grows(start, aig, first[x], env);
            if k < n && bs[k].contains_key(x) {
                assert(branches[k]@.contains_key(x));
            }
        }
    }
    assert(now =~= target);
}

/// The folded wires compute the expansion.
spec fn folds_at(inner_aig: &AigBuilder, aig: &AigBuilder, copies: Seq<(Vec<Lit>, Vec<(Var, Var)>)>, inputs: Map<Var, u64>, inner: Map<Var, u64>, values: Map<Var, u64>, env: Seq<bool>) -> bool {
    let i0 = point(inner_aig.spec_gates(), env, inputs);
    point(aig.spec_gates(), env, values) == fold_copies(
        copies,
        first_of(|i: int| cube_reads(i0, Map::empty(), copies[i].0@), 0, copies.len() as int),
        point(inner_aig.spec_gates(), env, inner),
    )
}

/// The first position of the variable in a renaming.
fn find_position(rename: &Vec<(Var, Var)>, var: Var) -> (result: Option<usize>)
    ensures
        match result {
            Some(j) => j < rename@.len() && position(rename@, 0, var) == j,
            None => position(rename@, 0, var) == rename@.len(),
        },
{
    let mut k: usize = 0;
    while k < rename.len()
        invariant
            k <= rename@.len(),
            position(rename@, 0, var) == position(rename@, k as int, var),
        decreases rename.len() - k,
    {
        if rename[k].0 == var {
            return Some(k);
        }
        k += 1;
    }
    None
}

/// The wires of a variable in each copy, `base` where a copy has none.
fn copy_wires(copies: &Copies, values: &VarMap<u64>, var: Var, base: u64, aig: &AigBuilder) -> (wires: Vec<u64>)
    requires
        aig.has(base),
        wires_ok(aig, values@),
    ensures
        wires@.len() == copies@.len(),
        forall|i: int| 0 <= i < wires@.len() ==> aig.has(#[trigger] wires@[i]),
        forall|gates: Seq<(u64, u64, u64)>, env: Seq<bool>, i: int|
            #![trigger wire(gates, env, wires@[i] as int)]
            0 <= i < wires@.len() && wire(gates, env, base as int) == value_or_false(point(gates, env, values@), var) ==> wire(
                gates,
                env,
                wires@[i] as int,
            ) == copy_value(copies@[i].1@, point(gates, env, values@), var),
{
    let mut wires: Vec<u64> = Vec::new();
    let mut k: usize = 0;
    while k < copies.len()
        invariant
            k <= copies@.len(),
            aig.has(base),
            wires_ok(aig, values@),
            wires@.len() == k,
            forall|i: int| 0 <= i < wires@.len() ==> aig.has(#[trigger] wires@[i]),
            forall|gates: Seq<(u64, u64, u64)>, env: Seq<bool>, i: int|
                #![trigger wire(gates, env, wires@[i] as int)]
                0 <= i < wires@.len() && wire(gates, env, base as int) == value_or_false(point(gates, env, values@), var) ==> wire(
                    gates,
                    env,
                    wires@[i] as int,
                ) == copy_value(copies@[i].1@, point(gates, env, values@), var),
        decreases copies.len() - k,
    {
        let ghost before = wires@;
        let wire_of = match find_position(&copies[k].1, var) {
            Some(j) => match values.get(copies[k].1[j].1) {
                Some(wire_of) => wire_of,
                None => base,
            },
            None => base,
        };
        wires.push(wire_of);
        proof {
            assert(aig.has(wire_of));
            assert forall|i: int| 0 <= i < wires@.len() implies aig.has(#[trigger] wires@[i]) by {
                if i < k {
                    assert(wires@[i] == before[i]);
                }
            }
            assert forall|gates: Seq<(u64, u64, u64)>, env: Seq<bool>, i: int|
                #![trigger wire(gates, env, wires@[i] as int)]
                0 <= i < wires@.len() && wire(gates, env, base as int) == value_or_false(point(gates, env, values@), var) implies wire(
                gates,
                env,
                wires@[i] as int,
            ) == copy_value(copies@[i].1@, point(gates, env, values@), var) by {
                if i < k {
                    assert(wires@[i] == before[i]);
                    assert(wire(gates, env, before[i] as int) == copy_value(copies@[i].1@, point(gates, env, values@), var));
                }
            }
        }
        k += 1;
    }
    wires
}

/// The originals of all renamings, each once, and the copies.
fn renamed_vars(copies: &Copies) -> (result: (Vec<Var>, Vec<Var>))
    ensures
        result.0@.no_duplicates(),
        forall|x: Var| #[trigger] result.0@.contains(x) <==> is_original(copies@, x),
        forall|x: Var| #[trigger] result.1@.contains(x) <==> is_copied(copies@, x),
{
    let mut originals: VarMap<bool> = VarMap::new();
    let mut fresh: VarMap<bool> = VarMap::new();
    let mut k: usize = 0;
    while k < copies.len()
        invariant
            k <= copies@.len(),
            forall|x: Var| #[trigger] originals@.contains_key(x) <==> is_original(copies@.take(k as int), x),
            forall|x: Var| #[trigger] fresh@.contains_key(x) <==> is_copied(copies@.take(k as int), x),
        decreases copies.len() - k,
    {
        let ghost old_originals = originals@;
        let ghost old_fresh = fresh@;
        let ghost rename = copies@[k as int].1@;
        let mut j: usize = 0;
        while j < copies[k].1.len()
            invariant
                k < copies@.len(),
                rename == copies@[k as int].1@,
                j <= rename.len(),
                forall|x: Var| #[trigger] originals@.contains_key(x) <==> old_originals.contains_key(x) || exists|i: int|
                    0 <= i < j && (#[trigger] rename[i]).0 == x,
                forall|x: Var| #[trigger] fresh@.contains_key(x) <==> old_fresh.contains_key(x) || exists|i: int|
                    0 <= i < j && (#[trigger] rename[i]).1 == x,
            decreases rename.len() - j,
        {
            let (original, copy) = copies[k].1[j];
            let ghost b1 = originals@;
            let ghost b2 = fresh@;
            originals.insert(original, true);
            fresh.insert(copy, true);
            proof {
                assert(rename[j as int] == (original, copy));
                assert forall|x: Var| #[trigger] originals@.contains_key(x) <==> old_originals.contains_key(x) || exists|i: int|
                    0 <= i < j + 1 && (#[trigger] rename[i]).0 == x by {
                    assert(originals@.contains_key(x) <==> b1.contains_key(x) || x == original);
                    if exists|i: int| 0 <= i < j && (#[trigger] rename[i]).0 == x {
                        let i = choose|i: int| 0 <= i < j && (#[trigger] rename[i]).0 == x;
                        assert(0 <= i < j + 1 && rename[i].0 == x);
                    }
                    if x == original {
                        assert(rename[j as int].0 == x);
                    }
                    if exists|i: int| 0 <= i < j + 1 && (#[trigger] rename[i]).0 == x {
                        let i = choose|i: int| 0 <= i < j + 1 && (#[trigger] rename[i]).0 == x;
                        if i < j {
                            assert(b1.contains_key(x));
                        }
                    }
                }
                assert forall|x: Var| #[trigger] fresh@.contains_key(x) <==> old_fresh.contains_key(x) || exists|i: int|
                    0 <= i < j + 1 && (#[trigger] rename[i]).1 == x by {
                    assert(fresh@.contains_key(x) <==> b2.contains_key(x) || x == copy);
                    if exists|i: int| 0 <= i < j && (#[trigger] rename[i]).1 == x {
                        let i = choose|i: int| 0 <= i < j && (#[trigger] rename[i]).1 == x;
                        assert(0 <= i < j + 1 && rename[i].1 == x);
                    }
                    if x == copy {
                        assert(rename[j as int].1 == x);
                    }
                    if exists|i: int| 0 <= i < j + 1 && (#[trigger] rename[i]).1 == x {
                        let i = choose|i: int| 0 <= i < j + 1 && (#[trigger] rename[i]).1 == x;
                        if i < j {
                            assert(b2.contains_key(x));
                        }
                    }
                }
            }
            j += 1;
        }
        proof {
            let part = copies@.take(k as int);
            let next = copies@.take(k as int + 1);
            assert forall|x: Var| #[trigger] originals@.contains_key(x) <==> is_original(next, x) by {
                if is_original(part, x) {
                    let (c, i) = choose|c: int, i: int| 0 <= c < part.len() && 0 <= i < part[c].1@.len() && (#[trigger] part[c].1@[i]).0 == x;
                    assert(next[c].1@[i].0 == x);
                }
                if exists|i: int| 0 <= i < rename.len() && (#[trigger] rename[i]).0 == x {
                    let i = choose|i: int| 0 <= i < rename.len() && (#[trigger] rename[i]).0 == x;
                    assert(next[k as int].1@[i].0 == x);
                }
                if is_original(next, x) {
                    let (c, i) = choose|c: int, i: int| 0 <= c < next.len() && 0 <= i < next[c].1@.len() && (#[trigger] next[c].1@[i]).0 == x;
                    if c < k {
                        assert(part[c].1@[i].0 == x);
                        assert(old_originals.contains_key(x));
                    } else {
                        assert(rename[i].0 == x);
                    }
                }
            }
            assert forall|x: Var| #[trigger] fresh@.contains_key(x) <==> is_copied(next, x) by {
                if is_copied(part, x) {
                    let (c, i) = choose|c: int, i: int| 0 <= c < part.len() && 0 <= i < part[c].1@.len() && (#[trigger] part[c].1@[i]).1 == x;
                    assert(next[c].1@[i].1 == x);
                }
                if exists|i: int| 0 <= i < rename.len() && (#[trigger] rename[i]).1 == x {
                    let i = choose|i: int| 0 <= i < rename.len() && (#[trigger] rename[i]).1 == x;
                    assert(next[k as int].1@[i].1 == x);
                }
                if is_copied(next, x) {
                    let (c, i) = choose|c: int, i: int| 0 <= c < next.len() && 0 <= i < next[c].1@.len() && (#[trigger] next[c].1@[i]).1 == x;
                    if c < k {
                        assert(part[c].1@[i].1 == x);
                        assert(old_fresh.contains_key(x));
                    } else {
                        assert(rename[i].1 == x);
                    }
                }
            }
        }
        k += 1;
    }
    assert(copies@.take(copies@.len() as int) =~= copies@);
    let first = originals.keys();
    let second = fresh.keys();
    proof {
        assert forall|x: Var| #[trigger] first@.contains(x) <==> is_original(copies@, x) by {
            assert(originals@.contains_key(x) <==> first@.contains(x));
        }
        assert forall|x: Var| #[trigger] second@.contains(x) <==> is_copied(copies@, x) by {
            assert(fresh@.contains_key(x) <==> second@.contains(x));
        }
    }
    (first, second)
}

/// Folds the copies of an expansion: every original takes the wire of the
/// copy that is selected, and the copies are dropped.
#[verifier::loop_isolation(false)]
fn fold_wires(aig: &mut AigBuilder, inputs: &VarMap<u64>, values: &mut VarMap<u64>, copies: &Copies)
    requires
        old(aig).wf(),
        wires_ok(old(aig), inputs@),
        wires_ok(old(aig), old(values)@),
    ensures
        final(aig).wf(),
        final(aig).extends(old(aig)),
        wires_ok(final(aig), final(values)@),
        forall|set: Set<Var>| #[trigger]
            covers_copies(copies@, old(values)@, set) ==> final(aig).spec_gates().len() <= old(aig).spec_gates().len() + copy_bound(
                copies@,
                copies@.len() as int,
            ) + set.len() * (2 * copies@.len() + 2) && forall|x: Var| #[trigger] final(values)@.contains_key(x) ==> set.contains(x),
        !final(aig).spec_full() ==> forall|env: Seq<bool>| #[trigger]
            folds_at(old(aig), final(aig), copies@, inputs@, old(values)@, final(values)@, env) || env.len() != old(aig).spec_inputs(),
{
    let ghost start = *aig;
    let ghost inner = values@;
    let ghost holds = copy_holds(&start, copies@, inputs@);
    let none: VarMap<u64> = VarMap::new();
    let mut selection = Selection::new(aig);
    let mut k: usize = 0;
    while k < copies.len()
        invariant
            k <= copies@.len(),
            aig.wf(),
            aig.extends(&start),
            aig.spec_gates().len() <= start.spec_gates().len() + copy_bound(copies@, k as int),
            selection.wf(aig),
            selection.selected@.len() == k,
            !aig.spec_full() ==> selection.picks(aig, holds),
        decreases copies.len() - k,
    {
        let ghost before = *aig;
        let lits = read_cube(&copies[k].0, inputs, &none, aig);
        proof {
            assert forall|env: Seq<bool>|
                #![trigger all_wires(aig.spec_gates(), env, lits@)]
                env.len() == aig.spec_inputs() implies all_wires(aig.spec_gates(), env, lits@) == holds(env, k as int) by {
                lemma_point_grows(&start, aig, inputs@, env);
                assert(point(aig.spec_gates(), env, none@) =~= Map::empty());
            }
        }
        selection.push(aig, &lits, Ghost(holds));
        proof {
            lemma_grows_trans(start.spec_gates(), before.spec_gates(), aig.spec_gates());
        }
        k += 1;
    }
    let (originals, fresh) = renamed_vars(copies);
    let ghost selecting = aig.spec_gates().len();
    let mut projected: Vec<u64> = Vec::new();
    let mut k: usize = 0;
    while k < originals.len()
        invariant
            k <= originals@.len(),
            aig.wf(),
            aig.extends(&start),
            aig.spec_gates().len() <= selecting + k * (2 * copies@.len() + 2),
            selection.wf(aig),
            selection.selected@.len() == copies@.len(),
            !aig.spec_full() ==> selection.picks(aig, holds),
            projected@.len() == k,
            forall|i: int| 0 <= i < k ==> aig.has(#[trigger] projected@[i]),
            !aig.spec_full() ==> forall|env: Seq<bool>, i: int|
                #![trigger wire(aig.spec_gates(), env, projected@[i] as int)]
                env.len() == start.spec_inputs() && 0 <= i < k ==> wire(aig.spec_gates(), env, projected@[i] as int)
                    == folded_value(&start, env, copies@, holds, inner, originals@[i]),
        decreases originals.len() - k,
    {
        let ghost before = *aig;
        let ghost old_projected = projected@;
        let var = originals[k];
        let base: u64 = match values.get(var) {
            Some(base) => base,
            None => 0,
        };
        proof {
            assert(before.has(base)) by {
                if inner.contains_key(var) {
                    assert(start.has(inner[var]));
                }
            }
            assert forall|x: Var| #[trigger] inner.contains_key(x) implies before.has(inner[x]) by {
                assert(start.has(inner[x]));
            }
        }
        let wires = copy_wires(copies, values, var, base, aig);
        let out = selection.pick(aig, base, &wires, Ghost(holds));
        projected.push(out);
        assert((k + 1) * (2 * copies@.len() + 2) == k * (2 * copies@.len() + 2) + (2 * copies@.len() + 2)) by (nonlinear_arith);
        proof {
            lemma_grows_trans(start.spec_gates(), before.spec_gates(), aig.spec_gates());
            selection.lemma_grows(&before, aig, holds);
            assert forall|i: int| 0 <= i < k + 1 implies aig.has(#[trigger] projected@[i]) by {
                if i < k {
                    assert(projected@[i] == old_projected[i]);
                    assert(before.has(old_projected[i]));
                }
            }
            if !aig.spec_full() {
                assert forall|env: Seq<bool>, i: int|
                    #![trigger wire(aig.spec_gates(), env, projected@[i] as int)]
                    env.len() == start.spec_inputs() && 0 <= i < k + 1 implies wire(aig.spec_gates(), env, projected@[i] as int)
                    == folded_value(&start, env, copies@, holds, inner, originals@[i]) by {
                    if i < k {
                        assert(projected@[i] == old_projected[i]);
                        assert(before.has(old_projected[i]));
                        lemma_value_grows(&before, aig, old_projected[i], env);
                        assert(wire(before.spec_gates(), env, old_projected[i] as int) == folded_value(
                            &start,
                            env,
                            copies@,
                            holds,
                            inner,
                            originals@[i],
                        ));
                    } else {
                        let at = |i: int| holds(env, i);
                        let c = first_of(at, 0, wires@.len() as int);
                        lemma_first_of(at, 0, wires@.len() as int);
                        lemma_point_grows(&start, &before, inner, env);
                        assert(aig.value(env, out) == picked(before.spec_gates(), env, c, base, wires@));
                        assert(!wire(before.spec_gates(), env, 0int));
                        assert(wire(before.spec_gates(), env, base as int) == value_or_false(
                            point(before.spec_gates(), env, inner),
                            var,
                        ));
                        if c < wires@.len() {
                            assert(wire(before.spec_gates(), env, wires@[c] as int) == copy_value(
                                copies@[c].1@,
                                point(before.spec_gates(), env, inner),
                                var,
                            ));
                        }
                    }
                }
            }
        }
        k += 1;
    }
    let mut k: usize = 0;
    while k < fresh.len()
        invariant
            k <= fresh@.len(),
            forall|x: Var| #[trigger] values@.contains_key(x) <==> inner.contains_key(x) && !fresh@.take(k as int).contains(x),
            forall|x: Var| #[trigger] values@.contains_key(x) ==> values@[x] == inner[x],
        decreases fresh.len() - k,
    {
        let copy = fresh[k];
        assert(fresh@.take(k as int + 1) =~= fresh@.take(k as int).push(copy));
        values.remove(copy);
        proof {
            assert forall|x: Var| #[trigger] fresh@.take(k as int + 1).contains(x) <==> fresh@.take(k as int).contains(x) || x == copy by {
                crate::datastructure::lemma_push_contains(fresh@.take(k as int), copy, x);
            }
        }
        k += 1;
    }
    assert(fresh@.take(fresh@.len() as int) =~= fresh@);
    let ghost dropped = values@;
    let mut k: usize = 0;
    while k < originals.len()
        invariant
            k <= originals@.len(),
            forall|x: Var| #[trigger] values@.contains_key(x) <==> dropped.contains_key(x) || originals@.take(k as int).contains(x),
            forall|x: Var| dropped.contains_key(x) && !originals@.take(k as int).contains(x) ==> #[trigger] values@[x] == dropped[x],
            forall|i: int| 0 <= i < k ==> values@[#[trigger] originals@[i]] == projected@[i],
        decreases originals.len() - k,
    {
        let var = originals[k];
        let ghost before = values@;
        assert(originals@.take(k as int + 1) =~= originals@.take(k as int).push(var));
        values.insert(var, projected[k]);
        proof {
            assert forall|x: Var| #[trigger] originals@.take(k as int + 1).contains(x) <==> originals@.take(k as int).contains(x) || x == var by {
                crate::datastructure::lemma_push_contains(originals@.take(k as int), var, x);
            }
            assert forall|i: int| 0 <= i < k + 1 implies values@[#[trigger] originals@[i]] == projected@[i] by {
                if i < k {
                    assert(originals@[i] != originals@[k as int]);
                    assert(before[originals@[i]] == projected@[i]);
                }
            }
        }
        k += 1;
    }
    proof {
        assert forall|set: Set<Var>| #[trigger] covers_copies(copies@, inner, set) implies aig.spec_gates().len() <= start.spec_gates().len()
            + copy_bound(copies@, copies@.len() as int) + set.len() * (2 * copies@.len() + 2) && forall|x: Var| #[trigger]
            values@.contains_key(x) ==> set.contains(x) by {
            assert forall|i: int| 0 <= i < originals@.len() implies set.contains(#[trigger] originals@[i]) by {
                assert(originals@.contains(originals@[i]));
            }
            crate::effort::lemma_distinct_len(originals@, set);
            lemma_times(originals@.len(), set.len(), 2 * copies@.len() + 2);
            assert forall|x: Var| #[trigger] values@.contains_key(x) implies set.contains(x) by {
                if !dropped.contains_key(x) {
                    assert(originals@.take(originals@.len() as int) =~= originals@);
                    assert(originals@.contains(x));
                } else {
                    assert(inner.contains_key(x));
                }
            }
        }
        assert(originals@.take(originals@.len() as int) =~= originals@);
        assert forall|x: Var| #[trigger] values@.contains_key(x) implies aig.has(values@[x]) by {
            if originals@.contains(x) {
                let i = choose|i: int| 0 <= i < originals@.len() && originals@[i] == x;
                assert(values@[originals@[i]] == projected@[i]);
                assert(aig.has(projected@[i]));
            } else {
                assert(dropped.contains_key(x));
                assert(start.has(inner[x]));
            }
        }
        if !aig.spec_full() {
            assert forall|env: Seq<bool>| #[trigger] folds_at(&start, aig, copies@, inputs@, inner, values@, env) || env.len()
                != start.spec_inputs() by {
                if env.len() == start.spec_inputs() {
                    let i0 = point(start.spec_gates(), env, inputs@);
                    let at = |i: int| cube_reads(i0, Map::empty(), copies@[i].0@);
                    let at2 = |i: int| holds(env, i);
                    assert(at =~= at2);
                    let c = first_of(at, 0, copies@.len() as int);
                    let v0 = point(start.spec_gates(), env, inner);
                    let target = fold_copies(copies@, c, v0);
                    let now = point(aig.spec_gates(), env, values@);
                    assert forall|x: Var| now.contains_key(x) == target.contains_key(x) by {
                        assert(originals@.contains(x) <==> is_original(copies@, x));
                        assert(fresh@.contains(x) <==> is_copied(copies@, x));
                        assert(values@.contains_key(x) <==> dropped.contains_key(x) || originals@.contains(x));
                    }
                    assert forall|x: Var| now.contains_key(x) implies now[x] == target[x] by {
                        assert(originals@.contains(x) <==> is_original(copies@, x));
                        if originals@.contains(x) {
                            let i = choose|i: int| 0 <= i < originals@.len() && originals@[i] == x;
                            assert(values@[originals@[i]] == projected@[i]);
                            assert(wire(aig.spec_gates(), env, projected@[i] as int) == folded_value(
                                &start,
                                env,
                                copies@,
                                holds,
                                inner,
                                x,
                            ));
                        } else {
                            assert(dropped.contains_key(x));
                            assert(values@[x] == dropped[x]);
                            assert(start.has(inner[x]));
                            lemma_value_grows(&start, aig, inner[x], env);
                        }
                    }
                    assert(now =~= target);
                }
            }
        }
    }
}

proof fn lemma_times(a: nat, b: nat, c: nat)
    requires
        a <= b,
    ensures
        a * c <= b * c,
{
    assert(a * c <= b * c) by (nonlinear_arith)
        requires
            a <= b,
    ;
}

/// The value of an original after folding the copies.
spec fn folded_value(start: &AigBuilder, env: Seq<bool>, copies: Seq<(Vec<Lit>, Vec<(Var, Var)>)>, holds: spec_fn(Seq<bool>, int) -> bool, inner: Map<Var, u64>, x: Var) -> bool {
    let k = first_of(|i: int| holds(env, i), 0, copies.len() as int);
    let v0 = point(start.spec_gates(), env, inner);
    if 0 <= k < copies.len() {
        copy_value(copies[k].1@, v0, x)
    } else {
        value_or_false(v0, x)
    }
}

/// The wires of a leaf compute its values.
spec fn leaf_at(start: &AigBuilder, aig: &AigBuilder, model: SkolemModel, inputs: Map<Var, u64>, first: Map<Var, u64>, values: Map<Var, u64>, env: Seq<bool>) -> bool {
    let here = leaf_inputs(model.spec_universals(), point(start.spec_gates(), env, inputs));
    let v0 = point(start.spec_gates(), env, first);
    env.len() == start.spec_inputs() ==> point(aig.spec_gates(), env, values) == Map::new(
        |x: Var| v0.contains_key(x) || model.defines(x),
        |x: Var|
            if model.defines(x) {
                circuit_value(model, here, x)
            } else {
                v0[x]
            },
    )
}

/// Builds the functions of a leaf.
#[verifier::loop_isolation(false)]
fn leaf_wires(aig: &mut AigBuilder, model: &SkolemModel, inputs: &VarMap<u64>, values: &mut VarMap<u64>)
    requires
        old(aig).wf(),
        wires_ok(old(aig), inputs@),
        wires_ok(old(aig), old(values)@),
    ensures
        final(aig).wf(),
        final(aig).extends(old(aig)),
        wires_ok(final(aig), final(values)@),
        final(aig).spec_gates().len() <= old(aig).spec_gates().len() + model.gate_bound(),
        forall|x: Var| #[trigger] final(values)@.contains_key(x) <==> old(values)@.contains_key(x) || model.defines(x),
        !final(aig).spec_full() ==> forall|env: Seq<bool>| #[trigger]
            leaf_at(old(aig), final(aig), *model, inputs@, old(values)@, final(values)@, env),
{
    let ghost start = *aig;
    let ghost first = values@;
    let ghost us = model.universals@;
    let mut leaf: VarMap<u64> = VarMap::new();
    let mut k: usize = 0;
    while k < model.universals.len()
        invariant
            k <= us.len(),
            forall|x: Var| #[trigger] leaf@.contains_key(x) <==> us.take(k as int).contains(x),
            forall|x: Var| #[trigger] leaf@.contains_key(x) ==> leaf@[x] == (if inputs@.contains_key(x) { inputs@[x] } else { 0 }),
        decreases us.len() - k,
    {
        let var = model.universals[k];
        assert(us.take(k as int + 1) =~= us.take(k as int).push(var));
        let wire_of: u64 = match inputs.get(var) {
            Some(wire_of) => wire_of,
            None => 0,
        };
        leaf.insert(var, wire_of);
        proof {
            assert forall|x: Var| #[trigger] us.take(k as int + 1).contains(x) <==> us.take(k as int).contains(x) || x == var by {
                crate::datastructure::lemma_push_contains(us.take(k as int), var, x);
            }
        }
        k += 1;
    }
    proof {
        assert(us.take(us.len() as int) =~= us);
        assert forall|x: Var| #[trigger] leaf@.contains_key(x) implies aig.has(leaf@[x]) by {
            if inputs@.contains_key(x) {
                assert(aig.has(inputs@[x]));
            }
        }
    }
    let outputs = model.build_into(aig, &leaf);
    let mut k: usize = 0;
    while k < outputs.len()
        invariant
            k <= outputs@.len(),
            forall|x: Var| #[trigger] values@.contains_key(x) <==> first.contains_key(x) || exists|i: int|
                0 <= i < k && (#[trigger] outputs@[i]).0 == x,
            forall|i: int| 0 <= i < k ==> values@[(#[trigger] outputs@[i]).0] == outputs@[i].1,
            forall|x: Var|
                first.contains_key(x) && !(exists|i: int| 0 <= i < k && (#[trigger] outputs@[i]).0 == x) ==> #[trigger] values@[x]
                    == first[x],
        decreases outputs.len() - k,
    {
        let (var, out) = outputs[k];
        let ghost before = values@;
        values.insert(var, out);
        proof {
            assert(outputs@[k as int] == (var, out));
            assert forall|x: Var| #[trigger] values@.contains_key(x) <==> first.contains_key(x) || exists|i: int|
                0 <= i < k + 1 && (#[trigger] outputs@[i]).0 == x by {
                assert(values@.contains_key(x) <==> before.contains_key(x) || x == var);
                if exists|i: int| 0 <= i < k && (#[trigger] outputs@[i]).0 == x {
                    let i = choose|i: int| 0 <= i < k && (#[trigger] outputs@[i]).0 == x;
                    assert(0 <= i < k + 1 && outputs@[i].0 == x);
                }
                if x == var {
                    assert(outputs@[k as int].0 == x);
                }
                if exists|i: int| 0 <= i < k + 1 && (#[trigger] outputs@[i]).0 == x {
                    let i = choose|i: int| 0 <= i < k + 1 && (#[trigger] outputs@[i]).0 == x;
                    if i < k {
                        assert(before.contains_key(x));
                    }
                }
            }
            assert forall|i: int| 0 <= i < k + 1 implies values@[(#[trigger] outputs@[i]).0] == outputs@[i].1 by {
                if i < k {
                    assert(outputs@[i].0 != outputs@[k as int].0);
                    assert(before[outputs@[i].0] == outputs@[i].1);
                }
            }
            assert forall|x: Var|
                first.contains_key(x) && !(exists|i: int| 0 <= i < k + 1 && (#[trigger] outputs@[i]).0 == x) implies #[trigger] values@[x]
                == first[x] by {
                if x == var {
                    assert(outputs@[k as int].0 == x);
                }
                assert(!(exists|i: int| 0 <= i < k && (#[trigger] outputs@[i]).0 == x)) by {
                    if exists|i: int| 0 <= i < k && (#[trigger] outputs@[i]).0 == x {
                        let i = choose|i: int| 0 <= i < k && (#[trigger] outputs@[i]).0 == x;
                        assert(0 <= i < k + 1 && outputs@[i].0 == x);
                    }
                }
                assert(before[x] == first[x]);
            }
        }
        k += 1;
    }
    proof {
        assert forall|x: Var| #[trigger] values@.contains_key(x) implies aig.has(values@[x]) by {
            if exists|i: int| 0 <= i < outputs@.len() && (#[trigger] outputs@[i]).0 == x {
                let i = choose|i: int| 0 <= i < outputs@.len() && (#[trigger] outputs@[i]).0 == x;
                assert(aig.has(outputs@[i].1));
            } else {
                assert(first.contains_key(x));
                assert(start.has(first[x]));
            }
        }
        if !aig.spec_full() {
            assert forall|env: Seq<bool>| #[trigger] leaf_at(&start, aig, *model, inputs@, first, values@, env) by {
                if env.len() == start.spec_inputs() {
                    let here = leaf_inputs(us, point(start.spec_gates(), env, inputs@));
                    let v0 = point(start.spec_gates(), env, first);
                    lemma_point_grows(&start, aig, inputs@, env);
                    assert(!wire(aig.spec_gates(), env, 0int));
                    assert(point(aig.spec_gates(), env, leaf@) =~= here);
                    let target = Map::new(
                        |x: Var| v0.contains_key(x) || model.defines(x),
                        |x: Var|
                            if model.defines(x) {
                                circuit_value(*model, here, x)
                            } else {
                                v0[x]
                            },
                    );
                    let now = point(aig.spec_gates(), env, values@);
                    assert forall|x: Var| now.contains_key(x) == target.contains_key(x) by {
                        assert(model.defines(x) <==> exists|i: int| 0 <= i < outputs@.len() && (#[trigger] outputs@[i]).0 == x);
                    }
                    assert forall|x: Var| now.contains_key(x) implies now[x] == target[x] by {
                        assert(model.defines(x) <==> exists|i: int| 0 <= i < outputs@.len() && (#[trigger] outputs@[i]).0 == x);
                        if model.defines(x) {
                            let i = choose|i: int| 0 <= i < outputs@.len() && (#[trigger] outputs@[i]).0 == x;
                            assert(values@[outputs@[i].0] == outputs@[i].1);
                            assert(wire(aig.spec_gates(), env, outputs@[i].1 as int) == circuit_value(
                                *model,
                                point(aig.spec_gates(), env, leaf@),
                                outputs@[i].0,
                            ));
                        } else {
                            assert(values@[x] == first[x]);
                            assert(start.has(first[x]));
                            lemma_value_grows(&start, aig, first[x], env);
                        }
                    }
                    assert(now =~= target);
                }
            }
        }
    }
}

} // verus!
