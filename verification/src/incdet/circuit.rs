//! Skolem models as circuits over the universal variables.
use crate::datastructure::{VarMap, VarSet};
use crate::incdet::aig::{
    all_wires, any_wire, flip, grows, lemma_flip, lemma_grows, lemma_grows_trans, negate_wire, wire, AigBuilder,
};
use crate::incdet::cegar::lemma_commit;
use crate::incdet::model::{
    chain_values, clause_fires, commit, function_fires, region_values, Function, Region, SkolemModel,
};
use crate::literal::{Lit, Var};
use crate::qcnf::assignment_of;
use crate::semantics::{clause_mentions, cube_true, lit_true, Assignment};
use vstd::prelude::*;

verus! {

broadcast use crate::literal::group_literal;

/// The values of the variables that have wires.
pub open spec fn point(gates: Seq<(u64, u64, u64)>, env: Seq<bool>, wires: Map<Var, u64>) -> Map<Var, bool> {
    Map::new(|x: Var| wires.contains_key(x), |x: Var| wire(gates, env, wires[x] as int))
}

/// Every wire belongs to the graph.
pub open spec fn wires_ok(aig: &AigBuilder, wires: Map<Var, u64>) -> bool {
    forall|x: Var| #[trigger] wires.contains_key(x) ==> aig.has(wires[x])
}

/// Wires of an earlier graph are wires of a later one, with the same
/// values.
pub proof fn lemma_point_grows(before: &AigBuilder, after: &AigBuilder, wires: Map<Var, u64>, env: Seq<bool>)
    requires
        after.extends(before),
        wires_ok(before, wires),
        env.len() == before.spec_inputs(),
    ensures
        wires_ok(after, wires),
        point(before.spec_gates(), env, wires) == point(after.spec_gates(), env, wires),
{
    assert forall|x: Var| #[trigger] wires.contains_key(x) implies wire(before.spec_gates(), env, wires[x] as int) == wire(
        after.spec_gates(),
        env,
        wires[x] as int,
    ) by {
        lemma_grows(before.spec_gates(), after.spec_gates(), env, wires[x] as int);
    }
    assert(point(before.spec_gates(), env, wires) =~= point(after.spec_gates(), env, wires));
}

/// A literal of an earlier graph keeps its value.
pub proof fn lemma_value_grows(before: &AigBuilder, after: &AigBuilder, lit: u64, env: Seq<bool>)
    requires
        after.extends(before),
        before.has(lit),
        env.len() == before.spec_inputs(),
    ensures
        after.has(lit),
        before.value(env, lit) == after.value(env, lit),
{
    lemma_grows(before.spec_gates(), after.spec_gates(), env, lit as int);
}

/// The wire of a literal; a variable without a wire is false.
pub(crate) fn lit_wire(lit: Lit, wires: &VarMap<u64>, aig: &AigBuilder) -> (result: u64)
    requires
        aig.wf(),
        wires_ok(aig, wires@),
    ensures
        aig.has(result),
        forall|env: Seq<bool>|
            #![trigger wire(aig.spec_gates(), env, result as int)]
            env.len() == aig.spec_inputs() ==> wire(aig.spec_gates(), env, result as int) == lit_true(
                assignment_of(point(aig.spec_gates(), env, wires@)),
                lit,
            ),
{
    proof {
        aig.lemma_wf();
    }
    let base: u64 = match wires.get(lit.var()) {
        Some(base) => base,
        None => 0,
    };
    assert(aig.has(base)) by {
        if wires@.contains_key(lit.v()) {
            assert(aig.has(wires@[lit.v()]));
        }
    }
    let result = if lit.is_positive() {
        base
    } else {
        negate_wire(base)
    };
    proof {
        let gates = aig.spec_gates();
        assert forall|env: Seq<bool>|
            #![trigger wire(gates, env, result as int)]
            env.len() == aig.spec_inputs() implies wire(gates, env, result as int) == lit_true(
            assignment_of(point(gates, env, wires@)),
            lit,
        ) by {
            lemma_flip(gates, env, base);
            assert(!wire(gates, env, 0int));
        }
    }
    result
}

/// The wires of the literals.
pub(crate) fn lit_wires(lits: &Vec<Lit>, wires: &VarMap<u64>, aig: &AigBuilder) -> (result: Vec<u64>)
    requires
        aig.wf(),
        wires_ok(aig, wires@),
    ensures
        result@.len() == lits@.len(),
        forall|i: int| 0 <= i < result@.len() ==> aig.has(#[trigger] result@[i]),
        forall|env: Seq<bool>|
            #![trigger all_wires(aig.spec_gates(), env, result@)]
            env.len() == aig.spec_inputs() ==> all_wires(aig.spec_gates(), env, result@) == cube_true(
                assignment_of(point(aig.spec_gates(), env, wires@)),
                lits@,
            ),
{
    let ghost gates = aig.spec_gates();
    let mut result: Vec<u64> = Vec::new();
    let mut k: usize = 0;
    while k < lits.len()
        invariant
            k <= lits@.len(),
            gates == aig.spec_gates(),
            aig.wf(),
            wires_ok(aig, wires@),
            result@.len() == k,
            forall|i: int| 0 <= i < k ==> aig.has(#[trigger] result@[i]),
            forall|env: Seq<bool>, i: int|
                #![trigger wire(gates, env, result@[i] as int)]
                env.len() == aig.spec_inputs() && 0 <= i < k ==> wire(gates, env, result@[i] as int) == lit_true(
                    assignment_of(point(gates, env, wires@)),
                    lits@[i],
                ),
        decreases lits.len() - k,
    {
        let ghost before = result@;
        let lit = lit_wire(lits[k], wires, aig);
        result.push(lit);
        proof {
            assert forall|env: Seq<bool>, i: int|
                #![trigger wire(gates, env, result@[i] as int)]
                env.len() == aig.spec_inputs() && 0 <= i < k + 1 implies wire(gates, env, result@[i] as int) == lit_true(
                assignment_of(point(gates, env, wires@)),
                lits@[i],
            ) by {
                if i < k {
                    assert(wire(gates, env, before[i] as int) == lit_true(assignment_of(point(gates, env, wires@)), lits@[i]));
                } else {
                    assert(wire(gates, env, lit as int) == lit_true(assignment_of(point(gates, env, wires@)), lits@[i]));
                }
            }
        }
        k += 1;
    }
    proof {
        assert forall|env: Seq<bool>|
            #![trigger all_wires(gates, env, result@)]
            env.len() == aig.spec_inputs() implies all_wires(gates, env, result@) == cube_true(
            assignment_of(point(gates, env, wires@)),
            lits@,
        ) by {
            let a = assignment_of(point(gates, env, wires@));
            if all_wires(gates, env, result@) {
                assert forall|i: int| 0 <= i < lits@.len() implies lit_true(a, #[trigger] lits@[i]) by {
                    assert(wire(gates, env, result@[i] as int));
                }
            }
            if cube_true(a, lits@) {
                assert forall|i: int| 0 <= i < result@.len() implies wire(gates, env, #[trigger] result@[i] as int) by {
                    assert(lit_true(a, lits@[i]));
                }
            }
        }
    }
    result
}

/// The negated literals of the clause other than those of the variable.
fn others(clause: &Vec<Lit>, lit: Lit) -> (result: Vec<Lit>)
    ensures
        result@.len() <= clause@.len(),
        forall|a: Assignment| #[trigger] cube_true(a, result@) == clause_fires(a, lit, clause@),
{
    let mut result: Vec<Lit> = Vec::new();
    let mut k: usize = 0;
    while k < clause.len()
        invariant
            k <= clause@.len(),
            result@.len() <= k,
            forall|a: Assignment| #[trigger] cube_true(a, result@) == clause_fires(a, lit, clause@.take(k as int)),
        decreases clause.len() - k,
    {
        let other = clause[k];
        let ghost before = result@;
        if other.var() != lit.var() {
            result.push(other.negated());
        }
        proof {
            let part = clause@.take(k as int);
            let next = clause@.take(k as int + 1);
            assert(next =~= part.push(other));
            assert forall|a: Assignment| #[trigger] cube_true(a, result@) == clause_fires(a, lit, next) by {
                assert(cube_true(a, before) == clause_fires(a, lit, part));
                if clause_fires(a, lit, next) {
                    assert(clause_fires(a, lit, part)) by {
                        assert forall|j: int| 0 <= j < part.len() && (#[trigger] part[j]).v() != lit.v() implies !lit_true(a, part[j]) by {
                            assert(next[j] == part[j]);
                        }
                    }
                    assert(next[k as int] == other);
                    assert forall|i: int| 0 <= i < result@.len() implies lit_true(a, #[trigger] result@[i]) by {
                        if i < before.len() {
                            assert(result@[i] == before[i]);
                        }
                    }
                }
                if cube_true(a, result@) {
                    assert(cube_true(a, before)) by {
                        assert forall|i: int| 0 <= i < before.len() implies lit_true(a, #[trigger] before[i]) by {
                            assert(result@[i] == before[i]);
                        }
                    }
                    assert forall|j: int| 0 <= j < next.len() && (#[trigger] next[j]).v() != lit.v() implies !lit_true(a, next[j]) by {
                        if j < part.len() {
                            assert(part[j] == next[j]);
                        } else {
                            assert(result@[before.len() as int] == other.neg());
                        }
                    }
                }
            }
        }
        k += 1;
    }
    assert(clause@.take(clause@.len() as int) =~= clause@);
    result
}

/// The number of literals of the first clauses.
pub open spec fn literal_count(clauses: Seq<Vec<Lit>>, count: int) -> nat
    decreases count,
{
    if count <= 0 {
        0
    } else {
        literal_count(clauses, count - 1) + clauses[count - 1]@.len()
    }
}

/// As many gates suffice for a function.
pub open spec fn function_bound(function: Function) -> nat {
    match function {
        Function::Constant => 0,
        Function::Implications(clauses) => literal_count(clauses@, clauses@.len() as int) + clauses@.len(),
    }
}

/// As many gates suffice for the first functions of a chain.
pub open spec fn chain_bound(chain: Seq<(Lit, Function)>, count: int) -> nat
    decreases count,
{
    if count <= 0 {
        0
    } else {
        chain_bound(chain, count - 1) + function_bound(chain[count - 1].1)
    }
}

/// As many gates suffice for the first regions.
pub open spec fn regions_bound(regions: Seq<Region>, count: int) -> nat
    decreases count,
{
    if count <= 0 {
        0
    } else {
        regions_bound(regions, count - 1) + regions[count - 1].spec_cube().len() + 2 + match regions[count - 1] {
            Region::Response { cube, response } => 0,
            Region::Closed { cube, chain } => chain_bound(chain@, chain@.len() as int),
        }
    }
}

/// Builds the wire that tells whether the function fires.
fn build_function(aig: &mut AigBuilder, lit: Lit, function: &Function, wires: &VarMap<u64>) -> (result: u64)
    requires
        old(aig).wf(),
        wires_ok(old(aig), wires@),
    ensures
        final(aig).wf(),
        final(aig).extends(old(aig)),
        final(aig).spec_gates().len() <= old(aig).spec_gates().len() + function_bound(*function),
        final(aig).has(result),
        !final(aig).spec_full() ==> forall|env: Seq<bool>|
            env.len() == old(aig).spec_inputs() ==> #[trigger] final(aig).value(env, result) == function_fires(
                assignment_of(point(old(aig).spec_gates(), env, wires@)),
                lit,
                *function,
            ),
{
    match function {
        Function::Constant => {
            assert forall|env: Seq<bool>| #[trigger] wire(aig.spec_gates(), env, 1int) by {}
            1
        },
        Function::Implications(clauses) => {
            let ghost start = aig.spec_gates();
            let mut firing: Vec<u64> = Vec::new();
            let mut k: usize = 0;
            while k < clauses.len()
                invariant
                    k <= clauses@.len(),
                    aig.wf(),
                    aig.extends(old(aig)),
                    wires_ok(old(aig), wires@),
                    start == old(aig).spec_gates(),
                    aig.spec_gates().len() <= start.len() + literal_count(clauses@, k as int),
                    firing@.len() == k,
                    forall|i: int| 0 <= i < k ==> aig.has(#[trigger] firing@[i]),
                    !aig.spec_full() ==> forall|env: Seq<bool>, i: int|
                        #![trigger wire(aig.spec_gates(), env, firing@[i] as int)]
                        env.len() == old(aig).spec_inputs() && 0 <= i < k ==> wire(aig.spec_gates(), env, firing@[i] as int)
                            == clause_fires(assignment_of(point(start, env, wires@)), lit, clauses@[i]@),
                decreases clauses.len() - k,
            {
                let ghost before = aig.spec_gates();
                let ghost was_full = aig.spec_full();
                let ghost old_firing = firing@;
                let cube = others(&clauses[k], lit);
                proof {
                    lemma_wires_grow(start, before, old(aig), aig, wires@);
                }
                let lits = lit_wires(&cube, wires, aig);
                let fires = aig.and_all(&lits);
                firing.push(fires);
                proof {
                    lemma_grows_trans(start, before, aig.spec_gates());
                    assert forall|i: int| 0 <= i < k + 1 implies aig.has(#[trigger] firing@[i]) by {
                        if i < k {
                            assert(firing@[i] == old_firing[i]);
                        }
                    }
                    if !aig.spec_full() {
                        assert forall|env: Seq<bool>, i: int|
                            #![trigger wire(aig.spec_gates(), env, firing@[i] as int)]
                            env.len() == old(aig).spec_inputs() && 0 <= i < k + 1 implies wire(aig.spec_gates(), env, firing@[i] as int)
                            == clause_fires(assignment_of(point(start, env, wires@)), lit, clauses@[i]@) by {
                            if i < k {
                                assert(firing@[i] == old_firing[i]);
                                lemma_grows(before, aig.spec_gates(), env, old_firing[i] as int);
                                assert(wire(before, env, old_firing[i] as int) == clause_fires(
                                    assignment_of(point(start, env, wires@)),
                                    lit,
                                    clauses@[i]@,
                                ));
                            } else {
                                lemma_point_same(start, before, env, wires@, old(aig));
                                assert(aig.value(env, fires) == all_wires(before, env, lits@));
                            }
                        }
                    }
                }
                k += 1;
            }
            let ghost before = aig.spec_gates();
            let ghost was_full = aig.spec_full();
            let result = aig.or_all(&firing);
            proof {
                lemma_grows_trans(start, before, aig.spec_gates());
                if !aig.spec_full() {
                    assert forall|env: Seq<bool>| env.len() == old(aig).spec_inputs() implies #[trigger] aig.value(env, result)
                        == function_fires(assignment_of(point(start, env, wires@)), lit, *function) by {
                        let a = assignment_of(point(start, env, wires@));
                        assert(aig.value(env, result) == any_wire(before, env, firing@));
                        if any_wire(before, env, firing@) {
                            let i = choose|i: int| 0 <= i < firing@.len() && wire(before, env, #[trigger] firing@[i] as int);
                            assert(clause_fires(a, lit, clauses@[i]@));
                        }
                        if function_fires(a, lit, *function) {
                            let i = choose|i: int| 0 <= i < clauses@.len() && clause_fires(a, lit, (#[trigger] clauses@[i])@);
                            assert(wire(before, env, firing@[i] as int));
                        }
                    }
                }
            }
            result
        },
    }
}

/// Wires of an earlier graph belong to a later one.
proof fn lemma_wires_grow(
    start: Seq<(u64, u64, u64)>,
    now: Seq<(u64, u64, u64)>,
    before: &AigBuilder,
    after: &AigBuilder,
    wires: Map<Var, u64>,
)
    requires
        start == before.spec_gates(),
        now == after.spec_gates(),
        after.extends(before),
        wires_ok(before, wires),
    ensures
        wires_ok(after, wires),
{
}

/// Wires of an earlier graph have the same values in a later one.
proof fn lemma_point_same(
    start: Seq<(u64, u64, u64)>,
    now: Seq<(u64, u64, u64)>,
    env: Seq<bool>,
    wires: Map<Var, u64>,
    before: &AigBuilder,
)
    requires
        grows(start, now),
        start == before.spec_gates(),
        wires_ok(before, wires),
        env.len() == before.spec_inputs(),
    ensures
        point(start, env, wires) == point(now, env, wires),
{
    assert forall|x: Var| #[trigger] wires.contains_key(x) implies wire(start, env, wires[x] as int) == wire(
        now,
        env,
        wires[x] as int,
    ) by {
        lemma_grows(start, now, env, wires[x] as int);
    }
    assert(point(start, env, wires) =~= point(now, env, wires));
}

/// Builds the wires of a function chain on top of the given wires.
pub(crate) fn build_chain(aig: &mut AigBuilder, chain: &Vec<(Lit, Function)>, wires: &mut VarMap<u64>)
    requires
        old(aig).wf(),
        wires_ok(old(aig), old(wires)@),
    ensures
        final(aig).wf(),
        final(aig).extends(old(aig)),
        final(aig).spec_gates().len() <= old(aig).spec_gates().len() + chain_bound(chain@, chain@.len() as int),
        wires_ok(final(aig), final(wires)@),
        !final(aig).spec_full() ==> forall|env: Seq<bool>|
            env.len() == old(aig).spec_inputs() ==> #[trigger] point(final(aig).spec_gates(), env, final(wires)@) == chain_values(
                chain@,
                point(old(aig).spec_gates(), env, old(wires)@),
            ),
        forall|x: Var| #[trigger] final(wires)@.contains_key(x) <==> old(wires)@.contains_key(x) || in_chain(chain@, x),
{
    let ghost start = aig.spec_gates();
    let ghost first = wires@;
    let mut k: usize = 0;
    assert(chain@.take(0) =~= Seq::<(Lit, Function)>::empty());
    while k < chain.len()
        invariant
            k <= chain@.len(),
            aig.wf(),
            aig.extends(old(aig)),
            wires_ok(aig, wires@),
            start == old(aig).spec_gates(),
            aig.spec_gates().len() <= start.len() + chain_bound(chain@, k as int),
            !aig.spec_full() ==> forall|env: Seq<bool>|
                env.len() == old(aig).spec_inputs() ==> #[trigger] point(aig.spec_gates(), env, wires@) == chain_values(
                    chain@.take(k as int),
                    point(start, env, first),
                ),
            forall|x: Var| #[trigger] wires@.contains_key(x) <==> first.contains_key(x) || in_chain(chain@.take(k as int), x),
        decreases chain.len() - k,
    {
        let ghost before = aig.spec_gates();
        let ghost was_full = aig.spec_full();
        let ghost old_wires = wires@;
        let lit = chain[k].0;
        let fires = build_function(aig, lit, &chain[k].1, wires);
        proof {
            aig.lemma_wf();
            lemma_grows_trans(start, before, aig.spec_gates());
        }
        let value = if lit.is_positive() {
            fires
        } else {
            negate_wire(fires)
        };
        wires.insert(lit.var(), value);
        proof {
            let part = chain@.take(k as int);
            let next = chain@.take(k as int + 1);
            assert(next.drop_last() =~= part);
            assert(next.last() == chain@[k as int]);
            assert forall|x: Var| #[trigger] wires@.contains_key(x) <==> first.contains_key(x) || in_chain(next, x) by {
                lemma_in_chain(chain@, k as int, x);
                assert(old_wires.contains_key(x) <==> first.contains_key(x) || in_chain(part, x));
            }
            assert forall|x: Var| #[trigger] wires@.contains_key(x) implies aig.has(wires@[x]) by {
                if x != lit.v() {
                    assert(old_wires.contains_key(x));
                }
            }
            if !aig.spec_full() {
                assert forall|env: Seq<bool>| env.len() == old(aig).spec_inputs() implies #[trigger] point(
                    aig.spec_gates(),
                    env,
                    wires@,
                ) == chain_values(next, point(start, env, first)) by {
                    let old_point = point(before, env, old_wires);
                    assert(old_point == chain_values(part, point(start, env, first)));
                    assert(aig.value(env, fires) == function_fires(assignment_of(old_point), lit, chain@[k as int].1));
                    lemma_flip(aig.spec_gates(), env, fires);
                    let target = chain_values(next, point(start, env, first));
                    let now = point(aig.spec_gates(), env, wires@);
                    assert forall|x: Var| now.contains_key(x) == target.contains_key(x) by {
                        assert(old_point.contains_key(x) == old_wires.contains_key(x));
                    }
                    assert forall|x: Var| now.contains_key(x) implies now[x] == target[x] by {
                        if x != lit.v() {
                            assert(old_wires.contains_key(x));
                            lemma_grows(before, aig.spec_gates(), env, old_wires[x] as int);
                            assert(old_point.contains_key(x));
                        }
                    }
                    assert(now =~= target);
                }
            }
        }
        k += 1;
    }
    assert(chain@.take(chain@.len() as int) =~= chain@);
}

/// The chain defines the variable.
pub open spec fn in_chain(chain: Seq<(Lit, Function)>, x: Var) -> bool {
    exists|i: int| 0 <= i < chain.len() && (#[trigger] chain[i]).0.v() == x
}

proof fn lemma_in_chain(chain: Seq<(Lit, Function)>, k: int, x: Var)
    requires
        0 <= k < chain.len(),
    ensures
        in_chain(chain.take(k + 1), x) == (in_chain(chain.take(k), x) || chain[k].0.v() == x),
{
    let part = chain.take(k);
    let next = chain.take(k + 1);
    if in_chain(part, x) {
        let i = choose|i: int| 0 <= i < part.len() && (#[trigger] part[i]).0.v() == x;
        assert(next[i] == part[i]);
    }
    if chain[k].0.v() == x {
        assert(next[k] == chain[k]);
    }
    if in_chain(next, x) {
        let i = choose|i: int| 0 <= i < next.len() && (#[trigger] next[i]).0.v() == x;
        if i < k {
            assert(part[i] == next[i]);
        }
    }
}

/// The first region from `from` on whose cube holds, or the number of
/// regions.
pub open spec fn first_region(regions: Seq<Region>, from: int, last: Map<Var, bool>) -> int
    decreases regions.len() - from,
{
    if from < 0 || from >= regions.len() {
        regions.len() as int
    } else if cube_true(assignment_of(last), regions[from].spec_cube()) {
        from
    } else {
        first_region(regions, from + 1, last)
    }
}

/// The first region is the one that plays.
pub proof fn lemma_first_region(regions: Seq<Region>, from: int, universal: Map<Var, bool>, last: Map<Var, bool>)
    requires
        0 <= from <= regions.len(),
    ensures
        from <= first_region(regions, from, last) <= regions.len(),
        first_region(regions, from, last) < regions.len() ==> cube_true(
            assignment_of(last),
            regions[first_region(regions, from, last)].spec_cube(),
        ) && region_values(regions, from, universal, last) == regions[first_region(regions, from, last)].play(universal, last),
        first_region(regions, from, last) == regions.len() ==> region_values(regions, from, universal, last) == last,
        forall|j: int| from <= j < first_region(regions, from, last) ==> !cube_true(assignment_of(last), (#[trigger] regions[j]).spec_cube()),
    decreases regions.len() - from,
{
    if from < regions.len() && !cube_true(assignment_of(last), regions[from].spec_cube()) {
        lemma_first_region(regions, from + 1, universal, last);
    }
}

/// A value of a map, false where it has none.
pub open spec fn value_or_false(values: Map<Var, bool>, x: Var) -> bool {
    values.contains_key(x) && values[x]
}

/// What the circuit of a model computes for a variable: the value the
/// model prescribes or, where it prescribes none, that of the final chain,
/// or false.
pub open spec fn circuit_value(model: SkolemModel, universal: Map<Var, bool>, x: Var) -> bool {
    let values = model.values(universal);
    if values.contains_key(x) {
        values[x]
    } else {
        value_or_false(chain_values(model.final_chain@, universal), x)
    }
}

/// The region defines the variable.
pub open spec fn in_region(region: Region, x: Var) -> bool {
    match region {
        Region::Response { cube, response } => clause_mentions(response@, x),
        Region::Closed { cube, chain } => in_chain(chain@, x),
    }
}

/// Some region defines the variable.
pub open spec fn in_regions(regions: Seq<Region>, x: Var) -> bool {
    exists|i: int| 0 <= i < regions.len() && in_region(#[trigger] regions[i], x)
}

/// A list of variables with one more, where it is not listed yet.
pub open spec fn listed(vars: Seq<Var>, x: Var) -> Seq<Var> {
    if vars.contains(x) {
        vars
    } else {
        vars.push(x)
    }
}

/// A list of variables with those of a chain.
pub open spec fn listed_chain(vars: Seq<Var>, chain: Seq<(Lit, Function)>) -> Seq<Var>
    decreases chain.len(),
{
    if chain.len() == 0 {
        vars
    } else {
        listed(listed_chain(vars, chain.drop_last()), chain.last().0.v())
    }
}

/// A list of variables with those of literals.
pub open spec fn listed_lits(vars: Seq<Var>, lits: Seq<Lit>) -> Seq<Var>
    decreases lits.len(),
{
    if lits.len() == 0 {
        vars
    } else {
        listed(listed_lits(vars, lits.drop_last()), lits.last().v())
    }
}

/// A list of variables with those of regions.
pub open spec fn listed_regions(vars: Seq<Var>, regions: Seq<Region>) -> Seq<Var>
    decreases regions.len(),
{
    if regions.len() == 0 {
        vars
    } else {
        let before = listed_regions(vars, regions.drop_last());
        match regions.last() {
            Region::Response { cube, response } => listed_lits(before, response@),
            Region::Closed { cube, chain } => listed_chain(before, chain@),
        }
    }
}

/// Adds a variable that is not listed yet.
fn list_var(vars: &mut Vec<Var>, seen: &mut VarSet, var: Var)
    requires
        old(vars)@.no_duplicates(),
        forall|x: Var| #[trigger] old(seen)@.contains(x) <==> old(vars)@.contains(x),
    ensures
        final(vars)@.no_duplicates(),
        forall|x: Var| #[trigger] final(seen)@.contains(x) <==> final(vars)@.contains(x),
        forall|x: Var| #[trigger] final(vars)@.contains(x) <==> old(vars)@.contains(x) || x == var,
        final(vars)@ == listed(old(vars)@, var),
{
    let ghost before = vars@;
    if seen.insert(var) {
        vars.push(var);
        proof {
            assert(!before.contains(var));
            assert forall|i: int, j: int| 0 <= i < j < vars@.len() implies vars@[i] != vars@[j] by {
                if j == before.len() {
                    assert(before.contains(before[i]));
                }
            }
            assert forall|x: Var| #[trigger] vars@.contains(x) <==> before.contains(x) || x == var by {
                crate::datastructure::lemma_push_contains(before, var, x);
            }
        }
    } else {
        assert(before.contains(var));
    }
}

impl SkolemModel {
    /// Some part of the model defines the variable.
    pub open spec fn defines(&self, x: Var) -> bool {
        in_chain(self.final_chain@, x) || in_regions(self.regions@, x)
    }

    /// Every variable the model defines somewhere: the final chain plus
    /// variables only some region defines, final-chain variables first.
    pub open spec fn spec_defined_vars(&self) -> Seq<Var> {
        listed_regions(listed_chain(Seq::empty(), self.final_chain@), self.regions@)
    }

    /// Every variable the model defines somewhere: the final chain plus
    /// variables only some region defines, final-chain variables first.
    pub(crate) fn defined_vars(&self) -> (vars: Vec<Var>)
        ensures
            vars@ == self.spec_defined_vars(),
            vars@.no_duplicates(),
            forall|x: Var| #[trigger] vars@.contains(x) <==> self.defines(x),
    {
        let mut vars: Vec<Var> = Vec::new();
        let mut seen = VarSet::new();
        list_chain(&self.final_chain, &mut vars, &mut seen);
        let ghost first = vars@;
        let mut k: usize = 0;
        assert(self.regions@.take(0) =~= Seq::<Region>::empty());
        while k < self.regions.len()
            invariant
                k <= self.regions@.len(),
                vars@.no_duplicates(),
                vars@ == listed_regions(first, self.regions@.take(k as int)),
                forall|x: Var| #[trigger] seen@.contains(x) <==> vars@.contains(x),
                forall|x: Var| #[trigger] vars@.contains(x) <==> in_chain(self.final_chain@, x) || in_regions(
                    self.regions@.take(k as int),
                    x,
                ),
            decreases self.regions.len() - k,
        {
            let ghost before = vars@;
            assert(self.regions@.take(k as int + 1).drop_last() =~= self.regions@.take(k as int));
            match &self.regions[k] {
                Region::Response { cube, response } => {
                    let mut j: usize = 0;
                    assert(response@.take(0) =~= Seq::<Lit>::empty());
                    while j < response.len()
                        invariant
                            j <= response@.len(),
                            vars@ == listed_lits(before, response@.take(j as int)),
                            vars@.no_duplicates(),
                            forall|x: Var| #[trigger] seen@.contains(x) <==> vars@.contains(x),
                            forall|x: Var| #[trigger] vars@.contains(x) <==> before.contains(x) || clause_mentions(
                                response@.take(j as int),
                                x,
                            ),
                        decreases response.len() - j,
                    {
                        let lit = response[j];
                        list_var(&mut vars, &mut seen, lit.var());
                        proof {
                            let part = response@.take(j as int);
                            assert(response@.take(j as int + 1) =~= part.push(lit));
                            assert(response@.take(j as int + 1).drop_last() =~= part);
                            assert forall|x: Var| #[trigger] clause_mentions(response@.take(j as int + 1), x) <==> clause_mentions(part, x)
                                || x == lit.v() by {
                                crate::qcnf::lemma_clause_push(part, lit, x);
                            }
                        }
                        j += 1;
                    }
                    assert(response@.take(response@.len() as int) =~= response@);
                },
                Region::Closed { cube, chain } => {
                    list_chain(chain, &mut vars, &mut seen);
                },
            }
            proof {
                let part = self.regions@.take(k as int);
                let next = self.regions@.take(k as int + 1);
                let region = self.regions@[k as int];
                assert forall|x: Var| #[trigger] vars@.contains(x) <==> in_chain(self.final_chain@, x) || in_regions(next, x) by {
                    assert(vars@.contains(x) <==> before.contains(x) || in_region(region, x));
                    if in_regions(part, x) {
                        let i = choose|i: int| 0 <= i < part.len() && in_region(#[trigger] part[i], x);
                        assert(next[i] == part[i]);
                    }
                    if in_region(region, x) {
                        assert(next[k as int] == region);
                    }
                    if in_regions(next, x) {
                        let i = choose|i: int| 0 <= i < next.len() && in_region(#[trigger] next[i], x);
                        if i < k {
                            assert(part[i] == next[i]);
                        }
                    }
                }
            }
            k += 1;
        }
        assert(self.regions@.take(self.regions@.len() as int) =~= self.regions@);
        vars
    }
}

/// Lists the variables of a chain.
fn list_chain(chain: &Vec<(Lit, Function)>, vars: &mut Vec<Var>, seen: &mut VarSet)
    requires
        old(vars)@.no_duplicates(),
        forall|x: Var| #[trigger] old(seen)@.contains(x) <==> old(vars)@.contains(x),
    ensures
        final(vars)@.no_duplicates(),
        forall|x: Var| #[trigger] final(seen)@.contains(x) <==> final(vars)@.contains(x),
        forall|x: Var| #[trigger] final(vars)@.contains(x) <==> old(vars)@.contains(x) || in_chain(chain@, x),
        final(vars)@ == listed_chain(old(vars)@, chain@),
{
    let ghost before = vars@;
    let mut k: usize = 0;
    assert(chain@.take(0) =~= Seq::<(Lit, Function)>::empty());
    while k < chain.len()
        invariant
            k <= chain@.len(),
            vars@ == listed_chain(before, chain@.take(k as int)),
            vars@.no_duplicates(),
            forall|x: Var| #[trigger] seen@.contains(x) <==> vars@.contains(x),
            forall|x: Var| #[trigger] vars@.contains(x) <==> before.contains(x) || in_chain(chain@.take(k as int), x),
        decreases chain.len() - k,
    {
        let lit = chain[k].0;
        list_var(vars, seen, lit.var());
        assert(chain@.take(k as int + 1).drop_last() =~= chain@.take(k as int));
        proof {
            assert forall|x: Var| #[trigger] in_chain(chain@.take(k as int + 1), x) <==> in_chain(chain@.take(k as int), x) || x == lit.v() by {
                lemma_in_chain(chain@, k as int, x);
            }
        }
        k += 1;
    }
    assert(chain@.take(chain@.len() as int) =~= chain@);
}

/// Later commitments win.
proof fn lemma_commit_last(values: Map<Var, bool>, lits: Seq<Lit>, i: int)
    requires
        0 <= i < lits.len(),
        forall|j: int| i < j < lits.len() ==> (#[trigger] lits[j]).v() != lits[i].v(),
    ensures
        commit(values, lits).contains_key(lits[i].v()),
        commit(values, lits)[lits[i].v()] == lits[i].pos(),
    decreases lits.len(),
{
    if i < lits.len() - 1 {
        let front = lits.drop_last();
        assert(lits[lits.len() - 1].v() != lits[i].v());
        assert forall|j: int| i < j < front.len() implies (#[trigger] front[j]).v() != front[i].v() by {
            assert(front[j] == lits[j]);
        }
        lemma_commit_last(values, front, i);
    }
}

/// The wire of a variable in a region, `base` where the region does not
/// define it.
#[verifier::loop_isolation(false)]
fn region_wire(region: &Region, wires: &VarMap<u64>, var: Var, base: u64) -> (result: u64)
    ensures
        result == base || result <= 1 || (wires@.contains_key(var) && result == wires@[var]),
        region is Response ==> forall|last: Map<Var, bool>, gates: Seq<(u64, u64, u64)>, env: Seq<bool>|
            #![trigger commit(last, region->response@), wire(gates, env, result as int)]
            wire(gates, env, base as int) == value_or_false(last, var) ==> wire(gates, env, result as int) == value_or_false(
                commit(last, region->response@),
                var,
            ),
        region is Closed ==> result == (if wires@.contains_key(var) { wires@[var] } else { base }),
{
    match region {
        Region::Response { cube, response } => {
            let mut k: usize = response.len();
            while k > 0
                invariant
                    k <= response@.len(),
                    forall|j: int| k <= j < response@.len() ==> (#[trigger] response@[j]).v() != var,
                decreases k,
            {
                let lit = response[k - 1];
                if lit.var() == var {
                    let result = if lit.is_positive() { 1 } else { 0 };
                    proof {
                        assert forall|last: Map<Var, bool>, gates: Seq<(u64, u64, u64)>, env: Seq<bool>|
                            #![trigger commit(last, response@), wire(gates, env, result as int)]
                            wire(gates, env, base as int) == value_or_false(last, var) implies wire(gates, env, result as int)
                            == value_or_false(commit(last, response@), var) by {
                            lemma_commit_last(last, response@, k as int - 1);
                            assert(wire(gates, env, 1int));
                            assert(!wire(gates, env, 0int));
                        }
                    }
                    return result;
                }
                k -= 1;
            }
            proof {
                assert forall|last: Map<Var, bool>, gates: Seq<(u64, u64, u64)>, env: Seq<bool>|
                    #![trigger commit(last, response@), wire(gates, env, base as int)]
                    wire(gates, env, base as int) == value_or_false(last, var) implies wire(gates, env, base as int)
                    == value_or_false(commit(last, response@), var) by {
                    lemma_commit(last, response@);
                    assert(!clause_mentions(response@, var));
                    assert(commit(last, response@).contains_key(var) <==> last.contains_key(var));
                    assert(commit(last, response@)[var] == last[var]);
                }
            }
            base
        },
        Region::Closed { cube, chain } => match wires.get(var) {
            Some(result) => result,
            None => base,
        },
    }
}

/// The cube of the region holds under the final chain, and none before it
/// does.
pub open spec fn selects(regions: Seq<Region>, k: int, last: Map<Var, bool>) -> bool {
    &&& cube_true(assignment_of(last), regions[k].spec_cube())
    &&& none_before(regions, k, last)
}

/// No region before the given one holds.
pub open spec fn none_before(regions: Seq<Region>, k: int, last: Map<Var, bool>) -> bool {
    forall|j: int| 0 <= j < k ==> !cube_true(assignment_of(last), (#[trigger] regions[j]).spec_cube())
}

/// The wires of the region selection compute it.
spec fn selection_ok(aig: &AigBuilder, regions: Seq<Region>, selected: Seq<u64>, rest: u64, last: Map<Var, u64>) -> bool {
    forall|env: Seq<bool>|
        #![trigger point(aig.spec_gates(), env, last)]
        env.len() == aig.spec_inputs() ==> {
            let values = point(aig.spec_gates(), env, last);
            &&& wire(aig.spec_gates(), env, rest as int) == none_before(regions, selected.len() as int, values)
            &&& forall|k: int|
                0 <= k < selected.len() ==> wire(aig.spec_gates(), env, #[trigger] selected[k] as int) == selects(regions, k, values)
        }
}

/// The wires of closed regions compute their chains.
spec fn regions_ok(aig: &AigBuilder, regions: Seq<Region>, chains: Seq<VarMap<u64>>, inputs: Map<Var, u64>) -> bool {
    forall|env: Seq<bool>, k: int|
        #![trigger point(aig.spec_gates(), env, chains[k]@)]
        env.len() == aig.spec_inputs() && 0 <= k < chains.len() && regions[k] is Closed ==> point(
            aig.spec_gates(),
            env,
            chains[k]@,
        ) == chain_values(regions[k]->chain@, point(aig.spec_gates(), env, inputs))
}

proof fn lemma_selection_grows(
    before: &AigBuilder,
    after: &AigBuilder,
    regions: Seq<Region>,
    selected: Seq<u64>,
    rest: u64,
    last: Map<Var, u64>,
)
    requires
        after.extends(before),
        selection_ok(before, regions, selected, rest, last),
        wires_ok(before, last),
        before.has(rest),
        forall|k: int| 0 <= k < selected.len() ==> before.has(#[trigger] selected[k]),
    ensures
        selection_ok(after, regions, selected, rest, last),
        wires_ok(after, last),
        after.has(rest),
        forall|k: int| 0 <= k < selected.len() ==> after.has(#[trigger] selected[k]),
{
    assert forall|env: Seq<bool>|
        #![trigger point(after.spec_gates(), env, last)]
        env.len() == after.spec_inputs() implies {
        let values = point(after.spec_gates(), env, last);
        &&& wire(after.spec_gates(), env, rest as int) == none_before(regions, selected.len() as int, values)
        &&& forall|k: int|
            0 <= k < selected.len() ==> wire(after.spec_gates(), env, #[trigger] selected[k] as int) == selects(regions, k, values)
    } by {
        lemma_point_grows(before, after, last, env);
        let values = point(before.spec_gates(), env, last);
        lemma_value_grows(before, after, rest, env);
        assert forall|k: int| 0 <= k < selected.len() implies wire(after.spec_gates(), env, #[trigger] selected[k] as int)
            == selects(regions, k, values) by {
            assert(before.has(selected[k]));
            lemma_value_grows(before, after, selected[k], env);
        }
    }
}

proof fn lemma_regions_grow(
    before: &AigBuilder,
    after: &AigBuilder,
    regions: Seq<Region>,
    chains: Seq<VarMap<u64>>,
    inputs: Map<Var, u64>,
)
    requires
        after.extends(before),
        regions_ok(before, regions, chains, inputs),
        wires_ok(before, inputs),
        forall|k: int| 0 <= k < chains.len() ==> wires_ok(before, (#[trigger] chains[k])@),
    ensures
        regions_ok(after, regions, chains, inputs),
        forall|k: int| 0 <= k < chains.len() ==> wires_ok(after, (#[trigger] chains[k])@),
{
    assert forall|env: Seq<bool>, k: int|
        #![trigger point(after.spec_gates(), env, chains[k]@)]
        env.len() == after.spec_inputs() && 0 <= k < chains.len() && regions[k] is Closed implies point(
        after.spec_gates(),
        env,
        chains[k]@,
    ) == chain_values(regions[k]->chain@, point(after.spec_gates(), env, inputs)) by {
        assert(wires_ok(before, chains[k]@));
        lemma_point_grows(before, after, chains[k]@, env);
        lemma_point_grows(before, after, inputs, env);
        assert(point(before.spec_gates(), env, chains[k]@) == chain_values(
            regions[k]->chain@,
            point(before.spec_gates(), env, inputs),
        ));
    }
    assert forall|k: int| 0 <= k < chains.len() implies wires_ok(after, (#[trigger] chains[k])@) by {
        assert(wires_ok(before, chains[k]@));
    }
}

/// The outputs compute the circuit values of the model.
pub open spec fn outputs_ok(aig: &AigBuilder, model: SkolemModel, outputs: Seq<(Var, u64)>, inputs: Map<Var, u64>) -> bool {
    forall|env: Seq<bool>, i: int|
        #![trigger wire(aig.spec_gates(), env, outputs[i].1 as int)]
        env.len() == aig.spec_inputs() && 0 <= i < outputs.len() ==> wire(aig.spec_gates(), env, outputs[i].1 as int)
            == circuit_value(model, point(aig.spec_gates(), env, inputs), outputs[i].0)
}

impl SkolemModel {
    /// As many gates suffice for the circuit of the model.
    pub open spec fn gate_bound(self) -> nat {
        chain_bound(self.final_chain@, self.final_chain@.len() as int) + regions_bound(self.regions@, self.regions@.len() as int)
            + self.spec_defined_vars().len() * (2 * self.regions@.len() + 2)
    }

    /// Builds this model's functions into an existing graph over the given
    /// input wires (one per universal variable it reads) and returns the
    /// output wire of every variable it defines.
    pub(crate) fn build_into(&self, aig: &mut AigBuilder, inputs: &VarMap<u64>) -> (outputs: Vec<(Var, u64)>)
        requires
            old(aig).wf(),
            wires_ok(old(aig), inputs@),
        ensures
            final(aig).wf(),
            final(aig).extends(old(aig)),
            final(aig).spec_gates().len() <= old(aig).spec_gates().len() + self.gate_bound(),
            forall|i: int| 0 <= i < outputs@.len() ==> final(aig).has((#[trigger] outputs@[i]).1),
            forall|i: int, j: int| 0 <= i < j < outputs@.len() ==> (#[trigger] outputs@[i]).0 != (#[trigger] outputs@[j]).0,
            forall|x: Var| (exists|i: int| 0 <= i < outputs@.len() && (#[trigger] outputs@[i]).0 == x) <==> #[trigger] self.defines(x),
            outputs@.len() == self.spec_defined_vars().len(),
            forall|i: int| 0 <= i < outputs@.len() ==> (#[trigger] outputs@[i]).0 == self.spec_defined_vars()[i],
            !final(aig).spec_full() ==> outputs_ok(final(aig), *self, outputs@, inputs@),
    {
        let mut last = inputs.duplicate();
        build_chain(aig, &self.final_chain, &mut last);
        let ghost after_chain = *aig;
        // the first region whose cube holds wins
        let mut rest: u64 = 1;
        let mut selected: Vec<u64> = Vec::new();
        let mut chains: Vec<VarMap<u64>> = Vec::new();
        let ghost regions = self.regions@;
        let mut k: usize = 0;
        proof {
            assert forall|env: Seq<bool>| #[trigger] wire(aig.spec_gates(), env, 1int) by {}
            assert(selection_ok(aig, regions, selected@, rest, last@));
            assert(regions_ok(aig, regions, chains@, inputs@));
            lemma_inputs_kept(old(aig), aig, inputs@);
        }
        while k < self.regions.len()
            invariant
                k <= self.regions@.len(),
                regions == self.regions@,
                aig.wf(),
                aig.spec_gates().len() <= after_chain.spec_gates().len() + regions_bound(regions, k as int),
                after_chain.extends(old(aig)),
                aig.extends(&after_chain),
                wires_ok(&after_chain, last@),
                wires_ok(aig, last@),
                wires_ok(aig, inputs@),
                selected@.len() == k,
                chains@.len() == k,
                aig.has(rest),
                forall|i: int| 0 <= i < k ==> aig.has(#[trigger] selected@[i]),
                forall|i: int| 0 <= i < k ==> wires_ok(aig, (#[trigger] chains@[i])@),
                !aig.spec_full() ==> selection_ok(aig, regions, selected@, rest, last@),
                !aig.spec_full() ==> regions_ok(aig, regions, chains@, inputs@),
            decreases self.regions.len() - k,
        {
            let ghost before = *aig;
            let ghost old_rest = rest;
            let ghost old_selected = selected@;
            let ghost old_chains = chains@;
            let lits = lit_wires(self.regions[k].cube(), &last, aig);
            let holds = aig.and_all(&lits);
            let ghost step1 = *aig;
            proof {
                lemma_value_has(&before, &step1, rest);
                step1.lemma_wf();
            }
            let select = aig.and(rest, holds);
            let ghost step2 = *aig;
            proof {
                lemma_value_has(&step1, &step2, rest);
                lemma_value_has(&step1, &step2, holds);
                lemma_flip(step2.spec_gates(), Seq::empty(), holds);
            }
            rest = aig.and(rest, negate_wire(holds));
            let ghost step3 = *aig;
            selected.push(select);
            proof {
                lemma_extends_trans(&before, &step1, &step2);
                lemma_extends_trans(&before, &step2, &step3);
                lemma_inputs_kept(&before, &step3, inputs@);
                lemma_inputs_kept(&before, &step3, last@);
                if !step3.spec_full() {
                    lemma_select_step(
                        &before,
                        &step1,
                        &step2,
                        &step3,
                        regions,
                        old_selected,
                        old_rest,
                        last@,
                        lits@,
                        holds,
                        select,
                        rest,
                    );
                }
                assert forall|i: int| 0 <= i < k + 1 implies step3.has(#[trigger] selected@[i]) by {
                    if i < k {
                        assert(selected@[i] == old_selected[i]);
                        lemma_value_has(&before, &step3, old_selected[i]);
                    } else {
                        lemma_value_has(&step2, &step3, select);
                    }
                }
                assert forall|i: int| 0 <= i < k implies wires_ok(&step3, (#[trigger] old_chains[i])@) by {
                    lemma_inputs_kept(&before, &step3, old_chains[i]@);
                }
                if !step3.spec_full() {
                    lemma_regions_grow(&before, &step3, regions, old_chains, inputs@);
                }
            }
            match &self.regions[k] {
                Region::Response { cube, response } => {
                    let none: VarMap<u64> = VarMap::new();
                    chains.push(none);
                    proof {
                        assert forall|i: int| 0 <= i < k + 1 implies wires_ok(aig, (#[trigger] chains@[i])@) by {
                            if i < k {
                                assert(chains@[i] == old_chains[i]);
                            }
                        }
                        if !aig.spec_full() {
                            lemma_regions_push(aig, regions, old_chains, chains@, inputs@);
                        }
                    }
                },
                Region::Closed { cube, chain } => {
                    let mut wires = inputs.duplicate();
                    build_chain(aig, chain, &mut wires);
                    chains.push(wires);
                    proof {
                        lemma_extends_trans(&before, &step3, aig);
                        lemma_inputs_kept(&step3, aig, inputs@);
                        lemma_inputs_kept(&step3, aig, last@);
                        lemma_value_has(&step3, aig, rest);
                        assert forall|i: int| 0 <= i < k + 1 implies aig.has(#[trigger] selected@[i]) by {
                            lemma_value_has(&step3, aig, selected@[i]);
                        }
                        assert forall|i: int| 0 <= i < k + 1 implies wires_ok(aig, (#[trigger] chains@[i])@) by {
                            if i < k {
                                assert(chains@[i] == old_chains[i]);
                                lemma_inputs_kept(&step3, aig, old_chains[i]@);
                            }
                        }
                        if !aig.spec_full() {
                            lemma_selection_grows(&step3, aig, regions, selected@, rest, last@);
                            lemma_regions_grow(&step3, aig, regions, old_chains, inputs@);
                            assert forall|env: Seq<bool>| env.len() == aig.spec_inputs() implies #[trigger] point(
                                aig.spec_gates(),
                                env,
                                wires@,
                            ) == chain_values(chain@, point(aig.spec_gates(), env, inputs@)) by {
                                lemma_point_grows(&step3, aig, inputs@, env);
                            }
                            lemma_regions_push(aig, regions, old_chains, chains@, inputs@);
                        }
                    }
                },
            }
            proof {
                lemma_extends_trans(&after_chain, &before, aig);
            }
            k += 1;
        }
        let defined = self.defined_vars();
        let mut outputs: Vec<(Var, u64)> = Vec::new();
        let mut k: usize = 0;
        let ghost selected_aig = *aig;
        proof {
            lemma_extends_trans(old(aig), &after_chain, &selected_aig);
        }
        while k < defined.len()
            invariant
                k <= defined@.len(),
                regions == self.regions@,
                aig.wf(),
                aig.spec_gates().len() <= selected_aig.spec_gates().len() + k * (2 * regions.len() + 2),
                aig.extends(&selected_aig),
                selected_aig.extends(old(aig)),
                selected_aig.extends(&after_chain),
                after_chain.extends(old(aig)),
                wires_ok(old(aig), inputs@),
                wires_ok(&after_chain, last@),
                wires_ok(aig, last@),
                wires_ok(aig, inputs@),
                selected@.len() == regions.len(),
                chains@.len() == regions.len(),
                aig.has(rest),
                forall|i: int| 0 <= i < selected@.len() ==> aig.has(#[trigger] selected@[i]),
                forall|i: int| 0 <= i < chains@.len() ==> wires_ok(aig, (#[trigger] chains@[i])@),
                !aig.spec_full() ==> selection_ok(aig, regions, selected@, rest, last@),
                !aig.spec_full() ==> regions_ok(aig, regions, chains@, inputs@),
                !after_chain.spec_full() ==> forall|env: Seq<bool>|
                    env.len() == old(aig).spec_inputs() ==> #[trigger] point(after_chain.spec_gates(), env, last@) == chain_values(
                        self.final_chain@,
                        point(old(aig).spec_gates(), env, inputs@),
                    ),
                outputs@.len() == k,
                forall|i: int| 0 <= i < k ==> (#[trigger] outputs@[i]).0 == defined@[i] && aig.has(outputs@[i].1),
                !aig.spec_full() ==> outputs_ok(aig, *self, outputs@, inputs@),
            decreases defined.len() - k,
        {
            let ghost before = *aig;
            let ghost old_outputs = outputs@;
            let var = defined[k];
            let out = self.build_output(aig, var, &last, rest, &selected, &chains, inputs);
            outputs.push((var, out));
            assert((k + 1) * (2 * regions.len() + 2) == k * (2 * regions.len() + 2) + (2 * regions.len() + 2)) by (nonlinear_arith);
            proof {
                lemma_extends_trans(&selected_aig, &before, aig);
                lemma_inputs_kept(&before, aig, last@);
                lemma_inputs_kept(&before, aig, inputs@);
                lemma_value_has(&before, aig, rest);
                assert forall|i: int| 0 <= i < selected@.len() implies aig.has(#[trigger] selected@[i]) by {
                    lemma_value_has(&before, aig, selected@[i]);
                }
                assert forall|i: int| 0 <= i < chains@.len() implies wires_ok(aig, (#[trigger] chains@[i])@) by {
                    lemma_inputs_kept(&before, aig, chains@[i]@);
                }
                assert forall|i: int| 0 <= i < k + 1 implies (#[trigger] outputs@[i]).0 == defined@[i] && aig.has(outputs@[i].1) by {
                    if i < k {
                        assert(outputs@[i] == old_outputs[i]);
                        lemma_value_has(&before, aig, old_outputs[i].1);
                    }
                }
                if !aig.spec_full() {
                    lemma_selection_grows(&before, aig, regions, selected@, rest, last@);
                    lemma_regions_grow(&before, aig, regions, chains@, inputs@);
                    assert forall|env: Seq<bool>, i: int|
                        #![trigger wire(aig.spec_gates(), env, outputs@[i].1 as int)]
                        env.len() == aig.spec_inputs() && 0 <= i < outputs@.len() implies wire(
                        aig.spec_gates(),
                        env,
                        outputs@[i].1 as int,
                    ) == circuit_value(*self, point(aig.spec_gates(), env, inputs@), outputs@[i].0) by {
                        lemma_point_grows(&before, aig, inputs@, env);
                        lemma_point_grows(&before, aig, last@, env);
                        if i < k {
                            assert(outputs@[i] == old_outputs[i]);
                            lemma_value_grows(&before, aig, old_outputs[i].1, env);
                            assert(wire(before.spec_gates(), env, old_outputs[i].1 as int) == circuit_value(
                                *self,
                                point(before.spec_gates(), env, inputs@),
                                old_outputs[i].0,
                            ));
                        } else {
                            lemma_point_grows(&after_chain, &before, last@, env);
                            lemma_point_grows(old(aig), &before, inputs@, env);
                            assert(point(after_chain.spec_gates(), env, last@) == chain_values(
                                self.final_chain@,
                                point(old(aig).spec_gates(), env, inputs@),
                            ));
                            assert(aig.value(env, out) == output_value(
                                regions,
                                point(before.spec_gates(), env, inputs@),
                                point(before.spec_gates(), env, last@),
                                var,
                            ));
                            lemma_output_value(*self, point(before.spec_gates(), env, inputs@), var);
                        }
                    }
                }
            }
            k += 1;
        }
        proof {
            lemma_extends_trans(old(aig), &selected_aig, aig);
            assert forall|i: int, j: int| 0 <= i < j < outputs@.len() implies (#[trigger] outputs@[i]).0 != (#[trigger] outputs@[j]).0 by {
                assert(defined@[i] != defined@[j]);
            }
            assert forall|x: Var| (exists|i: int| 0 <= i < outputs@.len() && (#[trigger] outputs@[i]).0 == x) <==> #[trigger] self.defines(x) by {
                if self.defines(x) {
                    assert(defined@.contains(x));
                    let i = choose|i: int| 0 <= i < defined@.len() && defined@[i] == x;
                    assert(outputs@[i].0 == x);
                }
                if exists|i: int| 0 <= i < outputs@.len() && (#[trigger] outputs@[i]).0 == x {
                    let i = choose|i: int| 0 <= i < outputs@.len() && (#[trigger] outputs@[i]).0 == x;
                    assert(defined@[i] == x);
                    assert(defined@.contains(x));
                }
            }
        }
        outputs
    }

    /// Builds the output wire of one variable: the value of the selected
    /// region, or of the final chain outside all regions.
    fn build_output(
        &self,
        aig: &mut AigBuilder,
        var: Var,
        last: &VarMap<u64>,
        rest: u64,
        selected: &Vec<u64>,
        chains: &Vec<VarMap<u64>>,
        inputs: &VarMap<u64>,
    ) -> (result: u64)
        requires
            old(aig).wf(),
            wires_ok(old(aig), last@),
            wires_ok(old(aig), inputs@),
            selected@.len() == self.regions@.len(),
            chains@.len() == self.regions@.len(),
            old(aig).has(rest),
            forall|i: int| 0 <= i < selected@.len() ==> old(aig).has(#[trigger] selected@[i]),
            forall|i: int| 0 <= i < chains@.len() ==> wires_ok(old(aig), (#[trigger] chains@[i])@),
            !old(aig).spec_full() ==> selection_ok(old(aig), self.regions@, selected@, rest, last@),
            !old(aig).spec_full() ==> regions_ok(old(aig), self.regions@, chains@, inputs@),
        ensures
            final(aig).wf(),
            final(aig).extends(old(aig)),
            final(aig).spec_gates().len() <= old(aig).spec_gates().len() + 2 * self.regions@.len() + 2,
            final(aig).has(result),
            !final(aig).spec_full() ==> forall|env: Seq<bool>|
                env.len() == old(aig).spec_inputs() ==> #[trigger] final(aig).value(env, result) == output_value(
                    self.regions@,
                    point(old(aig).spec_gates(), env, inputs@),
                    point(old(aig).spec_gates(), env, last@),
                    var,
                ),
    {
        let ghost start = *aig;
        let ghost regions = self.regions@;
        let positive = Lit::positive(var);
        let base = lit_wire(positive, last, aig);
        proof {
            assert forall|env: Seq<bool>| env.len() == start.spec_inputs() implies #[trigger] wire(start.spec_gates(), env, base as int)
                == value_or_false(point(start.spec_gates(), env, last@), var) by {}
        }
        let first = aig.and(rest, base);
        let mut terms: Vec<u64> = Vec::new();
        terms.push(first);
        let mut k: usize = 0;
        proof {
            if !aig.spec_full() {
                assert forall|env: Seq<bool>, i: int|
                    #![trigger wire(aig.spec_gates(), env, terms@[i] as int)]
                    env.len() == start.spec_inputs() && 0 <= i < terms@.len() implies wire(aig.spec_gates(), env, terms@[i] as int)
                    == term_value(
                    regions,
                    i,
                    point(start.spec_gates(), env, inputs@),
                    point(start.spec_gates(), env, last@),
                    var,
                ) by {
                    let values = point(start.spec_gates(), env, last@);
                    assert(aig.value(env, first) == (start.value(env, rest) && start.value(env, base)));
                    assert(wire(start.spec_gates(), env, rest as int) == none_before(regions, selected@.len() as int, values));
                }
            }
        }
        while k < self.regions.len()
            invariant
                k <= self.regions@.len(),
                regions == self.regions@,
                aig.wf(),
                aig.extends(&start),
                aig.spec_gates().len() <= start.spec_gates().len() + k + 1,
                start.wf(),
                start.has(base),
                wires_ok(&start, last@),
                wires_ok(&start, inputs@),
                selected@.len() == regions.len(),
                chains@.len() == regions.len(),
                forall|i: int| 0 <= i < selected@.len() ==> start.has(#[trigger] selected@[i]),
                forall|i: int| 0 <= i < chains@.len() ==> wires_ok(&start, (#[trigger] chains@[i])@),
                !start.spec_full() ==> selection_ok(&start, regions, selected@, rest, last@),
                !start.spec_full() ==> regions_ok(&start, regions, chains@, inputs@),
                forall|env: Seq<bool>|
                    env.len() == start.spec_inputs() ==> #[trigger] wire(start.spec_gates(), env, base as int) == value_or_false(
                        point(start.spec_gates(), env, last@),
                        var,
                    ),
                terms@.len() == k + 1,
                forall|i: int| 0 <= i < terms@.len() ==> aig.has(#[trigger] terms@[i]),
                !aig.spec_full() ==> forall|env: Seq<bool>, i: int|
                    #![trigger wire(aig.spec_gates(), env, terms@[i] as int)]
                    env.len() == start.spec_inputs() && 0 <= i < terms@.len() ==> wire(aig.spec_gates(), env, terms@[i] as int)
                        == term_value(
                        regions,
                        i,
                        point(start.spec_gates(), env, inputs@),
                        point(start.spec_gates(), env, last@),
                        var,
                    ),
            decreases self.regions.len() - k,
        {
            let ghost before = *aig;
            let ghost old_terms = terms@;
            let value = region_wire(&self.regions[k], &chains[k], var, base);
            proof {
                assert(start.has(selected@[k as int]));
                assert(wires_ok(&start, chains@[k as int]@));
                assert(start.has(value)) by {
                    if chains@[k as int]@.contains_key(var) {
                        assert(start.has(chains@[k as int]@[var]));
                    }
                }
                lemma_value_has(&start, aig, value);
                lemma_value_has(&start, aig, selected@[k as int]);
            }
            let term = aig.and(selected[k], value);
            terms.push(term);
            proof {
                lemma_extends_trans(&start, &before, aig);
                assert forall|i: int| 0 <= i < terms@.len() implies aig.has(#[trigger] terms@[i]) by {
                    if i < old_terms.len() {
                        assert(terms@[i] == old_terms[i]);
                        lemma_value_has(&before, aig, old_terms[i]);
                    }
                }
                if !aig.spec_full() {
                    assert forall|env: Seq<bool>, i: int|
                        #![trigger wire(aig.spec_gates(), env, terms@[i] as int)]
                        env.len() == start.spec_inputs() && 0 <= i < terms@.len() implies wire(aig.spec_gates(), env, terms@[i] as int)
                        == term_value(
                        regions,
                        i,
                        point(start.spec_gates(), env, inputs@),
                        point(start.spec_gates(), env, last@),
                        var,
                    ) by {
                        let values = point(start.spec_gates(), env, last@);
                        let universal = point(start.spec_gates(), env, inputs@);
                        if i <= k {
                            assert(terms@[i] == old_terms[i]);
                            lemma_value_grows(&before, aig, old_terms[i], env);
                            assert(wire(before.spec_gates(), env, old_terms[i] as int) == term_value(
                                regions,
                                i,
                                universal,
                                values,
                                var,
                            ));
                        } else {
                            lemma_value_grows(&start, &before, value, env);
                            lemma_value_grows(&start, &before, selected@[k as int], env);
                            assert(aig.value(env, term) == (before.value(env, selected@[k as int]) && before.value(env, value)));
                            assert(wire(start.spec_gates(), env, selected@[k as int] as int) == selects(regions, k as int, values));
                            assert(wire(start.spec_gates(), env, base as int) == value_or_false(values, var));
                            match regions[k as int] {
                                Region::Response { cube, response } => {
                                    assert(wire(start.spec_gates(), env, value as int) == value_or_false(
                                        commit(values, response@),
                                        var,
                                    ));
                                    lemma_commit(values, response@);
                                    assert(commit(values, response@).contains_key(var) <== values.contains_key(var));
                                },
                                Region::Closed { cube, chain } => {
                                    assert(point(start.spec_gates(), env, chains@[k as int]@) == chain_values(
                                        chain@,
                                        universal,
                                    ));
                                },
                            }
                        }
                    }
                }
            }
            k += 1;
        }
        let ghost before = *aig;
        let result = aig.or_all(&terms);
        proof {
            lemma_extends_trans(&start, &before, aig);
            if !aig.spec_full() {
                assert forall|env: Seq<bool>| env.len() == start.spec_inputs() implies #[trigger] aig.value(env, result)
                    == output_value(
                    regions,
                    point(start.spec_gates(), env, inputs@),
                    point(start.spec_gates(), env, last@),
                    var,
                ) by {
                    let values = point(start.spec_gates(), env, last@);
                    let universal = point(start.spec_gates(), env, inputs@);
                    lemma_terms(regions, universal, values, var);
                    assert(aig.value(env, result) == any_wire(before.spec_gates(), env, terms@));
                    if any_wire(before.spec_gates(), env, terms@) {
                        let i = choose|i: int| 0 <= i < terms@.len() && wire(before.spec_gates(), env, #[trigger] terms@[i] as int);
                        assert(term_value(regions, i, universal, values, var));
                    }
                    if output_value(regions, universal, values, var) {
                        let i = choose|i: int| 0 <= i <= regions.len() && #[trigger] term_value(regions, i, universal, values, var);
                        assert(wire(before.spec_gates(), env, terms@[i] as int));
                    }
                }
            }
        }
        result
    }
}

/// The value a region gives to a variable.
pub open spec fn region_value(region: Region, universal: Map<Var, bool>, last: Map<Var, bool>, x: Var) -> bool {
    let values = region.play(universal, last);
    if values.contains_key(x) {
        values[x]
    } else {
        value_or_false(last, x)
    }
}

/// The contribution of the final chain (at zero) or of a region.
pub open spec fn term_value(regions: Seq<Region>, i: int, universal: Map<Var, bool>, last: Map<Var, bool>, x: Var) -> bool {
    if i == 0 {
        none_before(regions, regions.len() as int, last) && value_or_false(last, x)
    } else {
        selects(regions, i - 1, last) && region_value(regions[i - 1], universal, last, x)
    }
}

/// The value of the first region that holds, or of the final chain.
pub open spec fn output_value(regions: Seq<Region>, universal: Map<Var, bool>, last: Map<Var, bool>, x: Var) -> bool {
    let k = first_region(regions, 0, last);
    if k < regions.len() {
        region_value(regions[k], universal, last, x)
    } else {
        value_or_false(last, x)
    }
}

/// Exactly the contribution that is selected counts.
proof fn lemma_terms(regions: Seq<Region>, universal: Map<Var, bool>, last: Map<Var, bool>, x: Var)
    ensures
        output_value(regions, universal, last, x) == exists|i: int|
            0 <= i <= regions.len() && #[trigger] term_value(regions, i, universal, last, x),
{
    lemma_first_region(regions, 0, universal, last);
    let k = first_region(regions, 0, last);
    if k < regions.len() {
        assert(selects(regions, k, last));
        if output_value(regions, universal, last, x) {
            assert(term_value(regions, k + 1, universal, last, x));
        }
        if exists|i: int| 0 <= i <= regions.len() && #[trigger] term_value(regions, i, universal, last, x) {
            let i = choose|i: int| 0 <= i <= regions.len() && #[trigger] term_value(regions, i, universal, last, x);
            if i == 0 {
                assert(!cube_true(assignment_of(last), regions[k].spec_cube()));
            } else if i - 1 > k {
                assert(!cube_true(assignment_of(last), regions[k].spec_cube()));
            } else if i - 1 < k {
                assert(!cube_true(assignment_of(last), regions[i - 1].spec_cube()));
            }
        }
    } else {
        assert(none_before(regions, regions.len() as int, last));
        if output_value(regions, universal, last, x) {
            assert(term_value(regions, 0, universal, last, x));
        }
        if exists|i: int| 0 <= i <= regions.len() && #[trigger] term_value(regions, i, universal, last, x) {
            let i = choose|i: int| 0 <= i <= regions.len() && #[trigger] term_value(regions, i, universal, last, x);
            if i > 0 {
                assert(!cube_true(assignment_of(last), regions[i - 1].spec_cube()));
            }
        }
    }
}

/// The outputs are the circuit values.
proof fn lemma_output_value(model: SkolemModel, universal: Map<Var, bool>, x: Var)
    ensures
        output_value(model.regions@, universal, chain_values(model.final_chain@, universal), x) == circuit_value(
            model,
            universal,
            x,
        ),
{
    lemma_first_region(model.regions@, 0, universal, chain_values(model.final_chain@, universal));
}

proof fn lemma_extends_trans(a: &AigBuilder, b: &AigBuilder, c: &AigBuilder)
    requires
        b.extends(a),
        c.extends(b),
    ensures
        c.extends(a),
{
    lemma_grows_trans(a.spec_gates(), b.spec_gates(), c.spec_gates());
}

proof fn lemma_value_has(before: &AigBuilder, after: &AigBuilder, lit: u64)
    requires
        after.extends(before),
        before.has(lit),
    ensures
        after.has(lit),
{
}

proof fn lemma_inputs_kept(before: &AigBuilder, after: &AigBuilder, wires: Map<Var, u64>)
    requires
        after.extends(before),
        wires_ok(before, wires),
    ensures
        wires_ok(after, wires),
{
}

proof fn lemma_regions_push(
    aig: &AigBuilder,
    regions: Seq<Region>,
    before: Seq<VarMap<u64>>,
    after: Seq<VarMap<u64>>,
    inputs: Map<Var, u64>,
)
    requires
        regions_ok(aig, regions, before, inputs),
        after.len() == before.len() + 1,
        after.len() <= regions.len(),
        forall|i: int| 0 <= i < before.len() ==> after[i] == before[i],
        regions[before.len() as int] is Closed ==> forall|env: Seq<bool>|
            env.len() == aig.spec_inputs() ==> #[trigger] point(aig.spec_gates(), env, after[before.len() as int]@) == chain_values(
                regions[before.len() as int]->chain@,
                point(aig.spec_gates(), env, inputs),
            ),
    ensures
        regions_ok(aig, regions, after, inputs),
{
    assert forall|env: Seq<bool>, k: int|
        #![trigger point(aig.spec_gates(), env, after[k]@)]
        env.len() == aig.spec_inputs() && 0 <= k < after.len() && regions[k] is Closed implies point(
        aig.spec_gates(),
        env,
        after[k]@,
    ) == chain_values(regions[k]->chain@, point(aig.spec_gates(), env, inputs)) by {
        if k < before.len() {
            assert(after[k] == before[k]);
            assert(point(aig.spec_gates(), env, before[k]@) == chain_values(
                regions[k]->chain@,
                point(aig.spec_gates(), env, inputs),
            ));
        }
    }
}

/// One more region in the selection.
proof fn lemma_select_step(
    before: &AigBuilder,
    step1: &AigBuilder,
    step2: &AigBuilder,
    step3: &AigBuilder,
    regions: Seq<Region>,
    selected: Seq<u64>,
    rest: u64,
    last: Map<Var, u64>,
    lits: Seq<u64>,
    holds: u64,
    select: u64,
    next: u64,
)
    requires
        step1.extends(before),
        step2.extends(step1),
        step3.extends(step2),
        !step3.spec_full(),
        step1.wf(),
        selected.len() < regions.len(),
        selection_ok(before, regions, selected, rest, last),
        wires_ok(before, last),
        before.has(rest),
        step1.has(holds),
        step2.has(select),
        forall|k: int| 0 <= k < selected.len() ==> before.has(#[trigger] selected[k]),
        forall|env: Seq<bool>|
            #![trigger all_wires(before.spec_gates(), env, lits)]
            env.len() == before.spec_inputs() ==> all_wires(before.spec_gates(), env, lits) == cube_true(
                assignment_of(point(before.spec_gates(), env, last)),
                regions[selected.len() as int].spec_cube(),
            ),
        forall|env: Seq<bool>|
            env.len() == before.spec_inputs() ==> #[trigger] step1.value(env, holds) == all_wires(before.spec_gates(), env, lits),
        forall|env: Seq<bool>|
            env.len() == before.spec_inputs() ==> #[trigger] step2.value(env, select) == (step1.value(env, rest) && step1.value(
                env,
                holds,
            )),
        forall|env: Seq<bool>|
            env.len() == before.spec_inputs() ==> #[trigger] step3.value(env, next) == (step2.value(env, rest) && step2.value(
                env,
                flip(holds),
            )),
    ensures
        selection_ok(step3, regions, selected.push(select), next, last),
{
    step1.lemma_wf();
    lemma_extends_trans(before, step1, step2);
    lemma_extends_trans(before, step2, step3);
    let all = selected.push(select);
    let n = selected.len() as int;
    assert forall|env: Seq<bool>|
        #![trigger point(step3.spec_gates(), env, last)]
        env.len() == step3.spec_inputs() implies {
        let values = point(step3.spec_gates(), env, last);
        &&& wire(step3.spec_gates(), env, next as int) == none_before(regions, all.len() as int, values)
        &&& forall|k: int| 0 <= k < all.len() ==> wire(step3.spec_gates(), env, #[trigger] all[k] as int) == selects(regions, k, values)
    } by {
        lemma_point_grows(before, step3, last, env);
        let values = point(before.spec_gates(), env, last);
        lemma_value_grows(before, step1, rest, env);
        lemma_value_grows(before, step2, rest, env);
        lemma_value_grows(step1, step2, holds, env);
        lemma_flip(step2.spec_gates(), env, holds);
        lemma_value_grows(step2, step3, select, env);
        let cube = cube_true(assignment_of(values), regions[n].spec_cube());
        assert(step1.value(env, holds) == cube);
        assert(before.value(env, rest) == none_before(regions, n, values));
        assert(step3.value(env, next) == (none_before(regions, n, values) && !cube));
        assert(none_before(regions, n + 1, values) == (none_before(regions, n, values) && !cube)) by {
            if none_before(regions, n + 1, values) {
                assert(!cube_true(assignment_of(values), regions[n].spec_cube()));
                assert forall|j: int| 0 <= j < n implies !cube_true(assignment_of(values), (#[trigger] regions[j]).spec_cube()) by {}
            }
            if none_before(regions, n, values) && !cube {
                assert forall|j: int| 0 <= j < n + 1 implies !cube_true(assignment_of(values), (#[trigger] regions[j]).spec_cube()) by {
                    if j == n {
                    }
                }
            }
        }
        assert forall|k: int| 0 <= k < all.len() implies wire(step3.spec_gates(), env, #[trigger] all[k] as int) == selects(
            regions,
            k,
            values,
        ) by {
            if k < n {
                assert(all[k] == selected[k]);
                assert(before.has(selected[k]));
                lemma_value_grows(before, step3, selected[k], env);
                assert(wire(before.spec_gates(), env, selected[k] as int) == selects(regions, k, values));
            } else {
                assert(step2.value(env, select) == (none_before(regions, n, values) && cube));
            }
        }
    }
}

} // verus!
