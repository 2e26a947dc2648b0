//! Where the evaluation of a strategy and its circuit agree.
//!
//! The circuit has a wire for every variable that some branch defines, with
//! a value even where evaluation leaves the variable out. The two agree on
//! what evaluation defines, as long as the cubes of the strategy read
//! universal variables only and no part overwrites what another reads.
use crate::compose::{keeps, universal_set};
use crate::incdet::cegar::lemma_commit;
use crate::incdet::model::{agrees, commit, SkolemModel};
use crate::incdet::aig::{wire, MAX_GRAPH};
use crate::incdet::circuit::circuit_value;
use crate::laws::lemma_values_domain;
use crate::literal::{lemma_var_ext, Lit, Var};
use crate::quantifier::QuantTy;
use crate::semantics::{bound_by, clause_mentions, lit_true, matrix_true, Assignment, Matrix, Prefix};
use crate::strategy::{
    covers, cube_known, cube_played, drop_copies, drop_renamed, first_case, first_copy, follows, leaf_point, leaf_values, played,
    take_copies, winning, Strategy,
};
use crate::render::{model_circuit, output_values, strategy_circuit};
use crate::strategy_check::{input_values, circuit_follows, circuit_wins, lemma_universals_of, restricted_to, universals_of};
use crate::strategy_circuit::{copy_value, cube_reads, first_of, fold_copies, is_copied, is_original, leaf_inputs, merge, position};
use std::rc::Rc;
use vstd::prelude::*;

verus! {

broadcast use crate::literal::group_literal;

/// The cube reads variables of the set only.
pub open spec fn reads_only(cube: Seq<Lit>, inputs: Set<Var>) -> bool {
    forall|i: int| 0 <= i < cube.len() ==> inputs.contains((#[trigger] cube[i]).v())
}

/// No variable is renamed twice.
pub open spec fn renames_once(rename: Seq<(Var, Var)>) -> bool {
    forall|i: int, j: int| 0 <= i < j < rename.len() ==> (#[trigger] rename[i]).0 != (#[trigger] rename[j]).0
}

/// A cube of the copies reads the variable.
pub open spec fn copies_read(copies: Seq<(Vec<Lit>, Vec<(Var, Var)>)>, x: Var) -> bool {
    exists|k: int| 0 <= k < copies.len() && clause_mentions((#[trigger] copies[k]).0@, x)
}

impl Strategy {
    /// The variable is read by a cube, renamed, or defined by a leaf.
    pub open spec fn pivotal(self, x: Var) -> bool
        decreases self, 0nat,
    {
        match self {
            Strategy::Done => false,
            Strategy::Fixed { assignments, rest } => rest.pivotal(x),
            Strategy::Choose { constants, rest } => rest.pivotal(x),
            Strategy::Split { cases } => Strategy::case_pivotal(cases, cases@.len(), x),
            Strategy::Expanded { copies, rest } => is_original(copies@, x) || copies_read(copies@, x) || rest.pivotal(x),
            Strategy::Leaf(model) => model.defines(x),
        }
    }

    /// One of the first cases reads, renames or defines the variable.
    pub open spec fn case_pivotal(cases: Vec<(Vec<Lit>, Rc<Strategy>)>, n: nat, x: Var) -> bool
        decreases cases, n,
    {
        if n == 0 || n > cases@.len() {
            false
        } else {
            Strategy::case_pivotal(cases, (n - 1) as nat, x) || clause_mentions(cases@[n - 1].0@, x) || cases@[n - 1].1.pivotal(x)
        }
    }

    /// Cubes read the inputs only, committed literals are of variables that
    /// play no part later, and what is renamed is named nowhere below.
    pub open spec fn steady(self, inputs: Set<Var>) -> bool
        decreases self, 0nat,
    {
        match self {
            Strategy::Done => true,
            Strategy::Fixed { assignments, rest } => rest.steady(inputs) && forall|x: Var| #[trigger]
                clause_mentions(assignments@, x) ==> !rest.pivotal(x),
            Strategy::Choose { constants, rest } => rest.steady(inputs) && forall|x: Var| #[trigger]
                clause_mentions(constants@, x) ==> !rest.pivotal(x),
            Strategy::Split { cases } => Strategy::cases_steady(cases, cases@.len(), inputs),
            Strategy::Expanded { copies, rest } => {
                &&& rest.steady(inputs)
                &&& forall|k: int| 0 <= k < copies@.len() ==> reads_only((#[trigger] copies@[k]).0@, inputs) && renames_once(copies@[k].1@)
                &&& forall|x: Var| #[trigger] is_original(copies@, x) ==> !rest.names(x)
            },
            Strategy::Leaf(model) => true,
        }
    }

    /// The first cases are steady and their cubes read the inputs only.
    pub open spec fn cases_steady(cases: Vec<(Vec<Lit>, Rc<Strategy>)>, n: nat, inputs: Set<Var>) -> bool
        decreases cases, n,
    {
        if n == 0 || n > cases@.len() {
            true
        } else {
            Strategy::cases_steady(cases, (n - 1) as nat, inputs) && reads_only(cases@[n - 1].0@, inputs) && cases@[n - 1].1.steady(inputs)
        }
    }
}

spec fn evaluated(s: Rc<Strategy>, universal: Seq<i32>, values: Map<Var, bool>) -> Map<Var, bool> {
    s.values(universal, values)
}

spec fn computed(s: Rc<Strategy>, inputs: Map<Var, bool>, values: Map<Var, bool>) -> Map<Var, bool> {
    s.circuit(inputs, values)
}

spec fn inside(model: Rc<SkolemModel>) -> SkolemModel {
    *model
}

/// The universal player plays the inputs, and nothing else.
pub open spec fn plays_inputs(universal: Seq<i32>, inputs: Map<Var, bool>) -> bool {
    forall|x: Var|
        #![trigger inputs.contains_key(x)]
        #![trigger x.dimacs()]
        (played(universal, x.dimacs()) <==> inputs.contains_key(x) && inputs[x]) && (played(universal, -x.dimacs())
            <==> inputs.contains_key(x) && !inputs[x])
}

/// What holds of all cases holds of each.
pub proof fn lemma_case(cases: Vec<(Vec<Lit>, Rc<Strategy>)>, n: nat, inputs: Set<Var>, i: int)
    requires
        0 <= i < n <= cases@.len(),
    ensures
        Strategy::cases_steady(cases, n, inputs) ==> reads_only(cases@[i].0@, inputs) && cases@[i].1.steady(inputs),
        forall|x: Var| clause_mentions(cases@[i].0@, x) || #[trigger] cases@[i].1.pivotal(x) ==> Strategy::case_pivotal(cases, n, x),
        forall|x: Var| #[trigger] cases@[i].1.names(x) ==> Strategy::case_names(cases, n, x),
        forall|x: Var| #[trigger] clause_mentions(cases@[i].0@, x) ==> Strategy::case_pivotal(cases, n, x),
    decreases n,
{
    if i < n - 1 {
        lemma_case(cases, (n - 1) as nat, inputs, i);
    }
}

/// What holds of each case holds of all.
pub proof fn lemma_cases(cases: Vec<(Vec<Lit>, Rc<Strategy>)>, n: nat, inputs: Set<Var>)
    requires
        n <= cases@.len(),
        forall|i: int| 0 <= i < n ==> reads_only((#[trigger] cases@[i]).0@, inputs) && cases@[i].1.steady(inputs),
    ensures
        Strategy::cases_steady(cases, n, inputs),
    decreases n,
{
    if n > 0 {
        lemma_cases(cases, (n - 1) as nat, inputs);
    }
}

/// What some case names or relies on, one case names or relies on.
pub proof fn lemma_some_case(cases: Vec<(Vec<Lit>, Rc<Strategy>)>, n: nat, x: Var)
    requires
        n <= cases@.len(),
    ensures
        Strategy::case_names(cases, n, x) ==> exists|i: int| 0 <= i < n && (#[trigger] cases@[i]).1.names(x),
        Strategy::case_pivotal(cases, n, x) ==> exists|i: int|
            0 <= i < n && (clause_mentions((#[trigger] cases@[i]).0@, x) || cases@[i].1.pivotal(x)),
    decreases n,
{
    if n > 0 {
        lemma_some_case(cases, (n - 1) as nat, x);
        assert(cases@[n - 1].1.names(x) == cases@[n - 1].1.names(x));
    }
}

/// More inputs do no harm.
pub proof fn lemma_steady_more(s: &Strategy, few: Set<Var>, more: Set<Var>)
    requires
        s.steady(few),
        few.subset_of(more),
    ensures
        s.steady(more),
    decreases s,
{
    match s {
        Strategy::Done => {},
        Strategy::Fixed { assignments, rest } => lemma_steady_more(&**rest, few, more),
        Strategy::Choose { constants, rest } => lemma_steady_more(&**rest, few, more),
        Strategy::Split { cases } => {
            assert forall|i: int| 0 <= i < cases@.len() implies reads_only((#[trigger] cases@[i]).0@, more) && cases@[i].1.steady(more) by {
                lemma_case(*cases, cases@.len(), few, i);
                lemma_steady_more(&*cases@[i].1, few, more);
            }
            lemma_cases(*cases, cases@.len(), more);
        },
        Strategy::Expanded { copies, rest } => {
            lemma_steady_more(&**rest, few, more);
            assert forall|k: int| 0 <= k < copies@.len() implies reads_only((#[trigger] copies@[k]).0@, more) && renames_once(copies@[k].1@) by {
                assert(reads_only(copies@[k].0@, few));
            }
        },
        Strategy::Leaf(model) => {},
    }
}

proof fn lemma_take(values: Map<Var, bool>, rename: Seq<(Var, Var)>, x: Var)
    requires
        renames_once(rename),
    ensures
        ({
            let taken = take_copies(values, rename);
            let j = position(rename, 0, x);
            &&& 0 <= j <= rename.len()
            &&& j < rename.len() ==> rename[j].0 == x
            &&& j == rename.len() ==> forall|i: int| 0 <= i < rename.len() ==> (#[trigger] rename[i]).0 != x
            &&& j < rename.len() && values.contains_key(rename[j].1) ==> taken.contains_key(x) && taken[x] == values[rename[j].1]
            &&& !(j < rename.len() && values.contains_key(rename[j].1)) ==> taken.contains_key(x) == values.contains_key(x) && (
            values.contains_key(x) ==> taken[x] == values[x])
        }),
    decreases rename.len(),
{
    lemma_position(rename, 0, x);
    if rename.len() > 0 {
        let front = rename.drop_last();
        assert forall|i: int, j: int| 0 <= i < j < front.len() implies (#[trigger] front[i]).0 != (#[trigger] front[j]).0 by {
            assert(rename[i].0 != rename[j].0);
        }
        lemma_take(values, front, x);
        lemma_position(front, 0, x);
        let j = position(rename, 0, x);
        let i = position(front, 0, x);
        if i < front.len() {
            assert(rename[i].0 == x);
            if i < j {
            } else if j < i {
                assert(front[j].0 == x);
            }
            assert(i == j);
            assert(rename.last() == rename[rename.len() - 1]);
            assert(rename[i].0 != rename[rename.len() - 1].0);
        } else if j < rename.len() {
            if j < front.len() {
                assert(front[j].0 == x);
            }
            assert(j == rename.len() - 1);
        } else {
            assert(rename[rename.len() - 1].0 != x);
        }
    }
}

proof fn lemma_position(rename: Seq<(Var, Var)>, from: int, x: Var)
    requires
        0 <= from <= rename.len(),
    ensures
        from <= position(rename, from, x) <= rename.len(),
        position(rename, from, x) < rename.len() ==> rename[position(rename, from, x)].0 == x,
        forall|i: int| from <= i < position(rename, from, x) ==> (#[trigger] rename[i]).0 != x,
    decreases rename.len() - from,
{
    if from < rename.len() && rename[from].0 != x {
        lemma_position(rename, from + 1, x);
    }
}

proof fn lemma_dropped(values: Map<Var, bool>, rename: Seq<(Var, Var)>, x: Var)
    ensures
        drop_renamed(values, rename).contains_key(x) ==> values.contains_key(x) && drop_renamed(values, rename)[x] == values[x] && forall|
            j: int,
        |
            0 <= j < rename.len() ==> (#[trigger] rename[j]).1 != x,
    decreases rename.len(),
{
    if rename.len() > 0 {
        let front = rename.drop_last();
        lemma_dropped(values, front, x);
        if drop_renamed(values, rename).contains_key(x) {
            assert forall|j: int| 0 <= j < rename.len() implies (#[trigger] rename[j]).1 != x by {
                if j < front.len() {
                    assert(front[j].1 != x);
                }
            }
        }
    }
}

proof fn lemma_all_dropped(values: Map<Var, bool>, copies: Seq<(Vec<Lit>, Vec<(Var, Var)>)>, x: Var)
    ensures
        drop_copies(values, copies).contains_key(x) ==> values.contains_key(x) && drop_copies(values, copies)[x] == values[x] && !is_copied(
            copies,
            x,
        ),
    decreases copies.len(),
{
    if copies.len() > 0 {
        let front = copies.drop_last();
        lemma_all_dropped(values, front, x);
        lemma_dropped(drop_copies(values, front), copies.last().1@, x);
        if drop_copies(values, copies).contains_key(x) && is_copied(copies, x) {
            let (k, j) = choose|k: int, j: int| 0 <= k < copies.len() && 0 <= j < copies[k].1@.len() && (#[trigger] copies[k].1@[j]).1 == x;
            if k < front.len() {
                assert(front[k].1@[j].1 == x);
                assert(is_copied(front, x));
            } else {
                assert(copies.last().1@[j].1 == x);
            }
        }
    }
}

proof fn lemma_is_original(copies: Seq<(Vec<Lit>, Vec<(Var, Var)>)>, k: int, j: int)
    requires
        0 <= k < copies.len(),
        0 <= j < copies[k].1@.len(),
    ensures
        is_original(copies, copies[k].1@[j].0),
{
}

/// A strategy gives values to the variables it names.
pub proof fn lemma_named(s: &Strategy, universal: Seq<i32>, values: Map<Var, bool>, inputs: Set<Var>, x: Var)
    requires
        s.values(universal, values).contains_key(x),
        s.steady(inputs),
    ensures
        values.contains_key(x) || s.names(x),
    decreases s,
{
    match s {
        Strategy::Done => {},
        Strategy::Fixed { assignments, rest } => {
            assert(rest.steady(inputs));
            lemma_commit(values, assignments@);
            lemma_named(&**rest, universal, commit(values, assignments@), inputs, x);
        },
        Strategy::Choose { constants, rest } => {
            assert(rest.steady(inputs));
            lemma_commit(values, constants@);
            lemma_named(&**rest, universal, commit(values, constants@), inputs, x);
        },
        Strategy::Split { cases } => {
            let k = first_case(cases@, 0, universal, values);
            if 0 <= k < cases@.len() {
                lemma_case(*cases, cases@.len(), inputs, k);
                assert(cases@[k].1.steady(inputs));
                lemma_named(&*cases@[k].1, universal, values, inputs, x);
                assert(cases@[k].1.names(x) ==> Strategy::case_names(*cases, cases@.len(), x));
            }
        },
        Strategy::Expanded { copies, rest } => {
            assert(rest.steady(inputs));
            let inner = evaluated(*rest, universal, values);
            let k = first_copy(copies@, 0, universal);
            let taken = if 0 <= k < copies@.len() {
                take_copies(inner, copies@[k].1@)
            } else {
                inner
            };
            lemma_all_dropped(taken, copies@, x);
            if 0 <= k < copies@.len() {
                let rename = copies@[k].1@;
                assert(renames_once(copies@[k].1@));
                lemma_take(inner, rename, x);
                let j = position(rename, 0, x);
                if j < rename.len() {
                    lemma_is_original(copies@, k, j);
                }
            }
            if inner.contains_key(x) {
                lemma_named(&**rest, universal, values, inputs, x);
            }
        },
        Strategy::Leaf(model) => {
            let point = leaf_point(model.spec_universals(), universal);
            if !values.contains_key(x) {
                lemma_values_domain(inside(*model), point, x);
            }
        },
    }
}

proof fn lemma_same_cube(universal: Seq<i32>, inputs: Map<Var, bool>, v: Map<Var, bool>, w: Map<Var, bool>, cube: Seq<Lit>)
    requires
        plays_inputs(universal, inputs),
        reads_only(cube, inputs.dom()),
        forall|x: Var| #[trigger] clause_mentions(cube, x) ==> !v.contains_key(x),
    ensures
        cube_known(universal, v, cube) == cube_reads(inputs, w, cube),
        cube_played(universal, cube) == cube_reads(inputs, w, cube),
{
    assert forall|i: int| 0 <= i < cube.len() implies played(universal, (#[trigger] cube[i]).dimacs()) == crate::strategy_circuit::lit_reads(
        inputs,
        w,
        cube[i],
    ) && !v.contains_key(cube[i].v()) by {
        let x = cube[i].v();
        assert(clause_mentions(cube, x));
        assert(inputs.contains_key(x));
        assert(cube[i].dimacs() == x.dimacs() || cube[i].dimacs() == -x.dimacs());
    }
    if cube_reads(inputs, w, cube) {
        assert forall|i: int| 0 <= i < cube.len() implies played(universal, (#[trigger] cube[i]).dimacs()) by {
            assert(crate::strategy_circuit::lit_reads(inputs, w, cube[i]));
        }
    }
    if cube_known(universal, v, cube) || cube_played(universal, cube) {
        assert forall|i: int| 0 <= i < cube.len() implies crate::strategy_circuit::lit_reads(inputs, w, #[trigger] cube[i]) by {
            assert(played(universal, cube[i].dimacs()));
        }
    }
}

proof fn lemma_same_case(cases: Seq<(Vec<Lit>, Rc<Strategy>)>, from: int, universal: Seq<i32>, v: Map<Var, bool>, holds: spec_fn(int) -> bool)
    requires
        0 <= from <= cases.len(),
        forall|i: int| 0 <= i < cases.len() ==> #[trigger] holds(i) == cube_known(universal, v, cases[i].0@),
    ensures
        first_case(cases, from, universal, v) == first_of(holds, from, cases.len() as int),
        from <= first_case(cases, from, universal, v) <= cases.len(),
    decreases cases.len() - from,
{
    if from < cases.len() {
        assert(holds(from) == cube_known(universal, v, cases[from].0@));
        if !holds(from) {
            lemma_same_case(cases, from + 1, universal, v, holds);
        }
    }
}

proof fn lemma_same_copy(copies: Seq<(Vec<Lit>, Vec<(Var, Var)>)>, from: int, universal: Seq<i32>, holds: spec_fn(int) -> bool)
    requires
        0 <= from <= copies.len(),
        forall|i: int| 0 <= i < copies.len() ==> #[trigger] holds(i) == cube_played(universal, copies[i].0@),
    ensures
        first_copy(copies, from, universal) == first_of(holds, from, copies.len() as int),
        from <= first_copy(copies, from, universal) <= copies.len(),
    decreases copies.len() - from,
{
    if from < copies.len() {
        assert(holds(from) == cube_played(universal, copies[from].0@));
        if !holds(from) {
            lemma_same_copy(copies, from + 1, universal, holds);
        }
    }
}

proof fn lemma_commit_more(v: Map<Var, bool>, w: Map<Var, bool>, lits: Seq<Lit>)
    requires
        keeps(v, w),
    ensures
        keeps(commit(v, lits), commit(w, lits)),
    decreases lits.len(),
{
    if lits.len() > 0 {
        lemma_commit_more(v, w, lits.drop_last());
    }
}

proof fn lemma_branch(cases: Vec<(Vec<Lit>, Rc<Strategy>)>, n: nat, inputs: Map<Var, bool>, w: Map<Var, bool>, k: int)
    requires
        0 <= k < n <= cases@.len(),
    ensures
        Strategy::branches(cases, n, inputs, w).len() == n,
        Strategy::branches(cases, n, inputs, w)[k] == cases@[k].1.circuit(inputs, w),
    decreases n,
{
    if k < n - 1 {
        lemma_branch(cases, (n - 1) as nat, inputs, w, k);
    } else {
        lemma_branches_len(cases, (n - 1) as nat, inputs, w);
    }
}

proof fn lemma_branches_len(cases: Vec<(Vec<Lit>, Rc<Strategy>)>, n: nat, inputs: Map<Var, bool>, w: Map<Var, bool>)
    requires
        n <= cases@.len(),
    ensures
        Strategy::branches(cases, n, inputs, w).len() == n,
    decreases n,
{
    if n > 0 {
        lemma_branches_len(cases, (n - 1) as nat, inputs, w);
    }
}

/// The circuit of a steady strategy computes the values that evaluating it
/// gives: where evaluation defines a variable, so does the circuit, with
/// the same value.
pub proof fn law_circuit_agrees_with_evaluation(s: &Strategy, universal: Seq<i32>, inputs: Map<Var, bool>, v: Map<Var, bool>, w: Map<Var, bool>)
    requires
        s.steady(inputs.dom()),
        plays_inputs(universal, inputs),
        keeps(v, w),
        forall|x: Var| #[trigger] v.contains_key(x) ==> !s.pivotal(x),
    ensures
        keeps(s.values(universal, v), s.circuit(inputs, w)),
    decreases s,
{
    let dom = inputs.dom();
    match s {
        Strategy::Done => {},
        Strategy::Fixed { assignments, rest } => {
            lemma_commit(v, assignments@);
            lemma_commit_more(v, w, assignments@);
            law_circuit_agrees_with_evaluation(&**rest, universal, inputs, commit(v, assignments@), commit(w, assignments@));
        },
        Strategy::Choose { constants, rest } => {
            lemma_commit(v, constants@);
            lemma_commit_more(v, w, constants@);
            law_circuit_agrees_with_evaluation(&**rest, universal, inputs, commit(v, constants@), commit(w, constants@));
        },
        Strategy::Split { cases } => {
            let n = cases@.len();
            let holds = |i: int| cube_reads(inputs, w, cases@[i].0@);
            assert forall|i: int| 0 <= i < n implies #[trigger] holds(i) == cube_known(universal, v, cases@[i].0@) by {
                lemma_case(*cases, n, dom, i);
                lemma_same_cube(universal, inputs, v, w, cases@[i].0@);
            }
            lemma_same_case(cases@, 0, universal, v, holds);
            let k = first_case(cases@, 0, universal, v);
            let parts = Strategy::branches(*cases, n, inputs, w);
            lemma_branches_len(*cases, n, inputs, w);
            let circuit = s.circuit(inputs, w);
            assert(circuit == merge(parts, k, w));
            if k < n {
                lemma_case(*cases, n, dom, k);
                lemma_branch(*cases, n, inputs, w, k);
                law_circuit_agrees_with_evaluation(&*cases@[k].1, universal, inputs, v, w);
                assert forall|x: Var| #[trigger] s.values(universal, v).contains_key(x) implies circuit.contains_key(x) && circuit[x]
                    == s.values(universal, v)[x] by {
                    assert(cases@[k].1.values(universal, v).contains_key(x));
                    assert(parts[k].contains_key(x));
                }
            }
        },
        Strategy::Expanded { copies, rest } => {
            law_circuit_agrees_with_evaluation(&**rest, universal, inputs, v, w);
            let a = evaluated(*rest, universal, v);
            let b = computed(*rest, inputs, w);
            let holds = |i: int| cube_reads(inputs, Map::empty(), copies@[i].0@);
            assert forall|i: int| 0 <= i < copies@.len() implies #[trigger] holds(i) == cube_played(universal, copies@[i].0@) by {
                lemma_same_cube(universal, inputs, Map::empty(), Map::empty(), copies@[i].0@);
            }
            lemma_same_copy(copies@, 0, universal, holds);
            let k = first_copy(copies@, 0, universal);
            let taken = if 0 <= k < copies@.len() {
                take_copies(a, copies@[k].1@)
            } else {
                a
            };
            let last = s.values(universal, v);
            let circuit = s.circuit(inputs, w);
            assert(circuit == fold_copies(copies@, k, b));
            assert forall|x: Var| #[trigger] last.contains_key(x) implies circuit.contains_key(x) && circuit[x] == last[x] by {
                lemma_all_dropped(taken, copies@, x);
                if a.contains_key(x) {
                    lemma_named(&**rest, universal, v, dom, x);
                }
                if 0 <= k < copies@.len() {
                    let rename = copies@[k].1@;
                    lemma_take(a, rename, x);
                    let j = position(rename, 0, x);
                    if j < rename.len() {
                        lemma_is_original(copies@, k, j);
                    }
                }
            }
        },
        Strategy::Leaf(model) => {
            let last = s.values(universal, v);
            let circuit = s.circuit(inputs, w);
            let us = model.spec_universals();
            let point = leaf_point(us, universal);
            assert(point =~= leaf_inputs(us, inputs)) by {
                assert forall|x: Var| us.contains(x) implies #[trigger] point[x] == leaf_inputs(us, inputs)[x] by {
                    assert(x.dimacs() == x.dimacs());
                }
            }
            assert forall|x: Var| #[trigger] last.contains_key(x) implies circuit.contains_key(x) && circuit[x] == last[x] by {
                let values = model.values(point);
                if values.contains_key(x) && !us.contains(x) {
                    lemma_values_domain(inside(*model), point, x);
                    crate::laws::law_circuits_compute_the_model(inside(*model), point, x);
                }
            }
        },
    }
}

/// The moves of the universal player in an assignment.
spec fn moves(us: Seq<Var>, a: Assignment) -> Seq<i32> {
    Seq::new(us.len(), |i: int| if a(us[i]) { us[i].dimacs() as i32 } else { (-us[i].dimacs()) as i32 })
}

proof fn lemma_moves(us: Seq<Var>, a: Assignment)
    requires
        forall|x: Var| #[trigger] us.contains(x) ==> x.dimacs() <= i32::MAX,
    ensures
        plays_inputs(moves(us, a), restricted_to(us, a)),
{
    let universal = moves(us, a);
    let inputs = restricted_to(us, a);
    assert forall|x: Var|
        #![trigger inputs.contains_key(x)]
        #![trigger x.dimacs()]
        (played(universal, x.dimacs()) <==> inputs.contains_key(x) && inputs[x]) && (played(universal, -x.dimacs())
            <==> inputs.contains_key(x) && !inputs[x]) by {
        if us.contains(x) {
            let i = choose|i: int| 0 <= i < us.len() && us[i] == x;
            assert(universal[i] == if a(x) { x.dimacs() } else { -x.dimacs() });
        }
        if played(universal, x.dimacs()) {
            let i = choose|i: int| 0 <= i < universal.len() && #[trigger] universal[i] == x.dimacs();
            assert(us.contains(us[i]));
            assert(us[i].dimacs() > 0 && x.dimacs() > 0);
            lemma_var_ext(us[i], x);
        }
        if played(universal, -x.dimacs()) {
            let i = choose|i: int| 0 <= i < universal.len() && #[trigger] universal[i] == -x.dimacs();
            assert(us.contains(us[i]));
            assert(us[i].dimacs() > 0 && x.dimacs() > 0);
            lemma_var_ext(us[i], x);
        }
    }
}

/// The circuit of a winning strategy wins, if the strategy is steady:
/// checking a strategy that comes with a satisfiable verdict cannot fail
/// but for its size.
pub proof fn law_winning_strategies_have_winning_circuits(s: &Strategy, p: Prefix, m: Matrix)
    requires
        winning(*s, p, m),
        s.steady(universal_set(p)),
        forall|x: Var| #[trigger] bound_by(p, QuantTy::Forall, x) ==> x.dimacs() <= i32::MAX,
    ensures
        circuit_wins(*s, p, m),
{
    let us = universals_of(p);
    assert forall|x: Var| #[trigger] us.contains(x) <==> bound_by(p, QuantTy::Forall, x) by {
        lemma_universals_of(p, x);
    }
    assert forall|a: Assignment| #[trigger] circuit_follows(*s, p, a) implies matrix_true(a, m) by {
        let universal = moves(us, a);
        let inputs = restricted_to(us, a);
        let none = Map::<Var, bool>::empty();
        lemma_moves(us, a);
        assert(inputs.dom() =~= universal_set(p));
        law_circuit_agrees_with_evaluation(s, universal, inputs, none, none);
        assert forall|x: Var| #[trigger] bound_by(p, QuantTy::Forall, x) implies played(universal, x.dimacs()) != played(
            universal,
            -x.dimacs(),
        ) by {
            assert(us.contains(x));
            assert(inputs.contains_key(x));
        }
        assert(covers(universal, p));
        assert forall|l: Lit| #[trigger] played(universal, l.dimacs()) implies lit_true(a, l) by {
            let x = l.v();
            assert(l.dimacs() == x.dimacs() || l.dimacs() == -x.dimacs());
            assert(inputs.contains_key(x));
        }
        assert(follows(a, universal));
        let values = s.values(universal, none);
        assert forall|x: Var| #[trigger] values.contains_key(x) implies a(x) == values[x] by {
            assert(s.circuit(inputs, none).contains_key(x));
        }
        assert(agrees(a, values));
    }
}

/// The inputs have values for the universal variables.
proof fn lemma_input_domain(us: Seq<Var>, env: Seq<bool>, x: Var)
    ensures
        input_values(us, env).contains_key(x) <==> us.contains(x),
    decreases us.len(),
{
    if us.len() > 0 {
        lemma_input_domain(us.drop_last(), env, x);
        assert(us =~= us.drop_last().push(us.last()));
        crate::datastructure::lemma_push_contains(us.drop_last(), us.last(), x);
    }
}

/// The circuit that a steady strategy is written as computes what
/// evaluating it gives: where evaluation defines a variable, the circuit
/// has an output for it with the same value.
pub proof fn law_written_circuits_agree_with_evaluation(
    s: &Strategy,
    us: Seq<Var>,
    gates: Seq<(u64, u64, u64)>,
    outputs: Seq<(Var, u64)>,
    env: Seq<bool>,
    universal: Seq<i32>,
)
    requires
        strategy_circuit(*s, us, gates, outputs),
        us.len() + gates.len() + 1 < MAX_GRAPH,
        s.steady(us.to_set()),
        env.len() == us.len(),
        plays_inputs(universal, input_values(us, env)),
    ensures
        keeps(s.values(universal, Map::empty()), output_values(gates, env, outputs)),
{
    let inputs = input_values(us, env);
    let none = Map::<Var, bool>::empty();
    assert(inputs.dom() =~= us.to_set()) by {
        assert forall|x: Var| inputs.dom().contains(x) == us.to_set().contains(x) by {
            lemma_input_domain(us, env, x);
        }
    }
    law_circuit_agrees_with_evaluation(s, universal, inputs, none, none);
    assert(output_values(gates, env, outputs) == s.circuit(inputs, none));
}

/// The circuit that a model is written as computes its values: where the
/// model gives an output variable a value, the output has it.
pub proof fn law_written_models_agree_with_evaluation(
    model: SkolemModel,
    names: Map<i32, String>,
    text: Seq<char>,
    gates: Seq<(u64, u64, u64)>,
    outputs: Seq<(Var, u64)>,
    env: Seq<bool>,
    i: int,
)
    requires
        model_circuit(model, names, text, gates, outputs),
        model.spec_universals().len() + gates.len() + 1 < MAX_GRAPH,
        env.len() == model.spec_universals().len(),
        0 <= i < outputs.len(),
        model.values(input_values(model.spec_universals(), env)).contains_key(outputs[i].0),
    ensures
        wire(gates, env, outputs[i].1 as int) == model.values(input_values(model.spec_universals(), env))[outputs[i].0],
{
    let point = input_values(model.spec_universals(), env);
    assert(wire(gates, env, outputs[i].1 as int) == circuit_value(model, point, outputs[i].0));
    crate::laws::law_circuits_compute_the_model(model, point, outputs[i].0);
}

} // verus!
