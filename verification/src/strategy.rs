//! Winning strategies of the existential player, composed through the
//! solving pipeline.
use crate::datastructure::VarMap;
use crate::incdet::model::{agrees, capped, commit, SkolemModel};
use crate::literal::{lemma_var_ext, Lit, Var};
use crate::quantifier::QuantTy;
use crate::semantics::{bound_by, lit_true, matrix_true, Assignment, Matrix, Prefix};
use std::collections::HashMap;
use std::rc::Rc;
use vstd::prelude::*;

verus! {

broadcast use {crate::literal::group_literal, vstd::std_specs::hash::group_hash_axioms};

/// The inverse of one expansion of a universal block: for every assignment
/// of the enumerated block, the cube selecting it and the renaming that
/// maps each variable bound after the block to its copy in the expanded
/// instance.
pub type Copies = Vec<(Vec<Lit>, Vec<(Var, Var)>)>;

/// A winning strategy for the existential player. Evaluated against a full
/// assignment of the universal variables, it yields a value for every
/// existential variable the solve determined; variables it leaves out were
/// dropped as irrelevant and may take any value.
#[derive(Debug)]
pub enum Strategy {
    /// Values a simplification pass forced.
    Fixed { assignments: Vec<Lit>, rest: Rc<Strategy> },
    /// The constants an outermost existential block committed to.
    Choose { constants: Vec<Lit>, rest: Rc<Strategy> },
    /// One sub-strategy per enumerated cube of a universal block.
    Split { cases: Vec<(Vec<Lit>, Rc<Strategy>)> },
    /// The inverse of an expansion: the sub-strategy plays all copies of
    /// the variables bound after the enumerated block at once, and the
    /// copy the actual assignment of the block selects supplies the value.
    Expanded { copies: Copies, rest: Rc<Strategy> },
    /// The Skolem functions of a formula with one alternation.
    Leaf(Rc<SkolemModel>),
    /// Nothing left to decide.
    Done,
}

/// The universal player plays the literal with the given number.
pub open spec fn played(universal: Seq<i32>, number: int) -> bool {
    exists|i: int| 0 <= i < universal.len() && #[trigger] universal[i] == number
}

/// Every literal of the cube is played.
pub open spec fn cube_played(universal: Seq<i32>, cube: Seq<Lit>) -> bool {
    forall|i: int| 0 <= i < cube.len() ==> played(universal, (#[trigger] cube[i]).dimacs())
}

/// Every literal of the cube is played or has been committed to.
pub open spec fn cube_known(universal: Seq<i32>, values: Map<Var, bool>, cube: Seq<Lit>) -> bool {
    forall|i: int|
        0 <= i < cube.len() ==> played(universal, (#[trigger] cube[i]).dimacs()) || (values.contains_key(cube[i].v())
            && values[cube[i].v()] == cube[i].pos())
}

/// The first case from `from` on whose cube is known, or the number of
/// cases.
pub open spec fn first_case(cases: Seq<(Vec<Lit>, Rc<Strategy>)>, from: int, universal: Seq<i32>, values: Map<Var, bool>) -> int
    decreases cases.len() - from,
{
    if from < 0 || from >= cases.len() {
        cases.len() as int
    } else if cube_known(universal, values, cases[from].0@) {
        from
    } else {
        first_case(cases, from + 1, universal, values)
    }
}

/// The first copy from `from` on whose cube is played, or the number of
/// copies.
pub open spec fn first_copy(copies: Seq<(Vec<Lit>, Vec<(Var, Var)>)>, from: int, universal: Seq<i32>) -> int
    decreases copies.len() - from,
{
    if from < 0 || from >= copies.len() {
        copies.len() as int
    } else if cube_played(universal, copies[from].0@) {
        from
    } else {
        first_copy(copies, from + 1, universal)
    }
}

/// The values with every original variable taking the value of its copy.
pub open spec fn take_copies(values: Map<Var, bool>, rename: Seq<(Var, Var)>) -> Map<Var, bool>
    decreases rename.len(),
{
    if rename.len() == 0 {
        values
    } else {
        let before = take_copies(values, rename.drop_last());
        let (original, copy) = rename.last();
        if values.contains_key(copy) {
            before.insert(original, values[copy])
        } else {
            before
        }
    }
}

/// The values without the copies of one renaming.
pub open spec fn drop_renamed(values: Map<Var, bool>, rename: Seq<(Var, Var)>) -> Map<Var, bool>
    decreases rename.len(),
{
    if rename.len() == 0 {
        values
    } else {
        drop_renamed(values, rename.drop_last()).remove(rename.last().1)
    }
}

/// The values without all copies.
pub open spec fn drop_copies(values: Map<Var, bool>, copies: Seq<(Vec<Lit>, Vec<(Var, Var)>)>) -> Map<Var, bool>
    decreases copies.len(),
{
    if copies.len() == 0 {
        values
    } else {
        drop_renamed(drop_copies(values, copies.drop_last()), copies.last().1@)
    }
}

/// The universal values a leaf reads.
pub open spec fn leaf_point(universals: Seq<Var>, universal: Seq<i32>) -> Map<Var, bool> {
    Map::new(|x: Var| universals.contains(x), |x: Var| played(universal, x.dimacs()))
}

/// The existential values of a leaf on top of the values so far.
pub open spec fn leaf_values(model: SkolemModel, universal: Seq<i32>, values: Map<Var, bool>) -> Map<Var, bool> {
    let played = model.values(leaf_point(model.spec_universals(), universal));
    Map::new(
        |x: Var| values.contains_key(x) || (played.contains_key(x) && !model.spec_universals().contains(x)),
        |x: Var|
            if played.contains_key(x) && !model.spec_universals().contains(x) {
                played[x]
            } else {
                values[x]
            },
    )
}

impl Strategy {
    /// The values after playing the strategy on top of the values so far.
    pub open spec fn values(self, universal: Seq<i32>, values: Map<Var, bool>) -> Map<Var, bool>
        decreases self,
    {
        match self {
            Strategy::Done => values,
            Strategy::Fixed { assignments, rest } => rest.values(universal, commit(values, assignments@)),
            Strategy::Choose { constants, rest } => rest.values(universal, commit(values, constants@)),
            Strategy::Split { cases } => {
                let k = first_case(cases@, 0, universal, values);
                if 0 <= k < cases@.len() {
                    cases@[k].1.values(universal, values)
                } else {
                    values
                }
            },
            Strategy::Expanded { copies, rest } => {
                let inner = rest.values(universal, values);
                let k = first_copy(copies@, 0, universal);
                let taken = if 0 <= k < copies@.len() {
                    take_copies(inner, copies@[k].1@)
                } else {
                    inner
                };
                drop_copies(taken, copies@)
            },
            Strategy::Leaf(model) => leaf_values(*model, universal, values),
        }
    }
}

/// The assignment follows what the universal player plays.
pub open spec fn follows(a: Assignment, universal: Seq<i32>) -> bool {
    forall|l: Lit| #[trigger] played(universal, l.dimacs()) ==> lit_true(a, l)
}

/// The universal player plays each universal variable of the prefix one
/// way.
pub open spec fn covers(universal: Seq<i32>, p: Prefix) -> bool {
    forall|x: Var| #[trigger]
        bound_by(p, QuantTy::Forall, x) ==> played(universal, x.dimacs()) != played(universal, -x.dimacs())
}

/// The strategy wins: whatever the universal player does, the values it
/// prescribes satisfy every clause, with any values for the variables it
/// leaves out.
pub open spec fn winning(strategy: Strategy, p: Prefix, m: Matrix) -> bool {
    forall|universal: Seq<i32>, a: Assignment|
        #![trigger covers(universal, p), matrix_true(a, m)]
        covers(universal, p) && follows(a, universal) && agrees(a, strategy.values(universal, Map::empty()))
            ==> matrix_true(a, m)
}

/// The values of a map by DIMACS numbers, by variable.
pub open spec fn by_var(numbers: Map<i32, bool>) -> Map<Var, bool> {
    Map::new(
        |x: Var| x.dimacs() <= i32::MAX && numbers.contains_key(x.dimacs() as i32),
        |x: Var| numbers[x.dimacs() as i32],
    )
}

/// The values under numbers of no variable.
pub open spec fn by_no_var(numbers: Map<i32, bool>) -> Map<i32, bool> {
    Map::new(|n: i32| n <= 0 && numbers.contains_key(n), |n: i32| numbers[n])
}

proof fn lemma_by_var_insert(numbers: Map<i32, bool>, var: Var, number: i32, value: bool)
    requires
        number == var.dimacs(),
    ensures
        by_var(numbers.insert(number, value)) == by_var(numbers).insert(var, value),
        by_no_var(numbers.insert(number, value)) == by_no_var(numbers),
{
    assert(var.dimacs() > 0);
    assert(by_no_var(numbers.insert(number, value)) =~= by_no_var(numbers));
    let left = by_var(numbers.insert(number, value));
    let right = by_var(numbers).insert(var, value);
    assert forall|x: Var| left.contains_key(x) == right.contains_key(x) by {
        if x.dimacs() == number {
            lemma_var_ext(x, var);
        }
    }
    assert forall|x: Var| left.contains_key(x) implies left[x] == right[x] by {
        if x.dimacs() == number {
            lemma_var_ext(x, var);
        }
    }
    assert(left =~= right);
}

proof fn lemma_by_var_remove(numbers: Map<i32, bool>, var: Var, number: i32)
    requires
        number == var.dimacs(),
    ensures
        by_var(numbers.remove(number)) == by_var(numbers).remove(var),
        by_no_var(numbers.remove(number)) == by_no_var(numbers),
{
    assert(var.dimacs() > 0);
    assert(by_no_var(numbers.remove(number)) =~= by_no_var(numbers));
    let left = by_var(numbers.remove(number));
    let right = by_var(numbers).remove(var);
    assert forall|x: Var| left.contains_key(x) == right.contains_key(x) by {
        if x.dimacs() == number {
            lemma_var_ext(x, var);
        }
    }
    assert(left =~= right);
}

/// Whether the universal player plays the literal with the given number.
fn is_played(universal: &[i32], number: i32) -> (found: bool)
    ensures
        found == played(universal@, number as int),
{
    let mut k: usize = 0;
    while k < universal.len()
        invariant
            k <= universal@.len(),
            forall|i: int| 0 <= i < k ==> #[trigger] universal@[i] != number,
        decreases universal.len() - k,
    {
        if universal[k] == number {
            assert(universal@[k as int] == number);
            return true;
        }
        k += 1;
    }
    false
}

fn commit_numbers(values: &mut HashMap<i32, bool>, lits: &Vec<Lit>)
    ensures
        by_var(final(values)@) == commit(by_var(old(values)@), lits@),
        by_no_var(final(values)@) == by_no_var(old(values)@),
{
    let ghost before = by_var(values@);
    let mut k: usize = 0;
    assert(lits@.take(0) =~= Seq::<Lit>::empty());
    while k < lits.len()
        invariant
            k <= lits@.len(),
            by_var(values@) == commit(before, lits@.take(k as int)),
            by_no_var(values@) == by_no_var(old(values)@),
        decreases lits.len() - k,
    {
        let lit = lits[k];
        let var = lit.var();
        let number = var.to_dimacs();
        proof {
            let next = lits@.take(k as int + 1);
            assert(next.drop_last() =~= lits@.take(k as int));
            assert(next.last() == lit);
            lemma_by_var_insert(values@, var, number, lit.pos());
        }
        values.insert(number, lit.is_positive());
        k += 1;
    }
    assert(lits@.take(lits@.len() as int) =~= lits@);
}

/// The value of a variable, if it has one.
fn value_of(values: &HashMap<i32, bool>, var: Var) -> (value: Option<bool>)
    ensures
        value == (if by_var(values@).contains_key(var) {
            Some(by_var(values@)[var])
        } else {
            None
        }),
{
    match values.get(&var.to_dimacs()) {
        Some(value) => Some(*value),
        None => None,
    }
}

fn is_cube_known(universal: &[i32], values: &HashMap<i32, bool>, cube: &Vec<Lit>) -> (known: bool)
    ensures
        known == cube_known(universal@, by_var(values@), cube@),
{
    let mut k: usize = 0;
    while k < cube.len()
        invariant
            k <= cube@.len(),
            forall|i: int|
                0 <= i < k ==> played(universal@, (#[trigger] cube@[i]).dimacs()) || (by_var(values@).contains_key(
                    cube@[i].v(),
                ) && by_var(values@)[cube@[i].v()] == cube@[i].pos()),
        decreases cube.len() - k,
    {
        let lit = cube[k];
        if !is_played(universal, lit.to_dimacs()) {
            match value_of(values, lit.var()) {
                Some(value) => {
                    if value != lit.is_positive() {
                        return false;
                    }
                },
                None => {
                    return false;
                },
            }
        }
        k += 1;
    }
    true
}

fn is_cube_played(universal: &[i32], cube: &Vec<Lit>) -> (known: bool)
    ensures
        known == cube_played(universal@, cube@),
{
    let mut k: usize = 0;
    while k < cube.len()
        invariant
            k <= cube@.len(),
            forall|i: int| 0 <= i < k ==> played(universal@, (#[trigger] cube@[i]).dimacs()),
        decreases cube.len() - k,
    {
        if !is_played(universal, cube[k].to_dimacs()) {
            return false;
        }
        k += 1;
    }
    true
}

/// The values a leaf prescribes, added to the values so far.
fn play_leaf(model: &SkolemModel, universal: &[i32], values: &mut HashMap<i32, bool>)
    ensures
        by_var(final(values)@) == leaf_values(*model, universal@, by_var(old(values)@)),
        by_no_var(final(values)@) == by_no_var(old(values)@),
{
    let mut point: VarMap<bool> = VarMap::new();
    let mut k: usize = 0;
    while k < model.universals.len()
        invariant
            k <= model.universals@.len(),
            forall|x: Var| #[trigger] point@.contains_key(x) <==> model.universals@.take(k as int).contains(x),
            forall|x: Var| #[trigger] point@.contains_key(x) ==> point@[x] == played(universal@, x.dimacs()),
        decreases model.universals.len() - k,
    {
        let var = model.universals[k];
        let ghost part = model.universals@.take(k as int);
        assert(model.universals@.take(k as int + 1) =~= part.push(var));
        point.insert(var, is_played(universal, var.to_dimacs()));
        proof {
            assert forall|x: Var| #[trigger] point@.contains_key(x) <==> model.universals@.take(k as int + 1).contains(x) by {
                crate::datastructure::lemma_push_contains(part, var, x);
            }
        }
        k += 1;
    }
    assert(model.universals@.take(model.universals@.len() as int) =~= model.universals@);
    assert(point@ =~= leaf_point(model.universals@, universal@));
    let played_values = model.values_at(&point);
    let universals = crate::datastructure::VarSet::from_vars(&model.universals);
    let keys = played_values.keys();
    let ghost before = by_var(values@);
    let ghost us = model.universals@;
    let mut k: usize = 0;
    while k < keys.len()
        invariant
            k <= keys@.len(),
            us == model.universals@,
            by_no_var(values@) == by_no_var(old(values)@),
            forall|x: Var| #[trigger] universals@.contains(x) <==> us.contains(x),
            forall|i: int| 0 <= i < keys@.len() ==> played_values@.contains_key(#[trigger] keys@[i]),
            forall|x: Var| #[trigger]
                by_var(values@).contains_key(x) <==> before.contains_key(x) || (keys@.take(k as int).contains(x)
                    && !us.contains(x)),
            forall|x: Var|
                keys@.take(k as int).contains(x) && !us.contains(x) ==> #[trigger] by_var(values@)[x] == played_values@[x],
            forall|x: Var|
                !(keys@.take(k as int).contains(x) && !us.contains(x)) && before.contains_key(x)
                    ==> #[trigger] by_var(values@)[x] == before[x],
        decreases keys.len() - k,
    {
        let var = keys[k];
        let ghost part = keys@.take(k as int);
        let ghost old_values = by_var(values@);
        proof {
            assert(keys@.take(k as int + 1) =~= part.push(var));
            assert forall|x: Var| #[trigger] keys@.take(k as int + 1).contains(x) <==> part.contains(x) || x == var by {
                crate::datastructure::lemma_push_contains(part, var, x);
            }
        }
        if !universals.contains(var) {
            if let Some(value) = played_values.get(var) {
                let number = var.to_dimacs();
                proof {
                    lemma_by_var_insert(values@, var, number, value);
                }
                values.insert(number, value);
                assert(by_var(values@) == old_values.insert(var, value));
            }
        }
        k += 1;
    }
    proof {
        assert(keys@.take(keys@.len() as int) =~= keys@);
        let target = leaf_values(*model, universal@, before);
        assert forall|x: Var| by_var(values@).contains_key(x) == target.contains_key(x) by {
            assert(played_values@.contains_key(x) <==> keys@.contains(x));
        }
        assert forall|x: Var| by_var(values@).contains_key(x) implies by_var(values@)[x] == target[x] by {
            assert(played_values@.contains_key(x) <==> keys@.contains(x));
        }
        assert(by_var(values@) =~= target);
    }
}

impl Strategy {
    /// Collects the existential values this strategy prescribes under a
    /// full universal assignment (DIMACS literals), on top of the values
    /// so far. Values under other numbers stay as they are.
    pub fn evaluate(&self, universal: &[i32], values: &mut HashMap<i32, bool>)
        ensures
            by_var(final(values)@) == self.values(universal@, by_var(old(values)@)),
            by_no_var(final(values)@) == by_no_var(old(values)@),
        decreases self,
    {
        match self {
            Strategy::Done => {},
            Strategy::Fixed { assignments, rest } => {
                commit_numbers(values, assignments);
                rest.evaluate(universal, values);
            },
            Strategy::Choose { constants, rest } => {
                commit_numbers(values, constants);
                rest.evaluate(universal, values);
            },
            Strategy::Split { cases } => {
                let ghost before = by_var(values@);
                let mut k: usize = 0;
                while k < cases.len() && !is_cube_known(universal, values, &cases[k].0)
                    invariant
                        k <= cases@.len(),
                        by_var(values@) == before,
                        by_no_var(values@) == by_no_var(old(values)@),
                        first_case(cases@, 0, universal@, before) == first_case(cases@, k as int, universal@, before),
                    decreases cases.len() - k,
                {
                    k += 1;
                }
                if k < cases.len() {
                    assert(first_case(cases@, 0, universal@, before) == k);
                    cases[k].1.evaluate(universal, values);
                }
            },
            Strategy::Expanded { copies, rest } => {
                rest.evaluate(universal, values);
                let ghost inner = by_var(values@);
                let mut k: usize = 0;
                while k < copies.len() && !is_cube_played(universal, &copies[k].0)
                    invariant
                        k <= copies@.len(),
                        by_no_var(values@) == by_no_var(old(values)@),
                        first_copy(copies@, 0, universal@) == first_copy(copies@, k as int, universal@),
                    decreases copies.len() - k,
                {
                    k += 1;
                }
                if k < copies.len() {
                    assert(first_copy(copies@, 0, universal@) == k);
                    let rename = &copies[k].1;
                    // the copies are read before the originals are written
                    let mut taken: Vec<Option<bool>> = Vec::new();
                    let mut i: usize = 0;
                    while i < rename.len()
                        invariant
                            i <= rename@.len(),
                            taken@.len() == i,
                            by_no_var(values@) == by_no_var(old(values)@),
                            inner == by_var(values@),
                            forall|j: int|
                                0 <= j < i ==> #[trigger] taken@[j] == (if inner.contains_key(rename@[j].1) {
                                    Some(inner[rename@[j].1])
                                } else {
                                    None
                                }),
                        decreases rename.len() - i,
                    {
                        taken.push(value_of(values, rename[i].1));
                        i += 1;
                    }
                    let mut i: usize = 0;
                    assert(rename@.take(0) =~= Seq::<(Var, Var)>::empty());
                    while i < rename.len()
                        invariant
                            i <= rename@.len(),
                            taken@.len() == rename@.len(),
                            by_var(values@) == take_copies(inner, rename@.take(i as int)),
                            by_no_var(values@) == by_no_var(old(values)@),
                            forall|j: int|
                                0 <= j < rename@.len() ==> #[trigger] taken@[j] == (if inner.contains_key(rename@[j].1) {
                                    Some(inner[rename@[j].1])
                                } else {
                                    None
                                }),
                        decreases rename.len() - i,
                    {
                        proof {
                            let next = rename@.take(i as int + 1);
                            assert(next.drop_last() =~= rename@.take(i as int));
                            assert(next.last() == rename@[i as int]);
                        }
                        if let Some(value) = taken[i] {
                            let original = rename[i].0;
                            let number = original.to_dimacs();
                            proof {
                                lemma_by_var_insert(values@, original, number, value);
                            }
                            values.insert(number, value);
                        }
                        i += 1;
                    }
                    assert(rename@.take(rename@.len() as int) =~= rename@);
                }
                let ghost taken_values = by_var(values@);
                let mut k: usize = 0;
                assert(copies@.take(0) =~= Seq::<(Vec<Lit>, Vec<(Var, Var)>)>::empty());
                while k < copies.len()
                    invariant
                        k <= copies@.len(),
                        by_var(values@) == drop_copies(taken_values, copies@.take(k as int)),
                        by_no_var(values@) == by_no_var(old(values)@),
                    decreases copies.len() - k,
                {
                    let rename = &copies[k].1;
                    let ghost outer = by_var(values@);
                    let mut i: usize = 0;
                    assert(rename@.take(0) =~= Seq::<(Var, Var)>::empty());
                    while i < rename.len()
                        invariant
                            i <= rename@.len(),
                            by_var(values@) == drop_renamed(outer, rename@.take(i as int)),
                            by_no_var(values@) == by_no_var(old(values)@),
                        decreases rename.len() - i,
                    {
                        let copy = rename[i].1;
                        let number = copy.to_dimacs();
                        proof {
                            let next = rename@.take(i as int + 1);
                            assert(next.drop_last() =~= rename@.take(i as int));
                            assert(next.last() == rename@[i as int]);
                            lemma_by_var_remove(values@, copy, number);
                        }
                        values.remove(&number);
                        i += 1;
                    }
                    proof {
                        assert(rename@.take(rename@.len() as int) =~= rename@);
                        let next = copies@.take(k as int + 1);
                        assert(next.drop_last() =~= copies@.take(k as int));
                        assert(next.last() == copies@[k as int]);
                    }
                    k += 1;
                }
                assert(copies@.take(copies@.len() as int) =~= copies@);
            },
            Strategy::Leaf(model) => {
                play_leaf(model, universal, values);
            },
        }
    }
}

/// Whether two handles refer to the same node, by `Rc::ptr_eq`: handles
/// to the same allocation hold the same value.
#[verifier::external_body]
fn same_node(left: &Rc<Strategy>, right: &Rc<Strategy>) -> (same: bool)
    ensures
        same ==> *left == *right,
{
    Rc::ptr_eq(left, right)
}

/// The number of literals and renamed variables of the copies.
pub open spec fn copies_size(copies: Seq<(Vec<Lit>, Vec<(Var, Var)>)>) -> nat
    decreases copies.len(),
{
    if copies.len() == 0 {
        0
    } else {
        copies_size(copies.drop_last()) + copies.last().0@.len() + copies.last().1@.len()
    }
}

/// The number of literals of the cubes.
pub open spec fn cubes_size(cases: Seq<(Vec<Lit>, Rc<Strategy>)>) -> nat
    decreases cases.len(),
{
    if cases.len() == 0 {
        0
    } else {
        cubes_size(cases.drop_last()) + cases.last().0@.len()
    }
}

impl Strategy {
    /// The weight of the node itself, without the strategies below it.
    pub open spec fn own_size(self) -> nat {
        match self {
            Strategy::Done => 1,
            Strategy::Fixed { assignments, rest } => assignments@.len(),
            Strategy::Choose { constants, rest } => constants@.len(),
            Strategy::Split { cases } => 1 + cubes_size(cases@),
            Strategy::Expanded { copies, rest } => copies_size(copies@),
            Strategy::Leaf(model) => model.spec_size(),
        }
    }

    /// The weight of the node and of all nodes below it, each counted as
    /// often as it occurs.
    pub open spec fn tree_size(self) -> nat
        decreases self, 0nat,
    {
        self.own_size() + match self {
            Strategy::Done => 0,
            Strategy::Fixed { assignments, rest } => rest.tree_size(),
            Strategy::Choose { constants, rest } => rest.tree_size(),
            Strategy::Split { cases } => Strategy::cases_size(cases, cases@.len()),
            Strategy::Expanded { copies, rest } => rest.tree_size(),
            Strategy::Leaf(model) => 0,
        }
    }

    /// The weight of the first cases.
    pub open spec fn cases_size(cases: Vec<(Vec<Lit>, Rc<Strategy>)>, n: nat) -> nat
        decreases cases, n,
    {
        if n == 0 || n > cases@.len() {
            0
        } else {
            Strategy::cases_size(cases, (n - 1) as nat) + cases@[n - 1].1.tree_size()
        }
    }

    /// The weight of the first node below.
    pub open spec fn next_size(self) -> nat {
        match self {
            Strategy::Done => 0,
            Strategy::Fixed { assignments, rest } => rest.own_size(),
            Strategy::Choose { constants, rest } => rest.own_size(),
            Strategy::Split { cases } => if cases@.len() > 0 {
                cases@[0].1.own_size()
            } else {
                0
            },
            Strategy::Expanded { copies, rest } => rest.own_size(),
            Strategy::Leaf(model) => 0,
        }
    }

    /// A rough node count, capped at the largest number: the weights of
    /// the distinct nodes, each counted once however often it is shared.
    /// Which handles share a node is a matter of memory. So the count is at
    /// most what the nodes weigh when each is counted as often as it
    /// occurs, and at least what the node and the first one below it weigh.
    pub fn size(&self) -> (size: usize)
        ensures
            size <= capped(self.tree_size()),
            size >= self.own_size() + self.next_size() || size == usize::MAX,
    {
        let mut seen: Vec<Rc<Strategy>> = Vec::new();
        self.size_into(&mut seen)
    }

    #[verifier::loop_isolation(false)]
    fn size_into(&self, seen: &mut Vec<Rc<Strategy>>) -> (size: usize)
        ensures
            size <= capped(self.tree_size()),
            size >= self.own_size() || size == usize::MAX,
            old(seen)@.len() == 0 ==> size >= self.own_size() + self.next_size() || size == usize::MAX,
        decreases self, 0nat,
    {
        let ghost fresh = seen@.len() == 0;
        match self {
            Strategy::Done => 1,
            Strategy::Fixed { assignments, rest } => assignments.len().saturating_add(Strategy::sub_size(rest, seen)),
            Strategy::Choose { constants, rest } => constants.len().saturating_add(Strategy::sub_size(rest, seen)),
            Strategy::Split { cases } => {
                let mut size: usize = 1;
                let mut k: usize = 0;
                assert(cases@.take(0) =~= Seq::<(Vec<Lit>, Rc<Strategy>)>::empty());
                while k < cases.len()
                    invariant
                        k <= cases@.len(),
                        *self == (Strategy::Split { cases: *cases }),
                        k == 0 ==> seen@.len() == 0 || !fresh,
                        size <= capped(1 + cubes_size(cases@.take(k as int)) + Strategy::cases_size(*cases, k as nat)),
                        size >= 1 + cubes_size(cases@.take(k as int)) || size == usize::MAX,
                        fresh && k > 0 ==> size >= 1 + cubes_size(cases@.take(k as int)) + cases@[0].1.own_size() || size == usize::MAX,
                    decreases cases.len() - k,
                {
                    proof {
                        let next = cases@.take(k as int + 1);
                        assert(next.drop_last() =~= cases@.take(k as int));
                        assert(next.last() == cases@[k as int]);
                    }
                    let sub = Strategy::sub_size(&cases[k].1, seen);
                    size = size.saturating_add(cases[k].0.len()).saturating_add(sub);
                    k += 1;
                }
                assert(cases@.take(cases@.len() as int) =~= cases@);
                size
            },
            Strategy::Expanded { copies, rest } => {
                let mut size = Strategy::sub_size(rest, seen);
                let ghost below = size as nat;
                let mut k: usize = 0;
                assert(copies@.take(0) =~= Seq::<(Vec<Lit>, Vec<(Var, Var)>)>::empty());
                while k < copies.len()
                    invariant
                        k <= copies@.len(),
                        size == capped(below + copies_size(copies@.take(k as int))),
                    decreases copies.len() - k,
                {
                    proof {
                        let next = copies@.take(k as int + 1);
                        assert(next.drop_last() =~= copies@.take(k as int));
                        assert(next.last() == copies@[k as int]);
                    }
                    size = size.saturating_add(copies[k].0.len()).saturating_add(copies[k].1.len());
                    k += 1;
                }
                assert(copies@.take(copies@.len() as int) =~= copies@);
                size
            },
            Strategy::Leaf(model) => model.size(),
        }
    }

    /// The size of a node below, or nothing if it was counted before.
    fn sub_size(child: &Rc<Strategy>, seen: &mut Vec<Rc<Strategy>>) -> (size: usize)
        ensures
            size <= capped(child.tree_size()),
            size >= child.own_size() || size == usize::MAX || (size == 0 && exists|i: int|
                0 <= i < old(seen)@.len() && *(#[trigger] old(seen)@[i]) == **child),
        decreases **child, 1nat,
    {
        let mut k: usize = 0;
        while k < seen.len()
            invariant
                k <= seen@.len(),
                seen@ == old(seen)@,
            decreases seen.len() - k,
        {
            if same_node(&seen[k], child) {
                assert(*old(seen)@[k as int] == **child);
                return 0;
            }
            k += 1;
        }
        seen.push(crate::shared::share(child));
        child.size_into(seen)
    }
}

} // verus!
