//! Tables indexed by variables and literals.
//!
//! The tables grow on demand: an entry that was never written reads as
//! absent.
use crate::literal::{lemma_var_ext, Lit, Var};
use vstd::prelude::*;

pub mod heap;

verus! {

broadcast use crate::literal::group_literal;

/// A set of variables.
#[derive(Debug)]
pub struct VarSet {
    bits: Vec<bool>,
}

impl View for VarSet {
    type V = Set<Var>;

    closed spec fn view(&self) -> Set<Var> {
        Set::new(|x: Var| x.id() < self.bits@.len() && self.bits@[x.id()])
    }
}

impl VarSet {
    /// The empty set.
    pub fn new() -> (set: VarSet)
        ensures
            set@ == Set::<Var>::empty(),
    {
        let set = VarSet { bits: Vec::new() };
        assert(set@ =~= Set::<Var>::empty());
        set
    }

    /// The variables of the list.
    pub fn from_vars(vars: &Vec<Var>) -> (set: VarSet)
        ensures
            forall|x: Var| #[trigger] set@.contains(x) <==> vars@.contains(x),
    {
        let mut set = VarSet::new();
        let mut k: usize = 0;
        while k < vars.len()
            invariant
                k <= vars.len(),
                forall|x: Var| #[trigger] set@.contains(x) <==> vars@.take(k as int).contains(x),
            decreases vars.len() - k,
        {
            let var = vars[k];
            let ghost before = set@;
            set.insert(var);
            proof {
                assert(vars@.take(k as int + 1) =~= vars@.take(k as int).push(var));
                assert forall|x: Var| #[trigger] set@.contains(x) <==> vars@.take(k as int + 1).contains(x) by {
                    lemma_push_contains(vars@.take(k as int), var, x);
                    assert(set@.contains(x) <==> before.contains(x) || x == var);
                }
            }
            k += 1;
        }
        assert(vars@.take(vars@.len() as int) =~= vars@);
        set
    }

    /// Whether the variable is in the set.
    pub fn contains(&self, var: Var) -> (found: bool)
        ensures
            found == self@.contains(var),
    {
        let index = var.as_index();
        index < self.bits.len() && self.bits[index]
    }

    /// Adds a variable; tells whether it is new.
    pub fn insert(&mut self, var: Var) -> (fresh: bool)
        ensures
            final(self)@ == old(self)@.insert(var),
            fresh == !old(self)@.contains(var),
    {
        let index = var.as_index();
        let ghost before = self.bits@;
        let fresh = !self.contains(var);
        while self.bits.len() <= index
            invariant
                self.bits@.len() >= before.len(),
                forall|i: int| 0 <= i < before.len() ==> self.bits@[i] == before[i],
                forall|i: int| before.len() <= i < self.bits@.len() ==> !self.bits@[i],
            decreases index + 1 - self.bits.len(),
        {
            self.bits.push(false);
        }
        self.bits.set(index, true);
        proof {
            assert forall|x: Var| self@.contains(x) == old(self)@.insert(var).contains(x) by {
                if x.id() == index {
                    lemma_var_ext(x, var);
                }
            }
            assert(self@ =~= old(self)@.insert(var));
        }
        fresh
    }

    /// Removes a variable.
    pub fn remove(&mut self, var: Var)
        ensures
            final(self)@ == old(self)@.remove(var),
    {
        let index = var.as_index();
        if index < self.bits.len() {
            self.bits.set(index, false);
        }
        proof {
            assert forall|x: Var| self@.contains(x) == old(self)@.remove(var).contains(x) by {
                if x.id() == index {
                    lemma_var_ext(x, var);
                }
            }
            assert(self@ =~= old(self)@.remove(var));
        }
    }
}

/// A set of literals.
#[derive(Debug)]
pub struct LitSet {
    bits: Vec<bool>,
}

impl View for LitSet {
    type V = Set<Lit>;

    closed spec fn view(&self) -> Set<Lit> {
        Set::new(|l: Lit| l.id() < self.bits@.len() && self.bits@[l.id()])
    }
}

pub proof fn lemma_lit_id_ext(l: Lit, m: Lit)
    requires
        l.id() == m.id(),
    ensures
        l == m,
{
    crate::literal::lemma_lit_id(l);
    crate::literal::lemma_lit_id(m);
    lemma_var_ext(l.v(), m.v());
    crate::literal::lemma_lit_ext(l, m);
}

impl LitSet {
    /// The empty set.
    pub fn new() -> (set: LitSet)
        ensures
            set@ == Set::<Lit>::empty(),
    {
        let set = LitSet { bits: Vec::new() };
        assert(set@ =~= Set::<Lit>::empty());
        set
    }

    /// The literals of the list.
    pub fn from_lits(lits: &Vec<Lit>) -> (set: LitSet)
        ensures
            forall|l: Lit| #[trigger] set@.contains(l) <==> lits@.contains(l),
    {
        let mut set = LitSet::new();
        let mut k: usize = 0;
        while k < lits.len()
            invariant
                k <= lits.len(),
                forall|l: Lit| #[trigger] set@.contains(l) <==> lits@.take(k as int).contains(l),
            decreases lits.len() - k,
        {
            let lit = lits[k];
            let ghost before = set@;
            set.insert(lit);
            proof {
                assert(lits@.take(k as int + 1) =~= lits@.take(k as int).push(lit));
                assert forall|l: Lit| #[trigger] set@.contains(l) <==> lits@.take(k as int + 1).contains(l) by {
                    lemma_push_contains(lits@.take(k as int), lit, l);
                    assert(set@.contains(l) <==> before.contains(l) || l == lit);
                }
            }
            k += 1;
        }
        assert(lits@.take(lits@.len() as int) =~= lits@);
        set
    }

    /// Whether the literal is in the set.
    pub fn contains(&self, lit: Lit) -> (found: bool)
        ensures
            found == self@.contains(lit),
    {
        let index = lit.as_index();
        index < self.bits.len() && self.bits[index]
    }

    /// Adds a literal; tells whether it is new.
    pub fn insert(&mut self, lit: Lit) -> (fresh: bool)
        ensures
            final(self)@ == old(self)@.insert(lit),
            fresh == !old(self)@.contains(lit),
    {
        let index = lit.as_index();
        let ghost before = self.bits@;
        let fresh = !self.contains(lit);
        while self.bits.len() <= index
            invariant
                self.bits@.len() >= before.len(),
                forall|i: int| 0 <= i < before.len() ==> self.bits@[i] == before[i],
                forall|i: int| before.len() <= i < self.bits@.len() ==> !self.bits@[i],
            decreases index + 1 - self.bits.len(),
        {
            self.bits.push(false);
        }
        self.bits.set(index, true);
        proof {
            assert forall|x: Lit| self@.contains(x) == old(self)@.insert(lit).contains(x) by {
                if x.id() == index {
                    lemma_lit_id_ext(x, lit);
                }
            }
            assert(self@ =~= old(self)@.insert(lit));
        }
        fresh
    }

    /// Removes a literal.
    pub fn remove(&mut self, lit: Lit)
        ensures
            final(self)@ == old(self)@.remove(lit),
    {
        let index = lit.as_index();
        if index < self.bits.len() {
            self.bits.set(index, false);
        }
        proof {
            assert forall|x: Lit| self@.contains(x) == old(self)@.remove(lit).contains(x) by {
                if x.id() == index {
                    lemma_lit_id_ext(x, lit);
                }
            }
            assert(self@ =~= old(self)@.remove(lit));
        }
    }
}

/// A map from variables to small values.
#[derive(Debug)]
pub struct VarMap<T> {
    slots: Vec<Option<T>>,
}

impl<T> View for VarMap<T> {
    type V = Map<Var, T>;

    closed spec fn view(&self) -> Map<Var, T> {
        Map::new(
            |x: Var| x.id() <= crate::literal::MAX_INDEX && x.id() < self.slots@.len() && self.slots@[x.id()] is Some,
            |x: Var| self.slots@[x.id()]->0,
        )
    }
}

impl<T: Copy> VarMap<T> {
    /// The empty map.
    pub fn new() -> (map: VarMap<T>)
        ensures
            map@ == Map::<Var, T>::empty(),
    {
        let map: VarMap<T> = VarMap { slots: Vec::new() };
        assert(map@ =~= Map::<Var, T>::empty());
        map
    }

    /// The value of the variable, if it has one.
    pub fn get(&self, var: Var) -> (value: Option<T>)
        ensures
            value == (if self@.contains_key(var) { Some(self@[var]) } else { None }),
    {
        let index = var.as_index();
        if index < self.slots.len() {
            self.slots[index]
        } else {
            None
        }
    }

    /// Whether the variable has a value.
    pub fn contains_key(&self, var: Var) -> (found: bool)
        ensures
            found == self@.contains_key(var),
    {
        self.get(var).is_some()
    }

    /// Sets the value of a variable.
    pub fn insert(&mut self, var: Var, value: T)
        ensures
            final(self)@ == old(self)@.insert(var, value),
    {
        let index = var.as_index();
        let ghost before = self.slots@;
        while self.slots.len() <= index
            invariant
                index <= crate::literal::MAX_INDEX,
                self.slots@.len() >= before.len(),
                forall|i: int| 0 <= i < before.len() ==> self.slots@[i] == before[i],
                forall|i: int| before.len() <= i < self.slots@.len() ==> self.slots@[i] is None,
            decreases index + 1 - self.slots.len(),
        {
            self.slots.push(None);
        }
        self.slots.set(index, Some(value));
        proof {
            assert forall|x: Var| self@.contains_key(x) == old(self)@.insert(var, value).contains_key(x) by {
                if x.id() == index {
                    lemma_var_ext(x, var);
                }
            }
            assert forall|x: Var| self@.contains_key(x) implies self@[x] == old(self)@.insert(var, value)[x] by {
                if x.id() == index {
                    lemma_var_ext(x, var);
                }
            }
            assert(self@ =~= old(self)@.insert(var, value));
        }
    }

    /// Forgets the value of a variable.
    pub fn remove(&mut self, var: Var)
        ensures
            final(self)@ == old(self)@.remove(var),
    {
        let index = var.as_index();
        if index < self.slots.len() {
            self.slots.set(index, None);
        }
        proof {
            assert forall|x: Var| self@.contains_key(x) == old(self)@.remove(var).contains_key(x) by {
                if x.id() == index {
                    lemma_var_ext(x, var);
                }
            }
            assert(self@ =~= old(self)@.remove(var));
        }
    }

    /// A copy of the map.
    pub fn duplicate(&self) -> (copy: VarMap<T>)
        ensures
            copy@ == self@,
    {
        let mut slots: Vec<Option<T>> = Vec::new();
        let mut k: usize = 0;
        while k < self.slots.len()
            invariant
                k <= self.slots.len(),
                slots@ =~= self.slots@.take(k as int),
            decreases self.slots.len() - k,
        {
            slots.push(self.slots[k]);
            k += 1;
        }
        let copy = VarMap { slots };
        assert(copy.slots@ =~= self.slots@);
        copy
    }

    /// The variables that have a value, by increasing index.
    pub fn keys(&self) -> (vars: Vec<Var>)
        ensures
            vars@.no_duplicates(),
            forall|x: Var| #[trigger] self@.contains_key(x) <==> vars@.contains(x),
            forall|i: int| 0 <= i < vars@.len() ==> self@.contains_key(#[trigger] vars@[i]),
            forall|i: int, j: int| 0 <= i < j < vars@.len() ==> (#[trigger] vars@[i]).id() < (#[trigger] vars@[j]).id(),
    {
        let mut vars: Vec<Var> = Vec::new();
        let mut k: usize = 0;
        while k < self.slots.len() && k <= crate::literal::MAX_INDEX as usize
            invariant
                k <= self.slots.len(),
                k <= crate::literal::MAX_INDEX + 1,
                forall|x: Var| #[trigger] self@.contains_key(x) && x.id() < k ==> vars@.contains(x),
                forall|i: int| 0 <= i < vars@.len() ==> self@.contains_key(#[trigger] vars@[i]) && vars@[i].id() < k,
                forall|i: int, j: int| 0 <= i < j < vars@.len() ==> (#[trigger] vars@[i]).id() < (#[trigger] vars@[j]).id(),
            decreases self.slots.len() - k,
        {
            if self.slots[k].is_some() {
                let ghost before = vars@;
                let var = Var::from_index(k as u32);
                vars.push(var);
                proof {
                    assert(vars@[before.len() as int] == var);
                    assert forall|x: Var| #[trigger] self@.contains_key(x) && x.id() < k + 1 implies vars@.contains(x) by {
                        if x.id() == k {
                            lemma_var_ext(x, var);
                        } else {
                            let i = choose|i: int| 0 <= i < before.len() && before[i] == x;
                            assert(vars@[i] == x);
                        }
                    }
                }
            }
            k += 1;
        }
        vars
    }
}

/// A list of values for every index; a list that was never written is
/// empty.
#[derive(Debug)]
pub struct Rows<T> {
    rows: Vec<Vec<T>>,
}

impl<T: Copy> Rows<T> {
    /// The list of an index.
    pub closed spec fn row(&self, index: int) -> Seq<T> {
        if 0 <= index < self.rows@.len() {
            self.rows@[index]@
        } else {
            Seq::empty()
        }
    }

    /// The lists from this index on are empty.
    pub closed spec fn width(&self) -> nat {
        self.rows@.len()
    }

    /// Empty lists.
    pub fn new() -> (rows: Rows<T>)
        ensures
            forall|index: int| #[trigger] rows.row(index) == Seq::<T>::empty(),
    {
        Rows { rows: Vec::new() }
    }

    /// The length of the list of an index.
    pub fn count(&self, index: usize) -> (count: usize)
        ensures
            count == self.row(index as int).len(),
    {
        if index < self.rows.len() {
            self.rows[index].len()
        } else {
            0
        }
    }

    /// A value of the list of an index.
    pub fn at(&self, index: usize, position: usize) -> (value: T)
        requires
            position < self.row(index as int).len(),
        ensures
            value == self.row(index as int)[position as int],
    {
        self.rows[index][position]
    }

    /// A copy of the list of an index.
    pub fn copy(&self, index: usize) -> (row: Vec<T>)
        ensures
            row@ == self.row(index as int),
    {
        let mut row: Vec<T> = Vec::new();
        let mut k: usize = 0;
        while k < self.count(index)
            invariant
                k <= self.row(index as int).len(),
                row@ =~= self.row(index as int).take(k as int),
            decreases self.row(index as int).len() - k,
        {
            row.push(self.at(index, k));
            k += 1;
        }
        assert(row@ =~= self.row(index as int));
        row
    }

    /// The number of lists up to the last one that was written.
    pub fn len(&self) -> (len: usize)
        ensures
            len == self.width(),
            forall|index: int| index >= len ==> #[trigger] self.row(index) == Seq::<T>::empty(),
    {
        self.rows.len()
    }

    /// Makes room for the list of an index.
    fn reach(&mut self, index: usize)
        requires
            index < usize::MAX,
        ensures
            final(self).rows@.len() > index,
            forall|other: int| #[trigger] final(self).row(other) == old(self).row(other),
    {
        while self.rows.len() <= index
            invariant
                index < usize::MAX,
                forall|other: int| #[trigger] self.row(other) == old(self).row(other),
            decreases index + 1 - self.rows.len(),
        {
            let ghost before = *self;
            self.rows.push(Vec::new());
            assert forall|other: int| #[trigger] self.row(other) == old(self).row(other) by {
                assert(before.row(other) == old(self).row(other));
                if other == before.rows@.len() {
                    assert(self.row(other) =~= Seq::empty());
                }
            }
        }
    }

    /// Replaces the list of an index.
    pub fn set(&mut self, index: usize, row: Vec<T>)
        requires
            index < usize::MAX,
        ensures
            final(self).row(index as int) == row@,
            forall|other: int| other != index ==> #[trigger] final(self).row(other) == old(self).row(other),
    {
        self.reach(index);
        let ghost before = *self;
        self.rows.set(index, row);
        assert forall|other: int| other != index implies #[trigger] self.row(other) == old(self).row(other) by {
            assert(before.row(other) == old(self).row(other));
        }
    }

    /// Adds a value to the list of an index.
    pub fn push(&mut self, index: usize, value: T)
        requires
            index < usize::MAX,
        ensures
            final(self).row(index as int) == old(self).row(index as int).push(value),
            forall|other: int| other != index ==> #[trigger] final(self).row(other) == old(self).row(other),
    {
        self.reach(index);
        let ghost before = *self;
        assert(before.row(index as int) == old(self).row(index as int));
        self.rows[index].push(value);
        assert forall|other: int| other != index implies #[trigger] self.row(other) == old(self).row(other) by {
            assert(before.row(other) == old(self).row(other));
        }
    }
}

/// A list contains what it contained before a push, and the pushed item.
pub proof fn lemma_push_contains<T>(s: Seq<T>, t: T, x: T)
    ensures
        s.push(t).contains(x) <==> s.contains(x) || x == t,
{
    let u = s.push(t);
    if s.contains(x) {
        let i = choose|i: int| 0 <= i < s.len() && s[i] == x;
        assert(u[i] == x);
    }
    if x == t {
        assert(u[s.len() as int] == x);
    }
    if u.contains(x) {
        let i = choose|i: int| 0 <= i < u.len() && u[i] == x;
        if i < s.len() {
            assert(s[i] == x);
        }
    }
}

} // verus!
