//! A priority heap for variables.
use crate::literal::{lemma_var_ext, Var};
use vstd::prelude::*;

verus! {

broadcast use crate::literal::group_literal;

/// A binary max-heap of variables, ordered by a value per variable. A
/// variable keeps its value while it is outside the heap; a value that was
/// never written is zero.
#[derive(Debug)]
pub struct VarHeap {
    /// The value for each variable
    values: Vec<u64>,
    /// The binary max-heap containing the variables
    heap: Vec<Var>,
    /// The positions of the variables in the heap
    positions: Vec<Option<usize>>,
}

/// The position above a position.
spec fn above(i: int) -> int {
    (i - 1) / 2
}

impl VarHeap {
    /// The value of a variable.
    pub closed spec fn value(&self, x: Var) -> u64 {
        if x.id() < self.values@.len() {
            self.values@[x.id()]
        } else {
            0
        }
    }

    /// The variables in the heap.
    pub closed spec fn vars(&self) -> Set<Var> {
        Set::new(|x: Var| x.id() < self.positions@.len() && self.positions@[x.id()] is Some)
    }

    spec fn key(&self, i: int) -> u64 {
        self.value(self.heap@[i])
    }

    spec fn ordered_at(&self, i: int) -> bool {
        self.key(above(i)) >= self.key(i)
    }

    spec fn placed(&self) -> bool {
        &&& forall|i: int|
            #![trigger self.heap@[i]]
            0 <= i < self.heap@.len() ==> self.heap@[i].id() < self.positions@.len() && self.positions@[self.heap@[i].id()] == Some(
                i as usize,
            )
        &&& forall|v: int|
            #![trigger self.positions@[v]]
            0 <= v < self.positions@.len() && self.positions@[v] is Some ==> (self.positions@[v]->0) < self.heap@.len()
                && self.heap@[(self.positions@[v]->0) as int].id() == v
    }

    /// Every variable in the heap has its place, and none has a larger
    /// value than the one above it.
    pub closed spec fn wf(&self) -> bool {
        &&& self.placed()
        &&& forall|i: int| 0 < i < self.heap@.len() ==> #[trigger] self.ordered_at(i)
    }

    /// An empty heap.
    pub fn new() -> (heap: VarHeap)
        ensures
            heap.wf(),
            heap.vars() == Set::<Var>::empty(),
            forall|x: Var| #[trigger] heap.value(x) == 0,
    {
        let heap = VarHeap { values: Vec::new(), heap: Vec::new(), positions: Vec::new() };
        assert(heap.vars() =~= Set::<Var>::empty());
        heap
    }

    /// The first variable has the largest value.
    proof fn lemma_first(&self, i: int)
        requires
            self.wf(),
            0 <= i < self.heap@.len(),
        ensures
            self.key(0) >= self.key(i),
        decreases i,
    {
        if i > 0 {
            assert(self.ordered_at(i));
            self.lemma_first(above(i));
        }
    }

    /// A variable with the highest value.
    pub fn peek(&self) -> (var: Option<Var>)
        requires
            self.wf(),
        ensures
            match var {
                Some(var) => self.vars().contains(var) && forall|x: Var| #[trigger]
                    self.vars().contains(x) ==> self.value(x) <= self.value(var),
                None => self.vars() == Set::<Var>::empty(),
            },
    {
        if self.heap.len() == 0 {
            proof {
                assert forall|x: Var| !self.vars().contains(x) by {
                    if self.vars().contains(x) {
                        assert(self.positions@[x.id()] is Some);
                    }
                }
                assert(self.vars() =~= Set::<Var>::empty());
            }
            None
        } else {
            let var = self.heap[0];
            proof {
                assert(self.heap@[0] == var);
                assert forall|x: Var| #[trigger] self.vars().contains(x) implies self.value(x) <= self.value(var) by {
                    let p = self.positions@[x.id()]->0;
                    assert(self.heap@[p as int].id() == x.id());
                    lemma_var_ext(self.heap@[p as int], x);
                    self.lemma_first(p as int);
                }
            }
            Some(var)
        }
    }

    /// Removes and returns a variable with the highest value.
    pub fn pop(&mut self) -> (var: Option<Var>)
        requires
            old(self).wf(),
        ensures
            final(self).wf(),
            forall|x: Var| #[trigger] final(self).value(x) == old(self).value(x),
            match var {
                Some(var) => {
                    &&& old(self).vars().contains(var)
                    &&& forall|x: Var| #[trigger] old(self).vars().contains(x) ==> old(self).value(x) <= old(self).value(var)
                    &&& final(self).vars() == old(self).vars().remove(var)
                },
                None => old(self).vars() == Set::<Var>::empty() && final(self).vars() == old(self).vars(),
            },
    {
        match self.peek() {
            Some(var) => {
                self.remove(var);
                Some(var)
            },
            None => None,
        }
    }

    /// The value of a variable.
    pub fn get_value(&self, var: Var) -> (value: u64)
        ensures
            value == self.value(var),
    {
        let index = var.as_index();
        if index < self.values.len() {
            self.values[index]
        } else {
            0
        }
    }

    /// Whether the variable is in the heap.
    pub fn contained(&self, var: Var) -> (found: bool)
        ensures
            found == self.vars().contains(var),
    {
        let index = var.as_index();
        index < self.positions.len() && self.positions[index].is_some()
    }

    pub closed spec fn has_room(&self, count: usize) -> bool {
        self.values@.len() >= count && self.positions@.len() >= count
    }

    /// Makes room for the variables below a count.
    pub fn set_var_count(&mut self, count: usize)
        requires
            old(self).wf(),
        ensures
            final(self).wf(),
            final(self).has_room(count),
            final(self).vars() == old(self).vars(),
            forall|x: Var| #[trigger] final(self).value(x) == old(self).value(x),
    {
        let ghost before = *self;
        while self.values.len() < count
            invariant
                self.wf(),
                self.heap@ == before.heap@,
                self.vars() == before.vars(),
                forall|x: Var| #[trigger] self.value(x) == before.value(x),
            decreases count - self.values.len(),
        {
            let ghost last = *self;
            self.values.push(0);
            proof {
                assert forall|x: Var| #[trigger] self.value(x) == before.value(x) by {
                    assert(last.value(x) == before.value(x));
                }
                assert forall|i: int| 0 < i < self.heap@.len() implies #[trigger] self.ordered_at(i) by {
                    assert(last.ordered_at(i));
                    assert(last.value(self.heap@[i]) == self.value(self.heap@[i]));
                    assert(last.value(self.heap@[above(i)]) == self.value(self.heap@[above(i)]));
                }
                assert(self.vars() =~= last.vars());
            }
        }
        while self.positions.len() < count
            invariant
                self.wf(),
                self.vars() == before.vars(),
                forall|x: Var| #[trigger] self.value(x) == before.value(x),
                self.values@.len() >= count,
            decreases count - self.positions.len(),
        {
            let ghost last = *self;
            self.positions.push(None);
            proof {
                assert forall|i: int| 0 < i < self.heap@.len() implies #[trigger] self.ordered_at(i) by {
                    assert(last.ordered_at(i));
                }
                assert forall|x: Var| #[trigger] self.value(x) == before.value(x) by {
                    assert(last.value(x) == before.value(x));
                }
                assert(self.vars() =~= last.vars());
            }
        }
    }

    /// Sets the value of a variable.
    pub fn set_value(&mut self, var: Var, value: u64)
        requires
            old(self).wf(),
        ensures
            final(self).wf(),
            final(self).vars() == old(self).vars(),
            final(self).value(var) == value,
            forall|x: Var| x != var ==> #[trigger] final(self).value(x) == old(self).value(x),
    {
        let index = var.as_index();
        self.set_var_count(index + 1);
        let ghost before = *self;
        let len = self.heap.len();
        let original = self.values[index];
        self.values.set(index, value);
        proof {
            assert forall|x: Var| x != var implies #[trigger] self.value(x) == before.value(x) by {
                if x.id() == index {
                    lemma_var_ext(x, var);
                }
            }
            assert(self.vars() =~= before.vars());
        }
        match self.positions[index] {
            Some(pos) => {
                proof {
                    assert(self.heap@[pos as int].id() == index);
                    lemma_var_ext(self.heap@[pos as int], var);
                    assert forall|i: int| 0 <= i < self.heap@.len() && i != pos implies #[trigger] self.key(i) == before.key(i) by {
                        assert(self.heap@[i].id() != index);
                    }
                    assert forall|i: int| 0 < i < self.heap@.len() && i != pos && above(i) != pos implies #[trigger] self.ordered_at(i) by {
                        assert(before.ordered_at(i));
                        assert(self.key(i) == before.key(i));
                        assert(self.key(above(i)) == before.key(above(i)));
                    }
                    assert forall|c: int| 0 < c < self.heap@.len() && above(c) == pos && pos > 0 implies self.key(above(pos as int))
                        >= #[trigger] self.key(c) by {
                        assert(before.ordered_at(c));
                        assert(before.ordered_at(pos as int));
                        assert(self.key(c) == before.key(c));
                        assert(self.key(above(pos as int)) == before.key(above(pos as int)));
                    }
                    if value >= original {
                        assert forall|i: int| 0 < i < self.heap@.len() && i != pos implies #[trigger] self.ordered_at(i) by {
                            if above(i) == pos {
                                assert(before.ordered_at(i));
                                assert(self.key(i) == before.key(i));
                            }
                        }
                    } else {
                        assert forall|i: int| 0 < i < self.heap@.len() && above(i) != pos implies #[trigger] self.ordered_at(i) by {
                            if i == pos {
                                assert(before.ordered_at(i));
                                assert(self.key(above(i)) == before.key(above(i)));
                            }
                        }
                    }
                }
                if value >= original {
                    self.sift_up(pos);
                } else {
                    self.sift_down(pos);
                }
            },
            None => {
                proof {
                    assert forall|i: int| 0 <= i < self.heap@.len() implies #[trigger] self.key(i) == before.key(i) by {
                        assert(self.heap@[i].id() != index);
                    }
                    assert forall|i: int| 0 < i < self.heap@.len() implies #[trigger] self.ordered_at(i) by {
                        assert(before.ordered_at(i));
                        assert(self.key(i) == before.key(i));
                        assert(self.key(above(i)) == before.key(above(i)));
                    }
                }
            },
        }
    }

    /// Changes the value of a variable by a function and returns the new
    /// value.
    pub fn update_value<F: FnOnce(u64) -> u64>(&mut self, var: Var, update: F) -> (value: u64)
        requires
            old(self).wf(),
            update.requires((old(self).value(var),)),
        ensures
            final(self).wf(),
            final(self).vars() == old(self).vars(),
            update.ensures((old(self).value(var),), value),
            final(self).value(var) == value,
            forall|x: Var| x != var ==> #[trigger] final(self).value(x) == old(self).value(x),
    {
        let value = update(self.get_value(var));
        self.set_value(var, value);
        value
    }

    /// Adds the provided variable to the heap.
    pub fn add(&mut self, var: Var)
        requires
            old(self).wf(),
        ensures
            final(self).wf(),
            final(self).vars() == old(self).vars().insert(var),
            forall|x: Var| #[trigger] final(self).value(x) == old(self).value(x),
    {
        if self.contained(var) {
            assert(self.vars() =~= self.vars().insert(var));
            return;
        }
        let index = var.as_index();
        self.set_var_count(index + 1);
        let ghost before = *self;
        let end = self.heap.len();
        self.heap.push(var);
        self.positions.set(index, Some(end));
        proof {
            assert(!before.vars().contains(var));
            assert(before.positions@[index as int] is None);
            assert forall|i: int|
                #![trigger self.heap@[i]]
                0 <= i < self.heap@.len() implies self.heap@[i].id() < self.positions@.len() && self.positions@[self.heap@[i].id()]
                == Some(i as usize) by {
                if i < end {
                    assert(self.heap@[i] == before.heap@[i]);
                    assert(before.heap@[i].id() != index);
                }
            }
            assert forall|v: int|
                #![trigger self.positions@[v]]
                0 <= v < self.positions@.len() && self.positions@[v] is Some implies (self.positions@[v]->0) < self.heap@.len()
                && self.heap@[(self.positions@[v]->0) as int].id() == v by {
                if v != index {
                    assert(self.positions@[v] == before.positions@[v]);
                    assert(before.heap@[(before.positions@[v]->0) as int].id() == v);
                }
            }
            assert(self.placed());
            assert forall|i: int| 0 <= i < end implies #[trigger] self.key(i) == before.key(i) by {}
            assert forall|i: int| 0 < i < self.heap@.len() && i != end implies #[trigger] self.ordered_at(i) by {
                assert(before.ordered_at(i));
                assert(self.key(i) == before.key(i));
                assert(self.key(above(i)) == before.key(above(i)));
            }
            assert forall|x: Var| self.vars().contains(x) == before.vars().insert(var).contains(x) by {
                if x.id() == index {
                    lemma_var_ext(x, var);
                }
            }
            assert(self.vars() =~= before.vars().insert(var));
            assert forall|x: Var| #[trigger] self.value(x) == old(self).value(x) by {
                assert(before.value(x) == old(self).value(x));
            }
        }
        self.sift_up(end);
    }

    /// Adds the variable to the heap with the given value.
    pub fn add_and_set(&mut self, var: Var, value: u64)
        requires
            old(self).wf(),
        ensures
            final(self).wf(),
            final(self).vars() == old(self).vars().insert(var),
            final(self).value(var) == value,
            forall|x: Var| x != var ==> #[trigger] final(self).value(x) == old(self).value(x),
    {
        self.set_value(var, value);
        self.add(var);
    }

    /// Removes the provided variable from the heap.
    pub fn remove(&mut self, var: Var)
        requires
            old(self).wf(),
        ensures
            final(self).wf(),
            final(self).vars() == old(self).vars().remove(var),
            forall|x: Var| #[trigger] final(self).value(x) == old(self).value(x),
    {
        if !self.contained(var) {
            assert(self.vars() =~= self.vars().remove(var));
            return;
        }
        let index = var.as_index();
        let ghost before = *self;
        let pos = match self.positions[index] {
            Some(pos) => pos,
            None => {
                return;
            },
        };
        proof {
            assert(self.heap@[pos as int].id() == index);
            lemma_var_ext(self.heap@[pos as int], var);
        }
        // swap it with the last element
        let last = self.heap.len() - 1;
        if pos < last {
            self.swap(pos, last);
        }
        let ghost swapped = *self;
        assert(self.heap@[last as int] == var);
        let removed = self.heap.pop();
        self.positions.set(index, None);
        proof {
            assert forall|i: int|
                #![trigger self.heap@[i]]
                0 <= i < self.heap@.len() implies self.heap@[i].id() < self.positions@.len() && self.positions@[self.heap@[i].id()]
                == Some(i as usize) by {
                assert(self.heap@[i] == swapped.heap@[i]);
                assert(swapped.positions@[swapped.heap@[i].id()] == Some(i as usize));
                assert(swapped.positions@[swapped.heap@[last as int].id()] == Some(last));
            }
            assert forall|v: int|
                #![trigger self.positions@[v]]
                0 <= v < self.positions@.len() && self.positions@[v] is Some implies (self.positions@[v]->0) < self.heap@.len()
                && self.heap@[(self.positions@[v]->0) as int].id() == v by {
                assert(self.positions@[v] == swapped.positions@[v]);
                let p = swapped.positions@[v]->0;
                assert(swapped.heap@[p as int].id() == v);
                assert(p != last);
            }
            assert(self.placed());
            assert forall|x: Var| self.vars().contains(x) == before.vars().remove(var).contains(x) by {
                if x.id() == index {
                    lemma_var_ext(x, var);
                }
                assert(swapped.vars().contains(x) == before.vars().contains(x));
            }
            assert(self.vars() =~= before.vars().remove(var));
            assert forall|i: int| 0 <= i < last && i != pos implies #[trigger] self.key(i) == before.key(i) by {
                assert(self.heap@[i] == before.heap@[i]);
            }
            assert forall|i: int| 0 < i < self.heap@.len() && i != pos && above(i) != pos implies #[trigger] self.ordered_at(i) by {
                assert(before.ordered_at(i));
                assert(self.key(i) == before.key(i));
                assert(self.key(above(i)) == before.key(above(i)));
            }
            assert forall|c: int| 0 < c < self.heap@.len() && above(c) == pos && pos > 0 implies self.key(above(pos as int))
                >= #[trigger] self.key(c) by {
                assert(before.ordered_at(c));
                assert(before.ordered_at(pos as int));
                assert(self.key(c) == before.key(c));
                assert(self.key(above(pos as int)) == before.key(above(pos as int)));
            }
        }
        if pos >= self.heap.len() {
            // the last element of the heap was removed
            assert forall|i: int| 0 < i < self.heap@.len() implies #[trigger] self.ordered_at(i) by {}
            return;
        }
        // restore the order around the moved variable
        if pos > 0 {
            let parent = (pos - 1) / 2;
            if self.get_value(self.heap[pos]) > self.get_value(self.heap[parent]) {
                proof {
                    assert forall|i: int| 0 < i < self.heap@.len() && i != pos implies #[trigger] self.ordered_at(i) by {
                        if above(i) == pos {
                            assert(self.key(above(pos as int)) >= self.key(i));
                        }
                    }
                }
                self.sift_up(pos);
                return;
            }
        }
        assert forall|i: int| 0 < i < self.heap@.len() && above(i) != pos implies #[trigger] self.ordered_at(i) by {
            if i == pos {
                assert(self.key(above(i)) >= self.key(i));
            }
        }
        self.sift_down(pos);
    }

    /// Removes all variables and forgets their values.
    pub fn clear(&mut self)
        ensures
            final(self).wf(),
            final(self).vars() == Set::<Var>::empty(),
            forall|x: Var| #[trigger] final(self).value(x) == 0,
    {
        self.values = Vec::new();
        self.heap = Vec::new();
        self.positions = Vec::new();
        assert(self.vars() =~= Set::<Var>::empty());
    }

    /// Divides all values, which keeps their relative order.
    pub fn rescale(&mut self, divisor: u64)
        requires
            old(self).wf(),
            divisor > 0,
        ensures
            final(self).wf(),
            final(self).vars() == old(self).vars(),
            forall|x: Var| #[trigger] final(self).value(x) == old(self).value(x) / divisor,
    {
        let ghost before = *self;
        let mut k: usize = 0;
        while k < self.values.len()
            invariant
                k <= self.values@.len(),
                divisor > 0,
                self.heap@ == before.heap@,
                self.positions@ == before.positions@,
                self.values@.len() == before.values@.len(),
                forall|i: int| 0 <= i < k ==> self.values@[i] == before.values@[i] / divisor,
                forall|i: int| k <= i < self.values@.len() ==> self.values@[i] == before.values@[i],
            decreases self.values.len() - k,
        {
            let value = self.values[k];
            self.values.set(k, value / divisor);
            k += 1;
        }
        proof {
            assert forall|x: Var| #[trigger] self.value(x) == before.value(x) / divisor by {
                assert(0u64 / divisor == 0) by (nonlinear_arith)
                    requires
                        divisor > 0,
                ;
            }
            assert forall|i: int| 0 < i < self.heap@.len() implies #[trigger] self.ordered_at(i) by {
                assert(before.ordered_at(i));
                let a = before.key(above(i));
                let b = before.key(i);
                assert(a / divisor >= b / divisor) by (nonlinear_arith)
                    requires
                        a >= b,
                        divisor > 0,
                ;
                assert(self.value(self.heap@[i]) == b / divisor);
                assert(self.value(self.heap@[above(i)]) == a / divisor);
            }
            assert(self.vars() =~= before.vars());
        }
    }

    fn sift_up(&mut self, start: usize)
        requires
            old(self).placed(),
            start < old(self).heap@.len(),
            forall|i: int| 0 < i < old(self).heap@.len() && i != start ==> #[trigger] old(self).ordered_at(i),
            forall|c: int|
                0 < c < old(self).heap@.len() && above(c) == start && start > 0 ==> old(self).key(above(start as int))
                    >= #[trigger] old(self).key(c),
        ensures
            final(self).wf(),
            final(self).vars() == old(self).vars(),
            forall|x: Var| #[trigger] final(self).value(x) == old(self).value(x),
    {
        let ghost before = *self;
        let mut pos = start;
        while pos > 0
            invariant
                before == *old(self),
                self.placed(),
                pos < self.heap@.len(),
                self.vars() == before.vars(),
                forall|x: Var| #[trigger] self.value(x) == before.value(x),
                forall|i: int| 0 < i < self.heap@.len() && i != pos ==> #[trigger] self.ordered_at(i),
                forall|c: int|
                    0 < c < self.heap@.len() && above(c) == pos && pos > 0 ==> self.key(above(pos as int)) >= #[trigger] self.key(c),
            decreases pos,
        {
            let parent = (pos - 1) / 2;
            if self.get_value(self.heap[pos]) <= self.get_value(self.heap[parent]) {
                assert(self.ordered_at(pos as int));
                return;
            }
            let ghost last = *self;
            self.swap(pos, parent);
            proof {
                assert(self.key(parent as int) == last.key(pos as int));
                assert(self.key(pos as int) == last.key(parent as int));
                assert forall|i: int| 0 <= i < self.heap@.len() && i != pos && i != parent implies #[trigger] self.key(i)
                    == last.key(i) by {
                    assert(self.heap@[i] == last.heap@[i]);
                    assert(self.value(self.heap@[i]) == last.value(self.heap@[i]));
                }
                assert forall|i: int| 0 < i < self.heap@.len() && i != parent implies #[trigger] self.ordered_at(i) by {
                    if i != pos {
                        assert(last.ordered_at(i));
                        if above(i) == pos {
                            assert(last.key(above(pos as int)) >= last.key(i));
                            assert(self.key(i) == last.key(i));
                        } else if above(i) == parent {
                            assert(self.key(i) == last.key(i));
                        } else {
                            assert(self.key(i) == last.key(i));
                            assert(self.key(above(i)) == last.key(above(i)));
                        }
                    }
                }
                assert forall|c: int| 0 < c < self.heap@.len() && above(c) == parent && parent > 0 implies self.key(
                    above(parent as int),
                ) >= #[trigger] self.key(c) by {
                    assert(last.ordered_at(parent as int));
                    assert(self.key(above(parent as int)) == last.key(above(parent as int)));
                    if c != pos {
                        assert(last.ordered_at(c));
                        assert(self.key(c) == last.key(c));
                    }
                }
                assert forall|x: Var| #[trigger] self.value(x) == before.value(x) by {
                    assert(last.value(x) == before.value(x));
                }
            }
            pos = parent;
        }
    }

    fn sift_down(&mut self, start: usize)
        requires
            old(self).placed(),
            start < old(self).heap@.len(),
            forall|i: int| 0 < i < old(self).heap@.len() && above(i) != start ==> #[trigger] old(self).ordered_at(i),
            forall|c: int|
                0 < c < old(self).heap@.len() && above(c) == start && start > 0 ==> old(self).key(above(start as int))
                    >= #[trigger] old(self).key(c),
        ensures
            final(self).wf(),
            final(self).vars() == old(self).vars(),
            forall|x: Var| #[trigger] final(self).value(x) == old(self).value(x),
    {
        let ghost before = *self;
        let mut pos = start;
        let len = self.heap.len();
        while pos < len / 2
            invariant
                before == *old(self),
                self.placed(),
                len == self.heap@.len(),
                pos < len,
                self.vars() == before.vars(),
                forall|x: Var| #[trigger] self.value(x) == before.value(x),
                forall|i: int| 0 < i < self.heap@.len() && above(i) != pos ==> #[trigger] self.ordered_at(i),
                forall|c: int|
                    0 < c < self.heap@.len() && above(c) == pos && pos > 0 ==> self.key(above(pos as int)) >= #[trigger] self.key(c),
            decreases len - pos,
        {
            let left = 2 * pos + 1;
            let mut largest = pos;
            if self.get_value(self.heap[left]) > self.get_value(self.heap[largest]) {
                largest = left;
            }
            if left + 1 < len && self.get_value(self.heap[left + 1]) > self.get_value(self.heap[largest]) {
                largest = left + 1;
            }
            if largest == pos {
                assert forall|i: int| 0 < i < self.heap@.len() implies #[trigger] self.ordered_at(i) by {
                    if above(i) == pos {
                        assert(i == left || i == left + 1);
                    }
                }
                return;
            }
            let ghost last = *self;
            self.swap(pos, largest);
            proof {
                assert(above(largest as int) == pos);
                assert(self.key(largest as int) == last.key(pos as int));
                assert(self.key(pos as int) == last.key(largest as int));
                assert forall|i: int| 0 <= i < self.heap@.len() && i != pos && i != largest implies #[trigger] self.key(i)
                    == last.key(i) by {
                    assert(self.heap@[i] == last.heap@[i]);
                    assert(self.value(self.heap@[i]) == last.value(self.heap@[i]));
                }
                assert forall|i: int| 0 < i < self.heap@.len() && above(i) != largest implies #[trigger] self.ordered_at(i) by {
                    if above(i) == pos {
                        assert(i == left || i == left + 1);
                        if i != largest {
                            assert(self.key(i) == last.key(i));
                        }
                    } else {
                        assert(last.ordered_at(i));
                        if i == pos {
                            assert(last.key(above(pos as int)) >= last.key(largest as int));
                            assert(self.key(above(i)) == last.key(above(i)));
                        } else {
                            assert(self.key(i) == last.key(i));
                            assert(self.key(above(i)) == last.key(above(i)));
                        }
                    }
                }
                assert forall|c: int| 0 < c < self.heap@.len() && above(c) == largest implies self.key(above(largest as int))
                    >= #[trigger] self.key(c) by {
                    assert(last.ordered_at(c));
                    assert(self.key(c) == last.key(c));
                }
                assert forall|x: Var| #[trigger] self.value(x) == before.value(x) by {
                    assert(last.value(x) == before.value(x));
                }
            }
            pos = largest;
        }
        assert forall|i: int| 0 < i < self.heap@.len() implies #[trigger] self.ordered_at(i) by {}
    }

    fn swap(&mut self, a: usize, b: usize)
        requires
            old(self).placed(),
            a < old(self).heap@.len(),
            b < old(self).heap@.len(),
            a != b,
        ensures
            final(self).placed(),
            final(self).heap@ == old(self).heap@.update(a as int, old(self).heap@[b as int]).update(
                b as int,
                old(self).heap@[a as int],
            ),
            final(self).values@ == old(self).values@,
            final(self).positions@.len() == old(self).positions@.len(),
            final(self).vars() == old(self).vars(),
            forall|x: Var| #[trigger] final(self).value(x) == old(self).value(x),
    {
        let ghost before = *self;
        let len = self.heap.len();
        let var_a = self.heap[a];
        let var_b = self.heap[b];
        assert(before.heap@[a as int].id() < before.positions@.len());
        assert(before.heap@[b as int].id() < before.positions@.len());
        self.heap.set(a, var_b);
        self.heap.set(b, var_a);
        self.positions.set(var_a.as_index(), Some(b));
        self.positions.set(var_b.as_index(), Some(a));
        proof {
            assert(var_a.id() != var_b.id());
            assert forall|i: int|
                #![trigger self.heap@[i]]
                0 <= i < self.heap@.len() implies self.heap@[i].id() < self.positions@.len() && self.positions@[self.heap@[i].id()]
                == Some(i as usize) by {
                if i != a && i != b {
                    assert(self.heap@[i] == before.heap@[i]);
                    assert(before.positions@[before.heap@[i].id()] == Some(i as usize));
                }
            }
            assert forall|v: int|
                #![trigger self.positions@[v]]
                0 <= v < self.positions@.len() && self.positions@[v] is Some implies (self.positions@[v]->0) < self.heap@.len()
                && self.heap@[(self.positions@[v]->0) as int].id() == v by {
                if v != var_a.id() && v != var_b.id() {
                    assert(self.positions@[v] == before.positions@[v]);
                    let p = before.positions@[v]->0;
                    assert(before.heap@[p as int].id() == v);
                }
            }
            assert(self.vars() =~= before.vars());
        }
    }
}

} // verus!
