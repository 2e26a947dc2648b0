//! Identifiers and their numbers.
use crate::scan::{char_lists, same_text};
use std::collections::HashMap;
use vstd::prelude::*;
use vstd::std_specs::hash::*;

verus! {

broadcast use vstd::std_specs::hash::group_hash_axioms;

/// The distinct names of a list, in the order of their first occurrence.
pub open spec fn distinct_names(list: Seq<Seq<char>>) -> Seq<Seq<char>>
    decreases list.len(),
{
    if list.len() == 0 {
        Seq::empty()
    } else {
        noted(distinct_names(list.drop_last()), list.last())
    }
}

/// The names with one more, unless it is there.
pub open spec fn noted(names: Seq<Seq<char>>, name: Seq<char>) -> Seq<Seq<char>> {
    if names.contains(name) {
        names
    } else {
        names.push(name)
    }
}

/// The names after more of them have been noted.
pub open spec fn all_noted(names: Seq<Seq<char>>, more: Seq<Seq<char>>) -> Seq<Seq<char>>
    decreases more.len(),
{
    if more.len() == 0 {
        names
    } else {
        noted(all_noted(names, more.drop_last()), more.last())
    }
}

/// No name occurs twice.
pub open spec fn no_repeats(names: Seq<Seq<char>>) -> bool {
    forall|i: int, j: int| 0 <= i < names.len() && 0 <= j < names.len() && #[trigger] names[i] == #[trigger] names[j] ==> i == j
}

/// The 0-based position of a name.
pub open spec fn place(names: Seq<Seq<char>>, name: Seq<char>) -> int {
    names.index_of(name)
}

pub proof fn lemma_distinct(list: Seq<Seq<char>>)
    ensures
        no_repeats(distinct_names(list)),
        forall|name: Seq<char>| #[trigger] distinct_names(list).contains(name) <==> list.contains(name),
    decreases list.len(),
{
    if list.len() > 0 {
        let before = distinct_names(list.drop_last());
        let last = list.last();
        lemma_distinct(list.drop_last());
        assert(no_repeats(distinct_names(list))) by {
            let after = distinct_names(list);
            assert forall|i: int, j: int| 0 <= i < after.len() && 0 <= j < after.len() && #[trigger] after[i] == #[trigger] after[j] implies i
                == j by {
                if i < before.len() && j < before.len() {
                    assert(before[i] == before[j]);
                } else if i < before.len() {
                    assert(before[i] == last);
                } else if j < before.len() {
                    assert(before[j] == last);
                }
            }
        }
        assert forall|name: Seq<char>| #[trigger] distinct_names(list).contains(name) <==> list.contains(name) by {
            crate::datastructure::lemma_push_contains(list.drop_last(), last, name);
            assert(list.drop_last().push(last) =~= list);
            crate::datastructure::lemma_push_contains(before, last, name);
        }
    }
}

/// Names are noted in order.
pub proof fn lemma_all_noted(list: Seq<Seq<char>>, more: Seq<Seq<char>>)
    ensures
        all_noted(distinct_names(list), more) == distinct_names(list + more),
    decreases more.len(),
{
    if more.len() == 0 {
        assert(list + more =~= list);
    } else {
        lemma_all_noted(list, more.drop_last());
        assert((list + more).drop_last() =~= list + more.drop_last());
        assert((list + more).last() == more.last());
    }
}

/// Noting a name keeps the places of the others.
pub proof fn lemma_noted(names: Seq<Seq<char>>, name: Seq<char>)
    ensures
        names.len() <= noted(names, name).len(),
        noted(names, name).take(names.len() as int) == names,
        noted(names, name).contains(name),
        no_repeats(names) ==> no_repeats(noted(names, name)),
{
    let after = noted(names, name);
    assert(after.take(names.len() as int) =~= names);
    if !names.contains(name) {
        assert(after[names.len() as int] == name);
    }
    if no_repeats(names) {
        assert forall|i: int, j: int| 0 <= i < after.len() && 0 <= j < after.len() && #[trigger] after[i] == #[trigger] after[j] implies i == j by {
            if i < names.len() && j < names.len() {
                assert(names[i] == names[j]);
            } else if i < names.len() {
                assert(names[i] == name);
            } else if j < names.len() {
                assert(names[j] == name);
            }
        }
    }
}

/// A name is where it is found.
pub proof fn lemma_place(names: Seq<Seq<char>>, i: int)
    requires
        no_repeats(names),
        0 <= i < names.len(),
    ensures
        place(names, names[i]) == i,
{
    assert(names.contains(names[i]));
    let j = place(names, names[i]);
    assert(0 <= j < names.len() && names[j] == names[i]);
}

/// A bucket number of a name.
pub open spec fn bucket(name: Seq<char>) -> u64
    decreases name.len(),
{
    if name.len() == 0 {
        7
    } else {
        ((bucket(name.drop_last()) * 31 + name.last() as u32) % 0x1_0000_0000) as u64
    }
}

fn bucket_of(name: &Vec<char>) -> (b: u64)
    ensures
        b == bucket(name@),
{
    let mut b: u64 = 7;
    let mut k: usize = 0;
    assert(name@.take(0) =~= Seq::<char>::empty());
    while k < name.len()
        invariant
            k <= name@.len(),
            b == bucket(name@.take(k as int)),
            b < 0x1_0000_0000,
        decreases name.len() - k,
    {
        proof {
            assert(name@.take(k as int + 1).drop_last() =~= name@.take(k as int));
            assert(name@.take(k as int + 1).last() == name@[k as int]);
        }
        b = (b * 31 + name[k] as u32 as u64) % 0x1_0000_0000;
        k += 1;
    }
    assert(name@.take(name@.len() as int) =~= name@);
    b
}

/// Identifiers, numbered from 0 in the order in which they are met.
pub struct Interner {
    buckets: HashMap<u64, Vec<usize>>,
    names: Vec<Vec<char>>,
}

impl Interner {
    /// The identifiers in order.
    pub closed spec fn names(&self) -> Seq<Seq<char>> {
        char_lists(self.names@)
    }

    /// No identifier is held twice, and each is in its bucket.
    pub closed spec fn wf(&self) -> bool {
        &&& no_repeats(self.names())
        &&& forall|b: u64, i: int|
            self.buckets@.contains_key(b) && 0 <= i < self.buckets@[b]@.len() ==> #[trigger] self.buckets@[b]@[i] < self.names@.len()
        &&& forall|k: usize|
            k < self.names@.len() ==> self.buckets@.contains_key(bucket(#[trigger] self.names()[k as int])) && self.buckets@[bucket(
                self.names()[k as int],
            )]@.contains(k)
    }

    pub fn new() -> (interner: Interner)
        ensures
            interner.wf(),
            interner.names() == Seq::<Seq<char>>::empty(),
    {
        let interner = Interner { buckets: HashMap::new(), names: Vec::new() };
        assert(interner.names() =~= Seq::<Seq<char>>::empty());
        interner
    }

    /// The number of identifiers.
    pub fn len(&self) -> (count: usize)
        ensures
            count == self.names().len(),
    {
        self.names.len()
    }

    /// The identifiers in order.
    pub fn into_names(self) -> (names: Vec<Vec<char>>)
        ensures
            char_lists(names@) == self.names(),
    {
        self.names
    }

    /// The number of an identifier, a new one if it has not been met.
    pub fn intern(&mut self, name: Vec<char>) -> (id: usize)
        requires
            old(self).wf(),
        ensures
            final(self).wf(),
            final(self).names() == noted(old(self).names(), name@),
            id < final(self).names().len(),
            final(self).names()[id as int] == name@,
    {
        let b = bucket_of(&name);
        let ghost before = *self;
        if let Some(list) = self.buckets.get(&b) {
            let mut k: usize = 0;
            while k < list.len()
                invariant
                    k <= list.len(),
                    *self == before,
                    before == *old(self),
                    self.wf(),
                    self.buckets@.contains_key(b),
                    *list == self.buckets@[b],
                    forall|i: int| 0 <= i < k ==> self.names()[#[trigger] list@[i] as int] != name@,
                decreases list.len() - k,
            {
                let id = list[k];
                assert(self.buckets@[b]@[k as int] < self.names@.len());
                if same_text(&self.names[id], &name) {
                    assert(self.names()[id as int] == name@);
                    assert(self.names().contains(name@));
                    return id;
                }
                k += 1;
            }
        }
        let id = self.names.len();
        proof {
            if self.names().contains(name@) {
                let k = choose|k: int| 0 <= k < self.names().len() && self.names()[k] == name@;
                let found = k as usize;
                assert(self.names()[found as int] == name@);
                let list = self.buckets@[b]@;
                let i = choose|i: int| 0 <= i < list.len() && list[i] == found;
                assert(self.names()[list[i] as int] != name@);
            }
        }
        let ghost text = name@;
        self.names.push(name);
        let mut list: Vec<usize> = match self.buckets.remove(&b) {
            Some(list) => list,
            None => Vec::new(),
        };
        let ghost held = list@;
        list.push(id);
        self.buckets.insert(b, list);
        proof {
            assert(self.names() =~= before.names().push(text));
            lemma_noted(before.names(), text);
            assert forall|c: u64, i: int|
                self.buckets@.contains_key(c) && 0 <= i < self.buckets@[c]@.len() implies #[trigger] self.buckets@[c]@[i] < self.names@.len() by {
                if c != b {
                    assert(self.buckets@[c] == before.buckets@[c]);
                    assert(before.buckets@[c]@[i] < before.names@.len());
                } else if i < held.len() {
                    assert(before.buckets@[b]@[i] < before.names@.len());
                }
            }
            assert forall|k: usize| k < self.names@.len() implies self.buckets@.contains_key(bucket(#[trigger] self.names()[k as int]))
                && self.buckets@[bucket(self.names()[k as int])]@.contains(k) by {
                let c = bucket(self.names()[k as int]);
                if k < before.names@.len() {
                    assert(before.names()[k as int] == self.names()[k as int]);
                    assert(before.buckets@[c]@.contains(k));
                    if c == b {
                        let i = choose|i: int| 0 <= i < held.len() && held[i] == k;
                        assert(list@[i] == k);
                    }
                } else {
                    assert(list@[held.len() as int] == id);
                }
            }
        }
        id
    }
}

} // verus!
