//! A minimal reduced ordered binary decision diagram package.
//!
//! Exists to answer a measurement question: *how large are the objects
//! this solver represents as circuits and cube sets when they are
//! represented as BDDs instead?* Skolem functions and winning regions are
//! the two candidates.
//!
//! Deliberately absent: complement edges, dynamic variable reordering,
//! garbage collection. Sizes measured here are an **upper bound** on what a
//! tuned package would produce with the natural variable order.
use std::collections::HashMap;
use vstd::prelude::*;
use vstd::std_specs::hash::*;

verus! {

broadcast use vstd::std_specs::hash::group_hash_axioms;

/// A node handle. `0` is the false terminal and `1` the true terminal.
pub type NodeId = u32;

pub const FALSE: NodeId = 0;

pub const TRUE: NodeId = 1;

#[derive(Clone, Copy)]
pub struct Node {
    /// index in the variable order; terminals use the largest number so
    /// that every decision node is ordered above them
    pub var: u32,
    pub low: NodeId,
    pub high: NodeId,
}

/// Values for the variables of the order.
pub type Point = spec_fn(u32) -> bool;

#[derive(Clone, Copy, PartialEq, Eq, Structural)]
pub enum Op {
    And,
    Or,
}

impl Op {
    pub open spec fn of(self, a: bool, b: bool) -> bool {
        match self {
            Op::And => a && b,
            Op::Or => a || b,
        }
    }
}

/// A package of shared diagrams.
pub struct Bdd {
    nodes: Vec<Node>,
    unique: HashMap<u128, NodeId>,
    and_memo: HashMap<u64, NodeId>,
    or_memo: HashMap<u64, NodeId>,
    not_memo: HashMap<u32, NodeId>,
    /// nodes after which construction gives up
    limit: usize,
    exceeded: bool,
}

/// A decision node points to two earlier nodes that test later variables.
pub open spec fn node_ok(nodes: Seq<Node>, i: int) -> bool {
    let n = nodes[i];
    n.low < i && n.high < i && n.low != n.high && n.var < nodes[n.low as int].var && n.var < nodes[n.high as int].var
}

pub open spec fn same_node(nodes: Seq<Node>, i: int, j: int) -> bool {
    nodes[i] == nodes[j]
}

/// Decision nodes point to earlier nodes that test later variables, none is
/// redundant, and no two are equal.
pub open spec fn ordered(nodes: Seq<Node>) -> bool {
    &&& 2 <= nodes.len() <= u32::MAX
    &&& nodes[0].var == u32::MAX
    &&& nodes[1].var == u32::MAX
    &&& forall|i: int| 2 <= i < nodes.len() ==> #[trigger] node_ok(nodes, i)
    &&& forall|i: int, j: int| 2 <= i < nodes.len() && 2 <= j < nodes.len() && #[trigger] same_node(nodes, i, j) ==> i == j
}

/// The value of the function of a node.
pub open spec fn node_value(nodes: Seq<Node>, id: NodeId, e: Point) -> bool
    decreases id,
{
    if id < 2 || id >= nodes.len() {
        id == TRUE
    } else {
        let n = nodes[id as int];
        let next = if e(n.var) { n.high } else { n.low };
        next < id && node_value(nodes, next, e)
    }
}

/// Whether a node is reached from another.
pub open spec fn reaches(nodes: Seq<Node>, from: NodeId, to: NodeId) -> bool
    decreases from,
{
    from == to || (2 <= from < nodes.len() && {
        let n = nodes[from as int];
        (n.low < from && reaches(nodes, n.low, to)) || (n.high < from && reaches(nodes, n.high, to))
    })
}

/// The number of nodes from `k` on that are reached.
pub open spec fn reached_from(nodes: Seq<Node>, root: NodeId, k: int) -> nat
    decreases root + 1 - k,
{
    if k > root {
        0
    } else {
        (if reaches(nodes, root, k as u32) { 1nat } else { 0nat }) + reached_from(nodes, root, k + 1)
    }
}

/// The weight of a variable in the index of a truth table.
pub open spec fn weight(var: nat) -> nat
    decreases var,
{
    if var == 0 {
        1
    } else {
        2 * weight((var - 1) as nat)
    }
}

/// The index of a point in a truth table, from the variables `var..vars`:
/// variable `v` is bit `v`.
pub open spec fn table_index(e: Point, var: nat, vars: nat) -> nat
    decreases vars - var,
{
    if var >= vars {
        0
    } else {
        (if e(var as u32) { weight(var) } else { 0 }) + table_index(e, var + 1, vars)
    }
}

/// The number of decision nodes below a node, counted once per path.
pub open spec fn paths(nodes: Seq<Node>, id: NodeId) -> nat
    decreases id,
{
    if id < 2 || id >= nodes.len() {
        0
    } else {
        let n = nodes[id as int];
        if n.low < id && n.high < id {
            1 + paths(nodes, n.low) + paths(nodes, n.high)
        } else {
            1
        }
    }
}

/// The child of a node that a value of a variable selects; the node itself
/// if it does not test the variable.
pub open spec fn child(nodes: Seq<Node>, id: NodeId, var: u32, high: bool) -> NodeId {
    let n = nodes[id as int];
    if n.var == var {
        if high {
            n.high
        } else {
            n.low
        }
    } else {
        id
    }
}

/// The first variable that one of two nodes tests.
pub open spec fn first_var(nodes: Seq<Node>, a: NodeId, b: NodeId) -> u32 {
    if nodes[a as int].var <= nodes[b as int].var {
        nodes[a as int].var
    } else {
        nodes[b as int].var
    }
}

/// The number of pairs of decision nodes that two functions are compared
/// at, counted once per path.
pub open spec fn pairs(nodes: Seq<Node>, a: NodeId, b: NodeId) -> nat
    decreases a + b,
{
    if a < 2 || b < 2 || a >= nodes.len() || b >= nodes.len() || a == b {
        0
    } else {
        let v = first_var(nodes, a, b);
        let (al, bl) = (child(nodes, a, v, false), child(nodes, b, v, false));
        let (ah, bh) = (child(nodes, a, v, true), child(nodes, b, v, true));
        if al + bl < a + b && ah + bh < a + b {
            1 + pairs(nodes, al, bl) + pairs(nodes, ah, bh)
        } else {
            1
        }
    }
}

proof fn lemma_pairs_swap(nodes: Seq<Node>, a: NodeId, b: NodeId)
    ensures
        pairs(nodes, a, b) == pairs(nodes, b, a),
    decreases a + b,
{
    if !(a < 2 || b < 2 || a >= nodes.len() || b >= nodes.len() || a == b) {
        let v = first_var(nodes, a, b);
        let (al, bl) = (child(nodes, a, v, false), child(nodes, b, v, false));
        let (ah, bh) = (child(nodes, a, v, true), child(nodes, b, v, true));
        assert(first_var(nodes, b, a) == v);
        if al + bl < a + b && ah + bh < a + b {
            lemma_pairs_swap(nodes, al, bl);
            lemma_pairs_swap(nodes, ah, bh);
        }
    }
}

proof fn lemma_paths_kept(before: Seq<Node>, after: Seq<Node>, id: NodeId)
    requires
        before.len() <= after.len(),
        after.take(before.len() as int) == before,
        id < before.len(),
        ordered(before),
    ensures
        paths(before, id) == paths(after, id),
    decreases id,
{
    assert(after.take(before.len() as int)[id as int] == before[id as int]);
    if id >= 2 {
        let n = before[id as int];
        assert(node_ok(before, id as int));
        lemma_paths_kept(before, after, n.low);
        lemma_paths_kept(before, after, n.high);
    }
}

proof fn lemma_pairs_kept(before: Seq<Node>, after: Seq<Node>, a: NodeId, b: NodeId)
    requires
        before.len() <= after.len(),
        after.take(before.len() as int) == before,
        a < before.len(),
        b < before.len(),
        ordered(before),
    ensures
        pairs(before, a, b) == pairs(after, a, b),
    decreases a + b,
{
    assert(after.take(before.len() as int)[a as int] == before[a as int]);
    assert(after.take(before.len() as int)[b as int] == before[b as int]);
    if !(a < 2 || b < 2 || a == b) {
        assert(node_ok(before, a as int));
        assert(node_ok(before, b as int));
        let v = first_var(before, a, b);
        lemma_pairs_kept(before, after, child(before, a, v, false), child(before, b, v, false));
        lemma_pairs_kept(before, after, child(before, a, v, true), child(before, b, v, true));
    }
}

spec fn node_key(n: Node) -> u128 {
    (n.var * 0x1_0000_0000_0000_0000 + n.low * 0x1_0000_0000 + n.high) as u128
}

spec fn pair_key(a: NodeId, b: NodeId) -> u64 {
    (a * 0x1_0000_0000 + b) as u64
}

proof fn lemma_node_key(m: Node, n: Node)
    requires
        node_key(m) == node_key(n),
    ensures
        m == n,
{
}

proof fn lemma_pair_key(a: NodeId, b: NodeId, c: NodeId, d: NodeId)
    requires
        pair_key(a, b) == pair_key(c, d),
    ensures
        a == c,
        b == d,
{
}

/// Values do not change when nodes are added.
proof fn lemma_value_kept(before: Seq<Node>, after: Seq<Node>, id: NodeId, e: Point)
    requires
        before.len() <= after.len(),
        after.take(before.len() as int) == before,
        id < before.len(),
        ordered(before),
    ensures
        node_value(before, id, e) == node_value(after, id, e),
    decreases id,
{
    assert(after.take(before.len() as int)[id as int] == before[id as int]);
    if id >= 2 {
        let n = before[id as int];
        assert(node_ok(before, id as int));
        lemma_value_kept(before, after, n.low, e);
        lemma_value_kept(before, after, n.high, e);
    }
}

/// The value depends only on variables from that of the node on.
proof fn lemma_value_local(nodes: Seq<Node>, id: NodeId, e: Point, f: Point)
    requires
        ordered(nodes),
        id < nodes.len(),
        forall|v: u32| nodes[id as int].var <= v ==> #[trigger] e(v) == f(v),
    ensures
        node_value(nodes, id, e) == node_value(nodes, id, f),
    decreases id,
{
    if id >= 2 {
        let n = nodes[id as int];
        assert(node_ok(nodes, id as int));
        lemma_value_local(nodes, n.low, e, f);
        lemma_value_local(nodes, n.high, e, f);
    }
}

pub open spec fn with_value(e: Point, var: u32, value: bool) -> Point {
    |v: u32| if v == var { value } else { e(v) }
}

impl Bdd {
    /// The nodes of the package.
    pub closed spec fn nodes(&self) -> Seq<Node> {
        self.nodes@
    }

    /// Whether the node limit was hit.
    pub closed spec fn over(&self) -> bool {
        self.exceeded
    }

    /// The node limit.
    pub closed spec fn bound(&self) -> usize {
        self.limit
    }

    /// The value of the function of a node.
    pub open spec fn value(&self, id: NodeId, e: Point) -> bool {
        node_value(self.nodes(), id, e)
    }

    /// The node exists.
    pub open spec fn has(&self, id: NodeId) -> bool {
        id < self.nodes().len()
    }

    /// The variable that a node tests.
    pub open spec fn tests(&self, id: NodeId) -> u32 {
        self.nodes()[id as int].var
    }

    #[verifier::opaque]
    spec fn not_ok(&self) -> bool {
        forall|id: u32| #[trigger] self.not_memo@.contains_key(id) ==> {
            let r = self.not_memo@[id];
            &&& self.has(id)
            &&& self.has(r)
            &&& self.tests(id) <= self.tests(r)
            &&& !self.exceeded ==> forall|e: Point| #[trigger] self.value(r, e) == !self.value(id, e)
        }
    }

    #[verifier::opaque]
    spec fn memo_ok(&self, memo: Map<u64, NodeId>, op: Op) -> bool {
        forall|a: NodeId, b: NodeId| #[trigger] memo.contains_key(pair_key(a, b)) ==> {
            let r = memo[pair_key(a, b)];
            &&& self.has(a)
            &&& self.has(b)
            &&& self.has(r)
            &&& self.tests(a) <= self.tests(r) || self.tests(b) <= self.tests(r)
            &&& !self.exceeded ==> forall|e: Point| #[trigger] self.value(r, e) == op.of(self.value(a, e), self.value(b, e))
        }
    }

    #[verifier::opaque]
    spec fn unique_ok(&self) -> bool {
        &&& forall|i: int| 2 <= i < self.nodes@.len() ==> #[trigger] self.unique@.contains_key(node_key(self.nodes@[i]))
        &&& forall|n: Node| #[trigger] self.unique@.contains_key(node_key(n)) ==> {
            let r = self.unique@[node_key(n)];
            2 <= r < self.nodes@.len() && self.nodes@[r as int] == n
        }
    }

    /// The nodes are reduced and ordered, and the tables hold what they
    /// are for.
    pub closed spec fn wf(&self) -> bool {
        &&& ordered(self.nodes@)
        &&& self.unique_ok()
        &&& self.not_ok()
        &&& self.memo_ok(self.and_memo@, Op::And)
        &&& self.memo_ok(self.or_memo@, Op::Or)
    }

    /// The package has grown.
    pub open spec fn extends(&self, before: &Bdd) -> bool {
        &&& before.nodes().len() <= self.nodes().len()
        &&& self.nodes().take(before.nodes().len() as int) == before.nodes()
        &&& self.bound() == before.bound()
        &&& before.over() ==> self.over()
        &&& self.over() ==> before.over() || self.nodes().len() >= self.bound() || self.nodes().len() >= u32::MAX
        &&& self.nodes().len() > before.nodes().len() ==> self.nodes().len() <= self.bound()
    }

    /// Nodes keep their functions when a package grows.
    pub proof fn law_growing_keeps_functions(&self, before: &Bdd, id: NodeId, e: Point)
        requires
            before.wf(),
            self.extends(before),
            before.has(id),
        ensures
            self.value(id, e) == before.value(id, e),
            self.tests(id) == before.tests(id),
    {
        lemma_value_kept(before.nodes(), self.nodes(), id, e);
        assert(self.nodes().take(before.nodes().len() as int)[id as int] == before.nodes()[id as int]);
    }

    /// Equal functions are one node: equality of functions is equality of
    /// handles.
    pub proof fn law_functions_are_canonical(&self, a: NodeId, b: NodeId)
        requires
            self.wf(),
            self.has(a),
            self.has(b),
            forall|e: Point| #[trigger] self.value(a, e) == self.value(b, e),
        ensures
            a == b,
        decreases (if a < b { b } else { a }),
    {
        let nodes = self.nodes();
        if a >= 2 {
            assert(node_ok(nodes, a as int));
        }
        if b >= 2 {
            assert(node_ok(nodes, b as int));
        }
        if a < 2 && b < 2 {
            let e = |v: u32| true;
            assert(self.value(a, e) == self.value(b, e));
        } else if self.tests(a) < self.tests(b) {
            self.lemma_redundant(a, b);
            self.law_functions_are_canonical(nodes[a as int].low, nodes[a as int].high);
        } else if self.tests(b) < self.tests(a) {
            self.lemma_redundant(b, a);
            self.law_functions_are_canonical(nodes[b as int].low, nodes[b as int].high);
        } else {
            let m = nodes[a as int];
            let n = nodes[b as int];
            assert forall|e: Point| #[trigger] self.value(m.low, e) == self.value(n.low, e) by {
                self.lemma_cofactor(a, e);
                self.lemma_cofactor(b, e);
                assert(self.value(a, with_value(e, m.var, false)) == self.value(b, with_value(e, m.var, false)));
            }
            self.law_functions_are_canonical(m.low, n.low);
            assert forall|e: Point| #[trigger] self.value(m.high, e) == self.value(n.high, e) by {
                self.lemma_cofactor(a, e);
                self.lemma_cofactor(b, e);
                assert(self.value(a, with_value(e, m.var, true)) == self.value(b, with_value(e, m.var, true)));
            }
            self.law_functions_are_canonical(m.high, n.high);
            assert(same_node(nodes, a as int, b as int));
        }
    }

    /// The children of a node are its cofactors.
    proof fn lemma_cofactor(&self, id: NodeId, e: Point)
        requires
            self.wf(),
            self.has(id),
            id >= 2,
        ensures
            self.value(id, with_value(e, self.tests(id), false)) == self.value(self.nodes()[id as int].low, e),
            self.value(id, with_value(e, self.tests(id), true)) == self.value(self.nodes()[id as int].high, e),
    {
        let n = self.nodes()[id as int];
        assert(node_ok(self.nodes(), id as int));
        lemma_value_local(self.nodes(), n.low, e, with_value(e, n.var, false));
        lemma_value_local(self.nodes(), n.high, e, with_value(e, n.var, true));
    }

    /// A node with the function of one that tests later variables has equal
    /// cofactors.
    proof fn lemma_redundant(&self, a: NodeId, b: NodeId)
        requires
            self.wf(),
            self.has(a),
            self.has(b),
            a >= 2,
            self.tests(a) < self.tests(b),
            forall|e: Point| #[trigger] self.value(a, e) == self.value(b, e),
        ensures
            forall|e: Point| #[trigger] self.value(self.nodes()[a as int].low, e) == self.value(self.nodes()[a as int].high, e),
    {
        let n = self.nodes()[a as int];
        assert(node_ok(self.nodes(), a as int));
        assert forall|e: Point| #[trigger] self.value(n.low, e) == self.value(n.high, e) by {
            self.lemma_cofactor(a, e);
            let zero = with_value(e, n.var, false);
            let one = with_value(e, n.var, true);
            assert(self.value(a, zero) == self.value(b, zero));
            assert(self.value(a, one) == self.value(b, one));
            lemma_value_local(self.nodes(), b, zero, one);
        }
    }
}

impl Bdd {
    /// The node has the function of two nodes by an operation.
    pub open spec fn combines(&self, op: Op, a: NodeId, b: NodeId, r: NodeId) -> bool {
        self.has(r) && forall|e: Point| #[trigger] self.value(r, e) == op.of(self.value(a, e), self.value(b, e))
    }

    /// Some node has the function of two nodes by an operation.
    pub open spec fn holds(&self, op: Op, a: NodeId, b: NodeId) -> bool {
        exists|r: NodeId| #[trigger] self.combines(op, a, b, r)
    }

    /// The node has the complement of a function.
    pub open spec fn inverts(&self, id: NodeId, r: NodeId) -> bool {
        self.has(r) && forall|e: Point| #[trigger] self.value(r, e) == !self.value(id, e)
    }

    /// Some node has the complement of a function.
    pub open spec fn holds_inverse(&self, id: NodeId) -> bool {
        exists|r: NodeId| #[trigger] self.inverts(id, r)
    }

    /// The child that a value selects is the cofactor.
    proof fn lemma_child(&self, id: NodeId, var: u32, high: bool, e: Point)
        requires
            self.wf(),
            self.has(id),
            var <= self.tests(id),
            var < u32::MAX,
        ensures
            self.has(child(self.nodes(), id, var, high)),
            self.value(child(self.nodes(), id, var, high), e) == self.value(id, with_value(e, var, high)),
    {
        if self.tests(id) == var {
            assert(id >= 2);
            assert(node_ok(self.nodes(), id as int));
            self.lemma_cofactor(id, e);
        } else {
            lemma_value_local(self.nodes(), id, e, with_value(e, var, high));
        }
    }

    /// A node whose function does not depend on variables before one does
    /// not test them.
    proof fn lemma_tests_late(&self, r: NodeId, var: u32)
        requires
            self.wf(),
            self.has(r),
            forall|v: u32, e: Point, value: bool| v < var ==> #[trigger] self.value(r, with_value(e, v, value)) == self.value(r, e),
        ensures
            var <= self.tests(r),
    {
        if self.tests(r) < var {
            let n = self.nodes()[r as int];
            assert(r >= 2);
            assert(node_ok(self.nodes(), r as int));
            assert forall|e: Point| #[trigger] self.value(n.low, e) == self.value(n.high, e) by {
                self.lemma_cofactor(r, e);
                assert(self.value(r, with_value(e, n.var, false)) == self.value(r, e));
                assert(self.value(r, with_value(e, n.var, true)) == self.value(r, e));
            }
            self.law_functions_are_canonical(n.low, n.high);
        }
    }

    /// The children of a node with a combined function have the combined
    /// functions of the children.
    proof fn lemma_combined_child(&self, op: Op, a: NodeId, b: NodeId, r: NodeId, var: u32, high: bool)
        requires
            self.wf(),
            self.has(a),
            self.has(b),
            var <= self.tests(a),
            var <= self.tests(b),
            var < u32::MAX,
            self.combines(op, a, b, r),
        ensures
            var <= self.tests(r),
            self.combines(
                op,
                child(self.nodes(), a, var, high),
                child(self.nodes(), b, var, high),
                child(self.nodes(), r, var, high),
            ),
    {
        assert forall|v: u32, e: Point, value: bool| v < var implies #[trigger] self.value(r, with_value(e, v, value)) == self.value(r, e) by {
            lemma_value_local(self.nodes(), a, e, with_value(e, v, value));
            lemma_value_local(self.nodes(), b, e, with_value(e, v, value));
        }
        self.lemma_tests_late(r, var);
        let (ca, cb, cr) = (child(self.nodes(), a, var, high), child(self.nodes(), b, var, high), child(self.nodes(), r, var, high));
        assert forall|e: Point| #[trigger] self.value(cr, e) == op.of(self.value(ca, e), self.value(cb, e)) by {
            self.lemma_child(a, var, high, e);
            self.lemma_child(b, var, high, e);
            self.lemma_child(r, var, high, e);
        }
        self.lemma_child(r, var, high, |v: u32| true);
    }

    /// The same of the complement.
    proof fn lemma_inverse_child(&self, id: NodeId, r: NodeId, high: bool)
        requires
            self.wf(),
            self.has(id),
            id >= 2,
            self.inverts(id, r),
        ensures
            self.tests(id) <= self.tests(r),
            self.inverts(child(self.nodes(), id, self.tests(id), high), child(self.nodes(), r, self.tests(id), high)),
    {
        let var = self.tests(id);
        assert(node_ok(self.nodes(), id as int));
        assert forall|v: u32, e: Point, value: bool| v < var implies #[trigger] self.value(r, with_value(e, v, value)) == self.value(r, e) by {
            lemma_value_local(self.nodes(), id, e, with_value(e, v, value));
        }
        self.lemma_tests_late(r, var);
        let (ci, cr) = (child(self.nodes(), id, var, high), child(self.nodes(), r, var, high));
        assert forall|e: Point| #[trigger] self.value(cr, e) == !self.value(ci, e) by {
            self.lemma_child(id, var, high, e);
            self.lemma_child(r, var, high, e);
        }
        self.lemma_child(r, var, high, |v: u32| true);
    }

    /// A node stands for itself among its cofactors.
    proof fn lemma_has_test(&self, r: NodeId, var: u32)
        requires
            self.wf(),
            self.has(r),
            var <= self.tests(r),
            var < u32::MAX,
            child(self.nodes(), r, var, false) != child(self.nodes(), r, var, true),
        ensures
            has_node(
                self.nodes(),
                (Node { var, low: child(self.nodes(), r, var, false), high: child(self.nodes(), r, var, true) }),
            ),
    {
        let n = self.nodes()[r as int];
        assert(n.var == var);
        if r < 2 {
            assert(n.var == u32::MAX);
        }
        assert(self.nodes()[r as int] == n);
    }

    /// The memos of a package hold in one that has grown.
    proof fn lemma_memos_kept(&self, before: &Bdd)
        requires
            before.wf(),
            self.extends(before),
            self.not_memo@ == before.not_memo@,
            self.and_memo@ == before.and_memo@,
            self.or_memo@ == before.or_memo@,
        ensures
            self.not_ok(),
            self.memo_ok(self.and_memo@, Op::And),
            self.memo_ok(self.or_memo@, Op::Or),
    {
        reveal(Bdd::not_ok);
        reveal(Bdd::memo_ok);
        let e0: Point = |v: u32| true;
        assert forall|id: u32| #[trigger] self.not_memo@.contains_key(id) implies {
            let r = self.not_memo@[id];
            &&& self.has(id)
            &&& self.has(r)
            &&& self.tests(id) <= self.tests(r)
            &&& !self.exceeded ==> forall|e: Point| #[trigger] self.value(r, e) == !self.value(id, e)
        } by {
            assert(before.not_memo@.contains_key(id));
            let r = self.not_memo@[id];
            self.law_growing_keeps_functions(before, id, e0);
            self.law_growing_keeps_functions(before, r, e0);
            if !self.exceeded {
                assert forall|e: Point| #[trigger] self.value(r, e) == !self.value(id, e) by {
                    self.law_growing_keeps_functions(before, id, e);
                    self.law_growing_keeps_functions(before, r, e);
                    assert(before.value(r, e) == !before.value(id, e));
                }
            }
        }
        self.lemma_memo_kept(before, self.and_memo@, Op::And);
        self.lemma_memo_kept(before, self.or_memo@, Op::Or);
    }

    proof fn lemma_memo_kept(&self, before: &Bdd, memo: Map<u64, NodeId>, op: Op)
        requires
            before.wf(),
            before.memo_ok(memo, op),
            self.extends(before),
        ensures
            self.memo_ok(memo, op),
    {
        reveal(Bdd::memo_ok);
        let e0: Point = |v: u32| true;
        assert forall|a: NodeId, b: NodeId| #[trigger] memo.contains_key(pair_key(a, b)) implies {
            let r = memo[pair_key(a, b)];
            &&& self.has(a)
            &&& self.has(b)
            &&& self.has(r)
            &&& self.tests(a) <= self.tests(r) || self.tests(b) <= self.tests(r)
            &&& !self.exceeded ==> forall|e: Point| #[trigger] self.value(r, e) == op.of(self.value(a, e), self.value(b, e))
        } by {
            let r = memo[pair_key(a, b)];
            self.law_growing_keeps_functions(before, a, e0);
            self.law_growing_keeps_functions(before, b, e0);
            self.law_growing_keeps_functions(before, r, e0);
            if !self.exceeded {
                assert forall|e: Point| #[trigger] self.value(r, e) == op.of(self.value(a, e), self.value(b, e)) by {
                    self.law_growing_keeps_functions(before, a, e);
                    self.law_growing_keeps_functions(before, b, e);
                    self.law_growing_keeps_functions(before, r, e);
                    assert(before.value(r, e) == op.of(before.value(a, e), before.value(b, e)));
                }
            }
        }
    }

    /// A package that stops allocating only where handles end.
    pub fn new() -> (bdd: Bdd)
        ensures
            bdd.wf(),
            bdd.nodes().len() == 2,
            bdd.bound() == usize::MAX,
            !bdd.over(),
    {
        Bdd::with_limit(usize::MAX)
    }

    /// A package that stops allocating past `limit` nodes.
    ///
    /// A measurement of "how big does it get" has to be able to answer
    /// "bigger than you can afford" without taking the machine down.
    pub fn with_limit(limit: usize) -> (bdd: Bdd)
        ensures
            bdd.wf(),
            bdd.nodes().len() == 2,
            bdd.bound() == limit,
            !bdd.over(),
    {
        let terminal = Node { var: u32::MAX, low: FALSE, high: TRUE };
        let bdd = Bdd {
            nodes: vec![terminal, terminal],
            unique: HashMap::new(),
            and_memo: HashMap::new(),
            or_memo: HashMap::new(),
            not_memo: HashMap::new(),
            limit,
            exceeded: false,
        };
        proof {
            reveal(Bdd::not_ok);
            reveal(Bdd::memo_ok);
            reveal(Bdd::unique_ok);
        }
        bdd
    }

    /// Whether the node limit was hit. Every result computed after that is
    /// meaningless and must be discarded.
    pub fn exceeded(&self) -> (exceeded: bool)
        ensures
            exceeded == self.over(),
    {
        self.exceeded
    }

    /// Total nodes ever created, terminals included: the package's peak
    /// footprint, since nothing is collected.
    pub fn allocated(&self) -> (count: usize)
        ensures
            count == self.nodes().len(),
    {
        self.nodes.len()
    }

    fn is_terminal(id: NodeId) -> (terminal: bool)
        ensures
            terminal == (id < 2),
    {
        id <= TRUE
    }

    fn var_of(&self, id: NodeId) -> (var: u32)
        requires
            self.has(id),
        ensures
            var == self.tests(id),
    {
        self.nodes[id as usize].var
    }

    fn key_of(node: Node) -> (key: u128)
        ensures
            key == node_key(node),
    {
        node.var as u128 * 0x1_0000_0000_0000_0000 + node.low as u128 * 0x1_0000_0000 + node.high as u128
    }

    /// The reduced node for `(var, low, high)`: an unnecessary test is
    /// dropped and structurally equal nodes are shared, which together are
    /// what make the representation canonical.
    fn mk(&mut self, var: u32, low: NodeId, high: NodeId) -> (id: NodeId)
        requires
            old(self).wf(),
            old(self).has(low),
            old(self).has(high),
            var < old(self).tests(low),
            var < old(self).tests(high),
        ensures
            final(self).wf(),
            final(self).extends(old(self)),
            final(self).not_memo@ == old(self).not_memo@,
            final(self).and_memo@ == old(self).and_memo@,
            final(self).or_memo@ == old(self).or_memo@,
            final(self).nodes().len() <= old(self).nodes().len() + 1,
            low == high || has_node(old(self).nodes(), (Node { var, low, high })) ==> final(self).nodes() == old(self).nodes(),
            final(self).has(id),
            var <= final(self).tests(id),
            !final(self).over() ==> forall|e: Point| #[trigger]
                final(self).value(id, e) == (if e(var) { old(self).value(high, e) } else { old(self).value(low, e) }),
            final(self).over() <==> old(self).over() || (low != high && !has_node(old(self).nodes(), (Node { var, low, high }))
                && old(self).nodes().len() >= old(self).bound()) || (low != high && !has_node(old(self).nodes(), (Node { var, low, high }))
                && old(self).nodes().len() >= u32::MAX),
    {
        let ghost before = *self;
        proof {
            reveal(Bdd::unique_ok);
            assert(self.nodes().take(self.nodes().len() as int) =~= self.nodes());
        }
        if low == high {
            return low;
        }
        let node = Node { var, low, high };
        let key = Bdd::key_of(node);
        if let Some(found) = self.unique.get(&key) {
            let id = *found;
            proof {
                assert(self.unique@.contains_key(node_key(node)));
                assert(self.nodes@[id as int] == node);
                assert(node_ok(self.nodes@, id as int));
            }
            return id;
        }
        proof {
            assert forall|i: int| 2 <= i < self.nodes@.len() implies #[trigger] self.nodes@[i] != node by {
                assert(self.unique@.contains_key(node_key(self.nodes@[i])));
            }
        }
        if self.nodes.len() >= self.limit || self.nodes.len() >= u32::MAX as usize {
            self.exceeded = true;
            proof {
                self.lemma_memos_kept(&before);
                assert(self.unique_ok());
            }
            return FALSE;
        }
        let id = self.nodes.len() as u32;
        self.nodes.push(node);
        self.unique.insert(key, id);
        proof {
            let nodes = self.nodes@;
            assert(nodes.take(before.nodes().len() as int) =~= before.nodes());
            assert(self.extends(&before));
            assert forall|i: int| 2 <= i < nodes.len() implies #[trigger] node_ok(nodes, i) by {
                if i < before.nodes().len() {
                    assert(node_ok(before.nodes(), i));
                }
            }
            assert forall|i: int, j: int| 2 <= i < nodes.len() && 2 <= j < nodes.len() && #[trigger] same_node(nodes, i, j) implies i == j by {
                if i < before.nodes().len() && j < before.nodes().len() {
                    assert(same_node(before.nodes(), i, j));
                }
            }
            assert(ordered(nodes));
            assert forall|n: Node| #[trigger] self.unique@.contains_key(node_key(n)) implies {
                let r = self.unique@[node_key(n)];
                2 <= r < nodes.len() && nodes[r as int] == n
            } by {
                if node_key(n) == key {
                    lemma_node_key(n, node);
                } else {
                    assert(before.unique@.contains_key(node_key(n)));
                }
            }
            self.lemma_memos_kept(&before);
            assert forall|e: Point| #[trigger] self.value(id, e) == (if e(var) { before.value(high, e) } else { before.value(low, e) }) by {
                self.law_growing_keeps_functions(&before, low, e);
                self.law_growing_keeps_functions(&before, high, e);
            }
        }
        id
    }

    /// The projection function of the variable at order index `var`.
    pub fn variable(&mut self, var: u32) -> (id: NodeId)
        requires
            old(self).wf(),
            var < u32::MAX,
        ensures
            final(self).wf(),
            final(self).extends(old(self)),
            final(self).has(id),
            !final(self).over() ==> forall|e: Point| #[trigger] final(self).value(id, e) == e(var),
            final(self).over() <==> old(self).over() || (!has_node(old(self).nodes(), (Node { var, low: FALSE, high: TRUE })) && (old(
                self,
            ).nodes().len() >= old(self).bound() || old(self).nodes().len() >= u32::MAX)),
            final(self).nodes().len() <= old(self).nodes().len() + 1,
    {
        self.mk(var, FALSE, TRUE)
    }

    /// The complement of a function.
    pub fn not(&mut self, id: NodeId) -> (result: NodeId)
        requires
            old(self).wf(),
            old(self).has(id),
        ensures
            final(self).wf(),
            final(self).extends(old(self)),
            final(self).has(result),
            old(self).tests(id) <= final(self).tests(result),
            !final(self).over() ==> forall|e: Point| #[trigger] final(self).value(result, e) == !final(self).value(id, e),
            final(self).nodes().len() <= old(self).nodes().len() + paths(old(self).nodes(), id),
            !old(self).over() && old(self).holds_inverse(id) ==> final(self).nodes() == old(self).nodes() && !final(self).over(),
        decreases id,
    {
        let ghost before = *self;
        assert(self.nodes().take(self.nodes().len() as int) =~= self.nodes());
        if Bdd::is_terminal(id) {
            return 1 - id;
        }
        if let Some(cached) = self.not_memo.get(&id) {
            proof {
                reveal(Bdd::not_ok);
            }
            return *cached;
        }
        let node = self.nodes[id as usize];
        assert(node_ok(self.nodes(), id as int));
        let ghost there = !before.over() && before.holds_inverse(id);
        let ghost r = choose|r: NodeId| #[trigger] before.inverts(id, r);
        proof {
            if there {
                before.lemma_inverse_child(id, r, false);
                before.lemma_inverse_child(id, r, true);
            }
        }
        let low = self.not(node.low);
        let ghost first = *self;
        proof {
            if there {
                assert(before.inverts(node.low, child(before.nodes(), r, node.var, false)));
                assert(first.nodes() == before.nodes());
                let r_low = child(before.nodes(), r, node.var, false);
                assert forall|e: Point| #[trigger] first.value(low, e) == first.value(r_low, e) by {
                    assert(first.value(low, e) == !first.value(node.low, e));
                    assert(before.value(r_low, e) == !before.value(node.low, e));
                }
                first.law_functions_are_canonical(low, r_low);
                assert(first.inverts(node.high, child(before.nodes(), r, node.var, true))) by {
                    assert(before.inverts(node.high, child(before.nodes(), r, node.var, true)));
                    assert forall|e: Point| #[trigger] first.value(child(before.nodes(), r, node.var, true), e) == !first.value(node.high, e) by {
                        assert(before.value(child(before.nodes(), r, node.var, true), e) == !before.value(node.high, e));
                    }
                }
            }
            lemma_still(&first, &before, node.high);
            lemma_paths_kept(before.nodes(), first.nodes(), node.high);
        }
        let high = self.not(node.high);
        let ghost second = *self;
        proof {
            lemma_still(&second, &first, low);
            lemma_grown(&second, &first, &before);
            lemma_still(&second, &before, id);
            lemma_still(&first, &before, node.low);
            if there {
                let r_high = child(before.nodes(), r, node.var, true);
                assert forall|e: Point| #[trigger] second.value(high, e) == second.value(r_high, e) by {
                    assert(second.value(high, e) == !second.value(node.high, e));
                    assert(first.value(r_high, e) == !first.value(node.high, e));
                }
                second.law_functions_are_canonical(high, r_high);
                if low != high {
                    before.lemma_has_test(r, node.var);
                }
            }
        }
        let result = self.mk(node.var, low, high);
        let ghost third = *self;
        proof {
            lemma_grown(&third, &second, &before);
            lemma_still(&third, &before, id);
            if !third.over() {
                assert forall|e: Point| #[trigger] third.value(result, e) == !third.value(id, e) by {
                    second.law_growing_keeps_functions(&first, low, e);
                    first.law_growing_keeps_functions(&before, node.low, e);
                    first.law_growing_keeps_functions(&before, node.high, e);
                    second.law_growing_keeps_functions(&first, node.high, e);
                    third.law_growing_keeps_functions(&before, id, e);
                    assert(first.value(low, e) == !first.value(node.low, e));
                    assert(second.value(high, e) == !second.value(node.high, e));
                }
            }
        }
        self.not_memo.insert(id, result);
        proof {
            reveal(Bdd::not_ok);
            assert(self.not_ok()) by {
                assert forall|k: u32| #[trigger] self.not_memo@.contains_key(k) implies {
                    let r = self.not_memo@[k];
                    &&& self.has(k)
                    &&& self.has(r)
                    &&& self.tests(k) <= self.tests(r)
                    &&& !self.exceeded ==> forall|e: Point| #[trigger] self.value(r, e) == !self.value(k, e)
                } by {
                    if k != id {
                        assert(third.not_memo@.contains_key(k));
                        let r = third.not_memo@[k];
                        if !self.exceeded {
                            assert forall|e: Point| #[trigger] self.value(r, e) == !self.value(k, e) by {
                                assert(third.value(r, e) == !third.value(k, e));
                            }
                        }
                    } else if !self.exceeded {
                        assert forall|e: Point| #[trigger] self.value(result, e) == !self.value(id, e) by {
                            assert(third.value(result, e) == !third.value(id, e));
                        }
                    }
                }
            }
            third.lemma_same_nodes(self);
            assert(self.extends(&before));
            if !self.exceeded {
                assert forall|e: Point| #[trigger] self.value(result, e) == !self.value(id, e) by {
                    assert(third.value(result, e) == !third.value(id, e));
                }
            }
        }
        result
    }

    /// Predicates on the nodes alone hold of packages with the same nodes.
    proof fn lemma_same_nodes(&self, other: &Bdd)
        requires
            self.wf(),
            other.nodes@ == self.nodes@,
            other.exceeded == self.exceeded,
            other.unique@ == self.unique@,
        ensures
            other.unique_ok(),
            other.and_memo@ == self.and_memo@ ==> other.memo_ok(other.and_memo@, Op::And),
            other.or_memo@ == self.or_memo@ ==> other.memo_ok(other.or_memo@, Op::Or),
            other.not_memo@ == self.not_memo@ ==> other.not_ok(),
    {
        reveal(Bdd::unique_ok);
        reveal(Bdd::memo_ok);
        reveal(Bdd::not_ok);
        assert forall|id: NodeId, e: Point| #[trigger] other.value(id, e) == self.value(id, e) by {}
    }
}

impl Bdd {
    /// The conjunction of two functions.
    pub fn and(&mut self, a: NodeId, b: NodeId) -> (result: NodeId)
        requires
            old(self).wf(),
            old(self).has(a),
            old(self).has(b),
        ensures
            final(self).wf(),
            final(self).extends(old(self)),
            final(self).has(result),
            !final(self).over() ==> forall|e: Point| #[trigger]
                final(self).value(result, e) == (final(self).value(a, e) && final(self).value(b, e)),
            final(self).nodes().len() <= old(self).nodes().len() + pairs(old(self).nodes(), a, b),
            !old(self).over() && old(self).holds(Op::And, a, b) ==> final(self).nodes() == old(self).nodes() && !final(self).over(),
            !final(self).over() ==> final(self).holds(Op::And, a, b),
    {
        let result = self.apply(Op::And, a, b);
        proof {
            if !self.over() {
                assert forall|e: Point| #[trigger] self.value(result, e) == (self.value(a, e) && self.value(b, e)) by {
                    assert(self.value(result, e) == Op::And.of(self.value(a, e), self.value(b, e)));
                }
                assert(self.combines(Op::And, a, b, result));
            }
        }
        result
    }

    /// The disjunction of two functions.
    pub fn or(&mut self, a: NodeId, b: NodeId) -> (result: NodeId)
        requires
            old(self).wf(),
            old(self).has(a),
            old(self).has(b),
        ensures
            final(self).wf(),
            final(self).extends(old(self)),
            final(self).has(result),
            !final(self).over() ==> forall|e: Point| #[trigger]
                final(self).value(result, e) == (final(self).value(a, e) || final(self).value(b, e)),
            final(self).nodes().len() <= old(self).nodes().len() + pairs(old(self).nodes(), a, b),
            !old(self).over() && old(self).holds(Op::Or, a, b) ==> final(self).nodes() == old(self).nodes() && !final(self).over(),
            !final(self).over() ==> final(self).holds(Op::Or, a, b),
    {
        let result = self.apply(Op::Or, a, b);
        proof {
            if !self.over() {
                assert forall|e: Point| #[trigger] self.value(result, e) == (self.value(a, e) || self.value(b, e)) by {
                    assert(self.value(result, e) == Op::Or.of(self.value(a, e), self.value(b, e)));
                }
                assert(self.combines(Op::Or, a, b, result));
            }
        }
        result
    }

    /// The cofactor of a function by a variable that it does not test after
    /// others.
    fn cofactor(&self, id: NodeId, var: u32, high: bool) -> (result: NodeId)
        requires
            self.wf(),
            self.has(id),
            var <= self.tests(id),
            var < u32::MAX,
        ensures
            result <= id,
            result == child(self.nodes(), id, var, high),
            self.tests(id) == var ==> result < id,
            self.has(result),
            var < self.tests(result),
            forall|e: Point| e(var) == high ==> #[trigger] self.value(id, e) == self.value(result, e),
    {
        if self.var_of(id) == var {
            let node = self.nodes[id as usize];
            assert(node_ok(self.nodes(), id as int));
            if high {
                node.high
            } else {
                node.low
            }
        } else {
            id
        }
    }

    /// The results remembered for an operation.
    spec fn memo(&self, op: Op) -> Map<u64, NodeId> {
        match op {
            Op::And => self.and_memo@,
            Op::Or => self.or_memo@,
        }
    }

    /// An earlier result.
    fn recall(&self, op: Op, a: NodeId, b: NodeId) -> (result: Option<NodeId>)
        requires
            self.wf(),
        ensures
            result == (if self.memo(op).contains_key(pair_key(a, b)) { Some(self.memo(op)[pair_key(a, b)]) } else { None }),
            result matches Some(r) ==> self.has(r) && (self.tests(a) <= self.tests(r) || self.tests(b) <= self.tests(r)) && (!self.over()
                ==> forall|e: Point| #[trigger] self.value(r, e) == op.of(self.value(a, e), self.value(b, e))),
    {
        let key: u64 = a as u64 * 0x1_0000_0000 + b as u64;
        proof {
            reveal(Bdd::memo_ok);
            assert(key == pair_key(a, b));
        }
        let found = match op {
            Op::And => self.and_memo.get(&key),
            Op::Or => self.or_memo.get(&key),
        };
        match found {
            Some(cached) => Some(*cached),
            None => None,
        }
    }

    /// Remembers a result.
    fn remember(&mut self, op: Op, a: NodeId, b: NodeId, result: NodeId)
        requires
            old(self).wf(),
            old(self).has(a),
            old(self).has(b),
            old(self).has(result),
            old(self).tests(a) <= old(self).tests(result) || old(self).tests(b) <= old(self).tests(result),
            !old(self).over() ==> forall|e: Point| #[trigger] old(self).value(result, e) == op.of(old(self).value(a, e), old(self).value(b, e)),
        ensures
            final(self).wf(),
            final(self).nodes() == old(self).nodes(),
            final(self).over() == old(self).over(),
            final(self).bound() == old(self).bound(),
            final(self).memo(op) == old(self).memo(op).insert(pair_key(a, b), result),
    {
        let ghost before = *self;
        let key: u64 = a as u64 * 0x1_0000_0000 + b as u64;
        match op {
            Op::And => {
                self.and_memo.insert(key, result);
            },
            Op::Or => {
                self.or_memo.insert(key, result);
            },
        }
        proof {
            before.lemma_same_nodes(self);
            let memo = match op {
                Op::And => before.and_memo@,
                Op::Or => before.or_memo@,
            };
            self.lemma_remembered(&before, op, memo, key, a, b, result);
        }
    }

    proof fn lemma_remembered(&self, before: &Bdd, op: Op, memo: Map<u64, NodeId>, key: u64, a: NodeId, b: NodeId, result: NodeId)
        requires
            before.wf(),
            before.memo_ok(memo, op),
            self.nodes@ == before.nodes@,
            self.exceeded == before.exceeded,
            before.has(a),
            before.has(b),
            before.has(result),
            before.tests(a) <= before.tests(result) || before.tests(b) <= before.tests(result),
            !before.over() ==> forall|e: Point| #[trigger] before.value(result, e) == op.of(before.value(a, e), before.value(b, e)),
            key == pair_key(a, b),
        ensures
            self.memo_ok(memo.insert(key, result), op),
    {
        reveal(Bdd::memo_ok);
        let after = memo.insert(key, result);
        assert forall|c: NodeId, d: NodeId| #[trigger] after.contains_key(pair_key(c, d)) implies {
            let r = after[pair_key(c, d)];
            &&& self.has(c)
            &&& self.has(d)
            &&& self.has(r)
            &&& self.tests(c) <= self.tests(r) || self.tests(d) <= self.tests(r)
            &&& !self.exceeded ==> forall|e: Point| #[trigger] self.value(r, e) == op.of(self.value(c, e), self.value(d, e))
        } by {
            let r = after[pair_key(c, d)];
            if pair_key(c, d) == key {
                lemma_pair_key(a, b, c, d);
            } else {
                assert(memo.contains_key(pair_key(c, d)));
            }
            if !self.exceeded {
                assert forall|e: Point| #[trigger] self.value(r, e) == op.of(self.value(c, e), self.value(d, e)) by {
                    assert(before.value(r, e) == op.of(before.value(c, e), before.value(d, e)));
                }
            }
        }
    }

    /// The combination of two functions by an operation.
    #[verifier::rlimit(80)]
    fn apply(&mut self, op: Op, a: NodeId, b: NodeId) -> (result: NodeId)
        requires
            old(self).wf(),
            old(self).has(a),
            old(self).has(b),
        ensures
            final(self).wf(),
            final(self).extends(old(self)),
            final(self).has(result),
            old(self).tests(a) <= final(self).tests(result) || old(self).tests(b) <= final(self).tests(result),
            !final(self).over() ==> forall|e: Point| #[trigger]
                final(self).value(result, e) == op.of(final(self).value(a, e), final(self).value(b, e)),
            final(self).nodes().len() <= old(self).nodes().len() + pairs(old(self).nodes(), a, b),
            !old(self).over() && old(self).holds(op, a, b) ==> final(self).nodes() == old(self).nodes() && !final(self).over(),
        decreases a + b,
    {
        assert(self.nodes().take(self.nodes().len() as int) =~= self.nodes());
        match op {
            Op::And => {
                if a == FALSE || b == FALSE {
                    return FALSE;
                }
                if a == TRUE {
                    return b;
                }
                if b == TRUE || a == b {
                    return a;
                }
            },
            Op::Or => {
                if a == TRUE || b == TRUE {
                    return TRUE;
                }
                if a == FALSE {
                    return b;
                }
                if b == FALSE || a == b {
                    return a;
                }
            },
        }
        let ghost before = *self;
        let ghost given = (a, b);
        let (a, b) = if a <= b { (a, b) } else { (b, a) };
        proof {
            lemma_pairs_swap(self.nodes(), a, b);
        }
        if let Some(cached) = self.recall(op, a, b) {
            proof {
                if !self.over() {
                    assert forall|e: Point| #[trigger] self.value(cached, e) == op.of(self.value(given.0, e), self.value(given.1, e)) by {
                        assert(self.value(cached, e) == op.of(self.value(a, e), self.value(b, e)));
                    }
                }
            }
            return cached;
        }
        proof {
            assert(node_ok(self.nodes(), a as int));
            assert(node_ok(self.nodes(), b as int));
        }
        let var = if self.var_of(a) <= self.var_of(b) {
            self.var_of(a)
        } else {
            self.var_of(b)
        };
        let a_low = self.cofactor(a, var, false);
        let b_low = self.cofactor(b, var, false);
        let a_high = self.cofactor(a, var, true);
        let b_high = self.cofactor(b, var, true);
        let ghost there = !before.over() && before.holds(op, given.0, given.1);
        let ghost r = choose|r: NodeId| #[trigger] before.combines(op, given.0, given.1, r);
        let ghost r_low = child(before.nodes(), r, var, false);
        let ghost r_high = child(before.nodes(), r, var, true);
        proof {
            if there {
                assert(before.combines(op, a, b, r)) by {
                    assert forall|e: Point| #[trigger] before.value(r, e) == op.of(before.value(a, e), before.value(b, e)) by {
                        assert(before.value(r, e) == op.of(before.value(given.0, e), before.value(given.1, e)));
                    }
                }
                before.lemma_combined_child(op, a, b, r, var, false);
                before.lemma_combined_child(op, a, b, r, var, true);
            }
        }
        let low = self.apply(op, a_low, b_low);
        let ghost first = *self;
        proof {
            if there {
                assert(before.combines(op, a_low, b_low, r_low));
                assert(first.nodes() == before.nodes());
                assert forall|e: Point| #[trigger] first.value(low, e) == first.value(r_low, e) by {
                    assert(first.value(low, e) == op.of(first.value(a_low, e), first.value(b_low, e)));
                    assert(before.value(r_low, e) == op.of(before.value(a_low, e), before.value(b_low, e)));
                }
                first.law_functions_are_canonical(low, r_low);
                assert(first.combines(op, a_high, b_high, r_high)) by {
                    assert(before.combines(op, a_high, b_high, r_high));
                    assert forall|e: Point| #[trigger] first.value(r_high, e) == op.of(first.value(a_high, e), first.value(b_high, e)) by {
                        assert(before.value(r_high, e) == op.of(before.value(a_high, e), before.value(b_high, e)));
                    }
                }
            }
            lemma_still(&first, &before, a_high);
            lemma_still(&first, &before, b_high);
            lemma_still(&first, &before, a_low);
            lemma_still(&first, &before, b_low);
            lemma_pairs_kept(before.nodes(), first.nodes(), a_high, b_high);
        }
        let high = self.apply(op, a_high, b_high);
        let ghost second = *self;
        proof {
            lemma_still(&second, &first, low);
            lemma_grown(&second, &first, &before);
            if there {
                assert forall|e: Point| #[trigger] second.value(high, e) == second.value(r_high, e) by {
                    assert(second.value(high, e) == op.of(second.value(a_high, e), second.value(b_high, e)));
                    assert(first.value(r_high, e) == op.of(first.value(a_high, e), first.value(b_high, e)));
                }
                second.law_functions_are_canonical(high, r_high);
                if low != high {
                    before.lemma_has_test(r, var);
                }
            }
        }
        let result = self.mk(var, low, high);
        let ghost third = *self;
        proof {
            lemma_grown(&third, &second, &before);
            lemma_still(&third, &before, a);
            lemma_still(&third, &before, b);
            if !third.over() {
                assert forall|e: Point| #[trigger] third.value(result, e) == op.of(third.value(a, e), third.value(b, e)) by {
                    third.law_growing_keeps_functions(&before, a, e);
                    third.law_growing_keeps_functions(&before, b, e);
                    first.law_growing_keeps_functions(&before, a_low, e);
                    first.law_growing_keeps_functions(&before, b_low, e);
                    second.law_growing_keeps_functions(&before, a_high, e);
                    second.law_growing_keeps_functions(&before, b_high, e);
                    second.law_growing_keeps_functions(&first, low, e);
                    assert(first.value(low, e) == op.of(first.value(a_low, e), first.value(b_low, e)));
                    assert(second.value(high, e) == op.of(second.value(a_high, e), second.value(b_high, e)));
                    assert(before.value(a, e) == before.value(if e(var) { a_high } else { a_low }, e));
                    assert(before.value(b, e) == before.value(if e(var) { b_high } else { b_low }, e));
                }
            }
        }
        self.remember(op, a, b, result);
        proof {
            assert(self.nodes() == third.nodes());
            assert(self.extends(&before));
            if !self.over() {
                assert forall|e: Point| #[trigger] self.value(result, e) == op.of(self.value(given.0, e), self.value(given.1, e)) by {
                    assert(third.value(result, e) == op.of(third.value(a, e), third.value(b, e)));
                }
            }
        }
        result
    }

    /// The nodes reachable from `root`, terminals included: the size of
    /// *this* function rather than of the whole package.
    pub fn size(&self, root: NodeId) -> (count: usize)
        requires
            self.wf(),
            self.has(root),
        ensures
            count == reached_from(self.nodes(), root, 0),
    {
        let ghost nodes = self.nodes();
        let mut seen: Vec<bool> = Vec::new();
        let mut k: usize = 0;
        while k <= root as usize
            invariant
                k <= root + 1,
                root < u32::MAX,
                seen@ == Seq::new(k as nat, |i: int| false),
            decreases root + 1 - k,
        {
            seen.push(false);
            k += 1;
            assert(seen@ =~= Seq::new(k as nat, |i: int| false));
        }
        seen.set(root as usize, true);
        let mut count: usize = 0;
        let mut k: usize = root as usize + 1;
        while k > 0
            invariant
                k <= root + 1,
                nodes == self.nodes(),
                ordered(nodes),
                root < nodes.len(),
                seen@.len() == root + 1,
                count == reached_from(nodes, root, k as int),
                count <= root + 1 - k,
                forall|i: int| 0 <= i < k ==> (#[trigger] seen@[i] <==> marked(nodes, root, k as int, i as u32)),
            decreases k,
        {
            k -= 1;
            let ghost before = seen@;
            proof {
                assert(before[k as int] <==> marked(nodes, root, k + 1, k as u32));
                lemma_marked(nodes, root, k as u32);
            }
            if seen[k] {
                count += 1;
                if !Bdd::is_terminal(k as u32) {
                    let node = self.nodes[k];
                    assert(node_ok(nodes, k as int));
                    seen.set(node.low as usize, true);
                    seen.set(node.high as usize, true);
                }
            }
            proof {
                assert forall|i: int| 0 <= i < k implies (#[trigger] seen@[i] <==> marked(nodes, root, k as int, i as u32)) by {
                    assert(before[i] <==> marked(nodes, root, k + 1, i as u32));
                    lemma_marked_next(nodes, root, k as int, i as u32);
                }
            }
        }
        count
    }

    /// Builds the function given by an explicit truth table over `vars`
    /// variables, where the entry at index `i` is the value under the
    /// assignment whose variable `v` is bit `v` of `i`.
    ///
    /// The table has an entry for every assignment, so this is for
    /// measuring regions that an explicit fixpoint already enumerated, not
    /// for building anything large.
    pub fn from_truth_table(&mut self, table: &[bool], vars: u32) -> (id: NodeId)
        requires
            old(self).wf(),
            table@.len() == weight(vars as nat),
        ensures
            final(self).wf(),
            final(self).extends(old(self)),
            final(self).has(id),
            !final(self).over() ==> forall|e: Point| #[trigger] final(self).value(id, e) == table@[table_index(e, 0, vars as nat) as int],
            final(self).nodes().len() < old(self).nodes().len() + table@.len(),
    {
        let entries: usize = table.len();
        proof {
            if vars >= 64 {
                lemma_weight_mono(64, vars as nat);
                lemma_weight();
            }
        }
        self.build_table(table, 0, 1, 0, vars)
    }

    /// `prefix` fixes the variables below `var`; the entries it selects are
    /// those whose low bits agree with it.
    fn build_table(&mut self, table: &[bool], prefix: usize, step: usize, var: u32, vars: u32) -> (id: NodeId)
        requires
            old(self).wf(),
            var <= vars < u32::MAX,
            step == weight(var as nat),
            prefix < step,
            table@.len() == weight(vars as nat),
        ensures
            final(self).wf(),
            final(self).extends(old(self)),
            final(self).has(id),
            var <= final(self).tests(id),
            !final(self).over() ==> forall|e: Point| #[trigger]
                final(self).value(id, e) == table@[prefix + table_index(e, var as nat, vars as nat)],
            final(self).nodes().len() < old(self).nodes().len() + weight((vars - var) as nat),
        decreases vars - var,
    {
        let ghost before = *self;
        if var == vars {
            assert(self.nodes().take(self.nodes().len() as int) =~= self.nodes());
            return if table[prefix] {
                TRUE
            } else {
                FALSE
            };
        }
        let entries: usize = table.len();
        proof {
            lemma_weight_mono(var as nat + 1, vars as nat);
        }
        let next: usize = 2 * step;
        let other: usize = prefix + step;
        let low = self.build_table(table, prefix, next, var + 1, vars);
        let ghost first = *self;
        let high = self.build_table(table, other, next, var + 1, vars);
        let ghost second = *self;
        proof {
            lemma_still(&second, &first, low);
            lemma_grown(&second, &first, &before);
        }
        let result = self.mk(var, low, high);
        proof {
            lemma_grown(self, &second, &before);
            if !self.over() {
                assert forall|e: Point| #[trigger] self.value(result, e) == table@[prefix + table_index(e, var as nat, vars as nat)] by {
                    second.law_growing_keeps_functions(&first, low, e);
                    assert(first.value(low, e) == table@[prefix + table_index(e, var as nat + 1, vars as nat)]);
                    assert(second.value(high, e) == table@[other + table_index(e, var as nat + 1, vars as nat)]);
                }
            }
        }
        result
    }
}

/// The number of entries of a table grows with its variables.
proof fn lemma_weight_mono(v: nat, w: nat)
    requires
        v <= w,
    ensures
        weight(v) <= weight(w),
        weight(v) >= 1,
    decreases w,
{
    if v < w {
        lemma_weight_mono(v, (w - 1) as nat);
    } else if v > 0 {
        lemma_weight_mono((v - 1) as nat, (v - 1) as nat);
    }
}

/// A table that fits in memory has fewer variables.
proof fn lemma_weight()
    ensures
        weight(64) == 0x1_0000_0000_0000_0000,
{
    reveal_with_fuel(weight, 65);
}

/// The root, or a child of a reached node from `k` on.
spec fn marked(nodes: Seq<Node>, root: NodeId, k: int, id: NodeId) -> bool {
    id == root || exists|p: NodeId| k <= p && #[trigger] parent_of(nodes, root, p, id)
}

/// A reached decision node with the child.
spec fn parent_of(nodes: Seq<Node>, root: NodeId, p: NodeId, id: NodeId) -> bool {
    2 <= p <= root && p < nodes.len() && reaches(nodes, root, p) && (nodes[p as int].low == id || nodes[p as int].high == id)
}

proof fn lemma_marked_next(nodes: Seq<Node>, root: NodeId, k: int, id: NodeId)
    requires
        0 <= k <= root < nodes.len() <= u32::MAX,
    ensures
        marked(nodes, root, k, id) <==> marked(nodes, root, k + 1, id) || parent_of(nodes, root, k as u32, id),
{
    if marked(nodes, root, k, id) && id != root {
        let p = choose|p: NodeId| k <= p && #[trigger] parent_of(nodes, root, p, id);
        if p != k as u32 {
            assert(k + 1 <= p);
        }
    }
}

/// A node is marked by the nodes after it iff it is reached.
proof fn lemma_marked(nodes: Seq<Node>, root: NodeId, id: NodeId)
    requires
        ordered(nodes),
        root < nodes.len(),
        id <= root,
    ensures
        marked(nodes, root, id + 1, id) <==> reaches(nodes, root, id),
{
    if marked(nodes, root, id + 1, id) && id != root {
        let p = choose|p: NodeId| id + 1 <= p && #[trigger] parent_of(nodes, root, p, id);
        assert(node_ok(nodes, p as int));
        assert(reaches(nodes, p, id)) by {
            assert(reaches(nodes, id, id));
        }
        lemma_reaches(nodes, root, p, id);
    }
    if reaches(nodes, root, id) && id != root {
        let p = lemma_has_parent(nodes, root, id);
        assert(parent_of(nodes, root, p, id));
        assert(node_ok(nodes, p as int));
    }
}

proof fn lemma_reaches(nodes: Seq<Node>, a: NodeId, b: NodeId, c: NodeId)
    requires
        reaches(nodes, a, b),
        reaches(nodes, b, c),
    ensures
        reaches(nodes, a, c),
    decreases a,
{
    if a != b {
        let n = nodes[a as int];
        if n.low < a && reaches(nodes, n.low, b) {
            lemma_reaches(nodes, n.low, b, c);
        } else {
            lemma_reaches(nodes, n.high, b, c);
        }
    }
}

/// A reached node other than the root is a child of a reached node.
proof fn lemma_has_parent(nodes: Seq<Node>, root: NodeId, id: NodeId) -> (p: NodeId)
    requires
        ordered(nodes),
        root < nodes.len(),
        reaches(nodes, root, id),
        id != root,
    ensures
        parent_of(nodes, root, p, id),
    decreases root,
{
    let n = nodes[root as int];
    assert(reaches(nodes, root, root));
    if n.low == id || n.high == id {
        root
    } else {
        let child = if n.low < root && reaches(nodes, n.low, id) { n.low } else { n.high };
        let p = lemma_has_parent(nodes, child, id);
        assert(reaches(nodes, child, child));
        assert(reaches(nodes, root, child));
        lemma_reaches(nodes, root, child, p);
        p
    }
}

/// The nodes have a decision node.
pub open spec fn has_node(nodes: Seq<Node>, node: Node) -> bool {
    exists|i: int| 2 <= i < nodes.len() && #[trigger] nodes[i] == node
}

/// A node of a package is one of a package that has grown.
proof fn lemma_still(after: &Bdd, before: &Bdd, id: NodeId)
    requires
        after.extends(before),
        before.has(id),
    ensures
        after.has(id),
        after.tests(id) == before.tests(id),
        after.nodes()[id as int] == before.nodes()[id as int],
{
    assert(after.nodes().take(before.nodes().len() as int)[id as int] == before.nodes()[id as int]);
}

/// Growing is transitive.
proof fn lemma_grown(after: &Bdd, middle: &Bdd, before: &Bdd)
    requires
        after.extends(middle),
        middle.extends(before),
    ensures
        after.extends(before),
{
    assert(after.nodes().take(before.nodes().len() as int) =~= before.nodes()) by {
        assert forall|i: int| 0 <= i < before.nodes().len() implies after.nodes()[i] == before.nodes()[i] by {
            assert(after.nodes().take(middle.nodes().len() as int)[i] == middle.nodes()[i]);
            assert(middle.nodes().take(before.nodes().len() as int)[i] == before.nodes()[i]);
        }
    }
}

} // verus!
