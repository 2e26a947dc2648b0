//! Families of safety games.
use crate::aiger::builder::{lemma_grows, Aig, Point, BUILD_LIMIT};
use crate::aiger::safety::power;
use crate::text::{decimal, push_decimal};
use vstd::prelude::*;
use vstd::string::*;

verus! {

/// A name with a number.
fn numbered(prefix: &str, number: usize) -> (name: String)
    ensures
        name@ == prefix@ + decimal(number as nat),
{
    let mut name = String::new();
    name.append(prefix);
    push_decimal(&mut name, number as u64);
    assert(name@ =~= prefix@ + decimal(number as nat));
    name
}

/// What the next value of a latch is.
pub open spec fn next_is(aig: Aig, latch: int, f: spec_fn(Point) -> bool) -> bool {
    &&& aig.knows(aig.nexts@[latch].0)
    &&& forall|e: Point| #[trigger] aig.value(aig.nexts@[latch].0, e) == f(e)
}

/// Whether one of the literals is true.
pub open spec fn any_true(aig: Aig, lits: Seq<u64>, e: Point) -> bool {
    exists|i: int| 0 <= i < lits.len() && aig.value(#[trigger] lits[i], e)
}

/// The literals are those of the specification.
pub open spec fn all_known(aig: Aig, lits: Seq<u64>) -> bool {
    forall|i: int| 0 <= i < lits.len() ==> aig.knows(#[trigger] lits[i])
}

/// The next value of a latch does not change with more gates.
proof fn lemma_next_kept(after: Aig, before: Aig, latch: int, f: spec_fn(Point) -> bool)
    requires
        before.wf(),
        after.ands@.len() >= before.ands@.len(),
        after.ands@.take(before.ands@.len() as int) == before.ands@,
        after.input_names@ == before.input_names@,
        after.nexts@.len() == before.nexts@.len(),
        after.nexts@[latch] == before.nexts@[latch],
        next_is(before, latch, f),
    ensures
        next_is(after, latch, f),
{
    assert forall|e: Point| #[trigger] after.value(after.nexts@[latch].0, e) == f(e) by {
        after.law_gates_keep_values(&before, before.nexts@[latch].0, e);
        assert(before.value(before.nexts@[latch].0, e) == f(e));
    }
}

/// Which literals are true does not change with more gates.
proof fn lemma_any_kept(after: Aig, before: Aig, lits: Seq<u64>, e: Point)
    requires
        before.wf(),
        after.ands@.len() >= before.ands@.len(),
        after.ands@.take(before.ands@.len() as int) == before.ands@,
        after.input_names@ == before.input_names@,
        after.nexts@.len() == before.nexts@.len(),
        all_known(before, lits),
    ensures
        any_true(after, lits, e) == any_true(before, lits, e),
        all_known(after, lits),
{
    assert forall|i: int| 0 <= i < lits.len() implies after.value(#[trigger] lits[i], e) == before.value(lits[i], e) && after.knows(lits[i]) by {
        assert(before.knows(lits[i]));
        after.law_gates_keep_values(&before, lits[i], e);
    }
    if any_true(before, lits, e) {
        let i = choose|i: int| 0 <= i < lits.len() && before.value(#[trigger] lits[i], e);
        assert(after.value(lits[i], e));
    }
    if any_true(after, lits, e) {
        let i = choose|i: int| 0 <= i < lits.len() && after.value(#[trigger] lits[i], e);
        assert(before.value(lits[i], e));
    }
}

/// One more literal.
proof fn lemma_any_push(aig: Aig, lits: Seq<u64>, lit: u64, e: Point)
    ensures
        any_true(aig, lits.push(lit), e) == (any_true(aig, lits, e) || aig.value(lit, e)),
{
    let all = lits.push(lit);
    if any_true(aig, lits, e) {
        let i = choose|i: int| 0 <= i < lits.len() && aig.value(#[trigger] lits[i], e);
        assert(aig.value(all[i], e));
    }
    if aig.value(lit, e) {
        assert(aig.value(all[lits.len() as int], e));
    }
    if any_true(aig, all, e) {
        let i = choose|i: int| 0 <= i < all.len() && aig.value(#[trigger] all[i], e);
        if i < lits.len() {
            assert(aig.value(lits[i], e));
        }
    }
}

/// The age chain of a client: it waited one more step without a grant. The
/// ages of client `i` are the latches `i * b .. i * b + b`.
pub open spec fn age_next(n: int, b: int, latch: int) -> spec_fn(Point) -> bool {
    |e: Point|
        (if latch % b == 0 {
            e.inputs[latch / b]
        } else {
            e.state[latch - 1]
        }) && !e.inputs[n + latch / b]
}

/// Two of the grants before a pair coincide.
pub open spec fn double_grant(n: int, i: int, j: int, e: Point) -> bool {
    exists|p: int, q: int|
        0 <= p < q < n && (p < i || (p == i && q < j)) && #[trigger] e.inputs[n + p] && #[trigger] e.inputs[n + q]
}

/// One of the first clients waited too long.
pub open spec fn overdue(b: int, count: int, e: Point) -> bool {
    exists|i: int| 0 <= i < count && #[trigger] waits(b, i, e)
}

/// A client waited too long.
pub open spec fn waits(b: int, i: int, e: Point) -> bool {
    e.state[i * b + b - 1]
}

/// The size of an arbiter.
pub open spec fn arbiter_size(n: int, b: int) -> int {
    2 * n + 2 * (n * b) + 2 * (n * n) + n
}

/// The specification is that of a bounded-response arbiter: clients raise
/// requests, the controller issues grants, and an error fires when two
/// grants coincide or a request stays pending for `b` consecutive steps.
pub open spec fn is_arbiter(aig: Aig, n: int, b: int) -> bool {
    &&& aig.wf()
    &&& aig.input_names@.len() == 2 * n
    &&& forall|i: int| 0 <= i < n ==> (#[trigger] aig.input_names@[i])@ == "r"@ + decimal(i as nat)
    &&& forall|i: int| n <= i < 2 * n ==> (#[trigger] aig.input_names@[i])@ == "controllable_g"@ + decimal((i - n) as nat)
    &&& aig.nexts@.len() == n * b
    &&& forall|l: int| 0 <= l < n * b ==> next_is(aig, l, age_next(n, b, l)) && (#[trigger] aig.nexts@[l]).1 == 0
    &&& aig.outputs@.len() == 1
    &&& forall|e: Point| #[trigger] aig.value(aig.outputs@[0], e) == (overdue(b, n, e) || double_grant(n, n, 0, e))
}

proof fn lemma_client(n: int, b: int, l: int)
    requires
        0 <= l < n * b,
        0 < b,
    ensures
        0 <= l / b < n,
        0 <= l % b < b,
{
    assert(0 <= l / b < n && 0 <= l % b < b) by (nonlinear_arith)
        requires
            0 <= l < n * b,
            0 < b,
    ;
}

proof fn lemma_last_age(n: int, b: int, i: int)
    requires
        0 <= i < n,
        0 < b,
    ensures
        0 <= i * b + b - 1 < n * b,
        i * b >= 0,
{
    assert(0 <= i * b && i * b + b <= n * b) by (nonlinear_arith)
        requires
            0 <= i < n,
            0 < b,
    ;
}

/// The names of the inputs of an arbiter.
fn arbiter_names(n: usize) -> (names: Vec<String>)
    requires
        2 * n < BUILD_LIMIT,
    ensures
        names@.len() == 2 * n,
        forall|i: int| 0 <= i < n ==> (#[trigger] names@[i])@ == "r"@ + decimal(i as nat),
        forall|i: int| n <= i < 2 * n ==> (#[trigger] names@[i])@ == "controllable_g"@ + decimal((i - n) as nat),
{
    let mut names: Vec<String> = Vec::new();
    let mut k: usize = 0;
    while k < n
        invariant
            k <= n,
            names@.len() == k,
            forall|i: int| 0 <= i < k ==> (#[trigger] names@[i])@ == "r"@ + decimal(i as nat),
        decreases n - k,
    {
        names.push(numbered("r", k));
        k += 1;
    }
    let mut k: usize = 0;
    while k < n
        invariant
            k <= n,
            2 * n < BUILD_LIMIT,
            names@.len() == n + k,
            forall|i: int| 0 <= i < n ==> (#[trigger] names@[i])@ == "r"@ + decimal(i as nat),
            forall|i: int| n <= i < n + k ==> (#[trigger] names@[i])@ == "controllable_g"@ + decimal((i - n) as nat),
        decreases n - k,
    {
        names.push(numbered("controllable_g", k));
        k += 1;
    }
    names
}

/// A bounded-response arbiter. Realizable (at every depth) iff `n <= b`:
/// round-robin serves every client within `n - 1` steps of waiting.
pub fn arbiter(n: usize, b: usize) -> (aig: Aig)
    requires
        0 < b,
        arbiter_size(n as int, b as int) < BUILD_LIMIT,
    ensures
        is_arbiter(aig, n as int, b as int),
{
    let ghost gn = n as int;
    let ghost gb = b as int;
    proof {
        assert(gn * gb >= 0 && gn * gn >= 0) by (nonlinear_arith)
            requires
                gn >= 0,
                gb > 0,
        ;
    }
    let latches: usize = n * b;
    let names = arbiter_names(n);
    let mut aig = Aig::new(names, latches);
    let mut l: usize = 0;
    while l < latches
        invariant
            l <= latches,
            0 < b,
            gn == n,
            gb == b,
            latches == gn * gb,
            gn * gn >= 0,
            arbiter_size(gn, gb) < BUILD_LIMIT,
            aig.wf(),
            aig.input_names@ == names@,
            names@.len() == 2 * n,
            aig.nexts@.len() == latches,
            aig.outputs@.len() == 0,
            aig.ands@.len() <= l,
            forall|k: int| 0 <= k < l ==> next_is(aig, k, age_next(gn, gb, k)) && (#[trigger] aig.nexts@[k]).1 == 0,
        decreases latches - l,
    {
        proof {
            lemma_client(gn, gb, l as int);
            if l == 0 {
                assert(0int % gb == 0) by (nonlinear_arith)
                    requires
                        gb > 0,
                ;
            }
        }
        let client = l / b;
        let ghost before = aig;
        let source = if l % b == 0 {
            aig.input(client)
        } else {
            aig.latch(l - 1)
        };
        let grant = aig.input(n + client);
        let withheld = aig.not(grant);
        let next = aig.and(source, withheld);
        let ghost built = aig;
        aig.connect(l, next, 0);
        proof {
            let f = age_next(gn, gb, l as int);
            assert(aig.ands@.take(built.ands@.len() as int) =~= built.ands@);
            assert forall|e: Point| #[trigger] aig.value(next, e) == f(e) by {
                aig.law_gates_keep_values(&built, next, e);
                assert(built.value(next, e) == (before.value(source, e) && before.value(withheld, e)));
                assert(before.value(withheld, e) == !before.value(grant, e));
            }
            assert(next_is(aig, l as int, f));
            assert forall|k: int| 0 <= k < l + 1 implies next_is(aig, k, age_next(gn, gb, k)) && (#[trigger] aig.nexts@[k]).1 == 0 by {
                if k < l {
                    assert(before.nexts@[k].1 == 0);
                    assert(aig.ands@.take(before.ands@.len() as int) =~= before.ands@);
                    lemma_next_kept(aig, before, k, age_next(gn, gb, k));
                }
            }
        }
        l += 1;
    }
    let ghost connected = aig;
    let mut errors: Vec<u64> = Vec::new();
    let mut i: usize = 0;
    while i < n
        invariant
            i <= n,
            0 < b,
            gn == n,
            gb == b,
            latches == gn * gb,
            aig == connected,
            aig.wf(),
            aig.nexts@.len() == latches,
            errors@.len() == i,
            all_known(aig, errors@),
            forall|e: Point| #[trigger] any_true(aig, errors@, e) == overdue(gb, i as int, e),
        decreases n - i,
    {
        proof {
            lemma_last_age(gn, gb, i as int);
        }
        let ghost held = errors@;
        let age = aig.latch(i * b + b - 1);
        errors.push(age);
        proof {
            assert forall|e: Point| #[trigger] any_true(aig, errors@, e) == overdue(gb, i + 1, e) by {
                lemma_any_push(aig, held, age, e);
                assert(any_true(aig, held, e) == overdue(gb, i as int, e));
                assert(aig.value(age, e) == waits(gb, i as int, e));
                if overdue(gb, i + 1, e) {
                    let k = choose|k: int| 0 <= k < i + 1 && #[trigger] waits(gb, k, e);
                    assert(k < i ==> overdue(gb, i as int, e));
                }
                if overdue(gb, i as int, e) {
                    let k = choose|k: int| 0 <= k < i && #[trigger] waits(gb, k, e);
                    assert(0 <= k < i + 1 && waits(gb, k, e));
                }
            }
        }
        i += 1;
    }
    let ghost late = |e: Point| overdue(gb, gn, e);
    add_double_grants(&mut aig, n, &mut errors, Ghost(late));
    let ghost built = aig;
    let error = aig.or_all(&errors);
    let ghost joined = aig;
    aig.output(error);
    proof {
        assert(aig.ands@.take(joined.ands@.len() as int) =~= joined.ands@);
        lemma_grows(&joined, &built, &connected);
        assert(aig.ands@.take(connected.ands@.len() as int) =~= connected.ands@);
        assert forall|k: int| 0 <= k < gn * gb implies next_is(aig, k, age_next(gn, gb, k)) && (#[trigger] aig.nexts@[k]).1 == 0 by {
            assert(connected.nexts@[k].1 == 0);
            lemma_next_kept(aig, connected, k, age_next(gn, gb, k));
        }
        assert forall|e: Point| #[trigger] aig.value(aig.outputs@[0], e) == (overdue(gb, gn, e) || double_grant(gn, gn, 0, e)) by {
            aig.law_gates_keep_values(&joined, error, e);
            assert(joined.value(error, e) <==> any_true(built, errors@, e));
            assert(any_true(built, errors@, e) == (overdue(gb, gn, e) || double_grant(gn, gn, 0, e)));
        }
    }
    aig
}

/// Adds the errors of coinciding grants.
fn add_double_grants(aig: &mut Aig, n: usize, errors: &mut Vec<u64>, Ghost(base): Ghost<spec_fn(Point) -> bool>)
    requires
        old(aig).wf(),
        old(aig).input_names@.len() == 2 * n,
        old(errors)@.len() == n,
        all_known(*old(aig), old(errors)@),
        forall|e: Point| #[trigger] any_true(*old(aig), old(errors)@, e) == base(e),
        old(aig).leaves() + old(aig).ands@.len() + n * n + n * n + n < BUILD_LIMIT,
    ensures
        final(aig).wf(),
        final(aig).grows(old(aig)),
        all_known(*final(aig), final(errors)@),
        final(aig).leaves() + final(aig).ands@.len() + final(errors)@.len() < BUILD_LIMIT,
        forall|e: Point| #[trigger]
            any_true(*final(aig), final(errors)@, e) == (base(e) || double_grant(n as int, n as int, 0, e)),
{
    let ghost start = *aig;
    let ghost gn = n as int;
    let ghost limit = start.ands@.len();
    proof {
        assert(aig.ands@.take(aig.ands@.len() as int) =~= aig.ands@);
        assert forall|e: Point| !#[trigger] double_grant(gn, 0, 0, e) by {}
        assert(0 * gn == 0) by (nonlinear_arith);
    }
    let mut i: usize = 0;
    while i < n
        invariant
            i <= n,
            gn == n,
            start == *old(aig),
            start.input_names@.len() == 2 * n,
            limit == start.ands@.len(),
            start.leaves() + limit + gn * gn + gn * gn + gn < BUILD_LIMIT,
            aig.wf(),
            aig.grows(&start),
            aig.ands@.len() <= limit + i * gn,
            errors@.len() <= n + i * gn,
            all_known(*aig, errors@),
            forall|e: Point| #[trigger] any_true(*aig, errors@, e) == (base(e) || double_grant(gn, i as int, 0, e)),
        decreases n - i,
    {
        proof {
            lemma_square(gn, i as int);
            assert forall|e: Point| #[trigger] double_grant(gn, i as int, i + 1, e) == double_grant(gn, i as int, 0, e) by {
                lemma_no_pair(gn, i as int, e);
            }
            assert forall|e: Point| #[trigger] any_true(*aig, errors@, e) == (base(e) || double_grant(gn, i as int, i + 1, e)) by {}
        }
        let mut j: usize = i + 1;
        while j < n
            invariant
                i < j <= n,
                gn == n,
                start == *old(aig),
                start.input_names@.len() == 2 * n,
                limit == start.ands@.len(),
                start.leaves() + limit + gn * gn + gn * gn + gn < BUILD_LIMIT,
                i * gn + gn <= gn * gn,
                aig.wf(),
                aig.grows(&start),
                aig.ands@.len() <= limit + i * gn + j,
                errors@.len() <= n + i * gn + j,
                all_known(*aig, errors@),
                forall|e: Point| #[trigger] any_true(*aig, errors@, e) == (base(e) || double_grant(gn, i as int, j as int, e)),
            decreases n - j,
        {
            let ghost before = *aig;
            let ghost held = errors@;
            let first = aig.input(n + i);
            let second = aig.input(n + j);
            let double = aig.and(first, second);
            errors.push(double);
            proof {
                lemma_grows(aig, &before, &start);
                assert(all_known(*aig, errors@)) by {
                    lemma_any_kept(*aig, before, held, Point { inputs: Seq::empty(), state: Seq::empty() });
                }
                assert forall|e: Point| #[trigger] any_true(*aig, errors@, e) == (base(e) || double_grant(gn, i as int, j + 1, e)) by {
                    lemma_any_kept(*aig, before, held, e);
                    lemma_any_push(*aig, held, double, e);
                    assert(any_true(before, held, e) == (base(e) || double_grant(gn, i as int, j as int, e)));
                    assert(aig.value(double, e) == (before.value(first, e) && before.value(second, e)));
                    lemma_pair_added(gn, i as int, j as int, e);
                }
            }
            j += 1;
        }
        proof {
            assert forall|e: Point| #[trigger] any_true(*aig, errors@, e) == (base(e) || double_grant(gn, i + 1, 0, e)) by {
                assert(any_true(*aig, errors@, e) == (base(e) || double_grant(gn, i as int, gn, e)));
                lemma_row_done(gn, i as int, e);
            }
            assert((i + 1) * gn == i * gn + gn) by (nonlinear_arith);
        }
        i += 1;
    }
}

proof fn lemma_square(n: int, i: int)
    requires
        0 <= i < n,
    ensures
        i * n + n <= n * n,
{
    assert(i * n + n <= n * n) by (nonlinear_arith)
        requires
            0 <= i < n,
    ;
}

proof fn lemma_no_pair(n: int, i: int, e: Point)
    ensures
        double_grant(n, i, i + 1, e) == double_grant(n, i, 0, e),
{
    if double_grant(n, i, i + 1, e) {
        let (p, q) = choose|p: int, q: int|
            0 <= p < q < n && (p < i || (p == i && q < i + 1)) && #[trigger] e.inputs[n + p] && #[trigger] e.inputs[n + q];
        assert(e.inputs[n + p] && e.inputs[n + q]);
    }
    if double_grant(n, i, 0, e) {
        let (p, q) = choose|p: int, q: int|
            0 <= p < q < n && (p < i || (p == i && q < 0)) && #[trigger] e.inputs[n + p] && #[trigger] e.inputs[n + q];
        assert(e.inputs[n + p] && e.inputs[n + q]);
    }
}

proof fn lemma_pair_added(n: int, i: int, j: int, e: Point)
    requires
        0 <= i < j < n,
    ensures
        double_grant(n, i, j + 1, e) == (double_grant(n, i, j, e) || (e.inputs[n + i] && e.inputs[n + j])),
{
    if double_grant(n, i, j + 1, e) {
        let (p, q) = choose|p: int, q: int|
            0 <= p < q < n && (p < i || (p == i && q < j + 1)) && #[trigger] e.inputs[n + p] && #[trigger] e.inputs[n + q];
        assert(e.inputs[n + p] && e.inputs[n + q]);
    }
    if double_grant(n, i, j, e) {
        let (p, q) = choose|p: int, q: int|
            0 <= p < q < n && (p < i || (p == i && q < j)) && #[trigger] e.inputs[n + p] && #[trigger] e.inputs[n + q];
        assert(e.inputs[n + p] && e.inputs[n + q]);
    }
}

proof fn lemma_row_done(n: int, i: int, e: Point)
    ensures
        double_grant(n, i + 1, 0, e) == double_grant(n, i, n, e),
{
    if double_grant(n, i + 1, 0, e) {
        let (p, q) = choose|p: int, q: int|
            0 <= p < q < n && (p < i + 1 || (p == i + 1 && q < 0)) && #[trigger] e.inputs[n + p] && #[trigger] e.inputs[n + q];
        assert(e.inputs[n + p] && e.inputs[n + q]);
    }
    if double_grant(n, i, n, e) {
        let (p, q) = choose|p: int, q: int|
            0 <= p < q < n && (p < i || (p == i && q < n)) && #[trigger] e.inputs[n + p] && #[trigger] e.inputs[n + q];
        assert(e.inputs[n + p] && e.inputs[n + q]);
    }
}

/// The robot or the obstacle enters a cell: it moves up from the cell below
/// or down from the one above; on a ring both wrap around, in a corridor a
/// move off the end stays in place.
pub open spec fn enters(m: int, ring: bool, at: int, up: bool, c: int, e: Point) -> bool {
    ||| (ring || c > 0) && up && e.state[at + (c + m - 1) % m]
    ||| (ring || c + 1 < m) && !up && e.state[at + (c + 1) % m]
    ||| !ring && c == 0 && !up && e.state[at]
    ||| !ring && c + 1 == m && up && e.state[at + m - 1]
}

/// The next value of a latch of a pursuit: the robot is in the first `m`,
/// the obstacle in the others.
pub open spec fn pursuit_next(m: int, ring: bool, may_stay: bool, latch: int) -> spec_fn(Point) -> bool {
    |e: Point|
        if latch < m {
            enters(m, ring, 0, e.inputs[if may_stay { 2int } else { 1int }], latch, e)
        } else if may_stay {
            (e.inputs[1] && e.state[latch]) || (!e.inputs[1] && enters(m, ring, m, e.inputs[0], latch - m, e))
        } else {
            enters(m, ring, m, e.inputs[0], latch - m, e)
        }
}

/// Both are in one of the first cells.
pub open spec fn meet(m: int, count: int, e: Point) -> bool {
    exists|c: int| 0 <= c < count && #[trigger] both_in(m, c, e)
}

pub open spec fn both_in(m: int, c: int, e: Point) -> bool {
    e.state[c] && e.state[m + c]
}

/// The specification is that of a pursuit on a ring or in a corridor.
pub open spec fn is_pursuit(aig: Aig, m: int, ring: bool, may_stay: bool) -> bool {
    &&& aig.wf()
    &&& aig.input_names@.len() == if may_stay { 3int } else { 2int }
    &&& aig.input_names@[0]@ == "d"@
    &&& may_stay ==> aig.input_names@[1]@ == "s"@
    &&& aig.input_names@.last()@ == "controllable_e"@
    &&& aig.nexts@.len() == 2 * m
    &&& forall|l: int| 0 <= l < 2 * m ==> next_is(aig, l, pursuit_next(m, ring, may_stay, l)) && (#[trigger] aig.nexts@[l]).1 == (if l == 0 || l
        == m + m / 2 {
        1u64
    } else {
        0u64
    })
    &&& aig.outputs@.len() == 1
    &&& forall|e: Point| #[trigger] aig.value(aig.outputs@[0], e) == meet(m, m, e)
}

fn name(text: &str) -> (result: String)
    ensures
        result@ == text@,
{
    let mut result = String::new();
    result.append(text);
    assert(result@ =~= text@);
    result
}

/// Adds a term: a direction and a cell that is left.
fn push_term(aig: &mut Aig, terms: &mut Vec<u64>, dir: u64, cell: usize)
    requires
        old(aig).wf(),
        old(aig).knows(dir),
        cell < old(aig).nexts@.len(),
        all_known(*old(aig), old(terms)@),
        old(aig).leaves() + old(aig).ands@.len() + 1 < BUILD_LIMIT,
    ensures
        final(aig).wf(),
        final(aig).grows(old(aig)),
        final(aig).ands@.len() <= old(aig).ands@.len() + 1,
        final(terms)@.len() == old(terms)@.len() + 1,
        all_known(*final(aig), final(terms)@),
        forall|e: Point| #[trigger]
            any_true(*final(aig), final(terms)@, e) == (any_true(*old(aig), old(terms)@, e) || (old(aig).value(dir, e) && e.state[cell as int])),
{
    let ghost before = *aig;
    let ghost held = terms@;
    let lit = aig.latch(cell);
    let term = aig.and(dir, lit);
    terms.push(term);
    proof {
        assert(all_known(*aig, terms@)) by {
            lemma_any_kept(*aig, before, held, Point { inputs: Seq::empty(), state: Seq::empty() });
        }
        assert forall|e: Point| #[trigger] any_true(*aig, terms@, e) == (any_true(before, held, e) || (before.value(dir, e) && e.state[cell as int])) by {
            lemma_any_kept(*aig, before, held, e);
            lemma_any_push(*aig, held, term, e);
            assert(aig.value(term, e) == (before.value(dir, e) && before.value(lit, e)));
        }
    }
}

/// The literal that a cell is entered.
fn entering(aig: &mut Aig, m: usize, ring: bool, at: usize, dir: u64, c: usize) -> (lit: u64)
    requires
        old(aig).wf(),
        old(aig).knows(dir),
        c < m,
        at + m <= old(aig).nexts@.len(),
        old(aig).leaves() + old(aig).ands@.len() + 8 < BUILD_LIMIT,
    ensures
        final(aig).wf(),
        final(aig).grows(old(aig)),
        final(aig).ands@.len() <= old(aig).ands@.len() + 8,
        final(aig).knows(lit),
        forall|e: Point| #[trigger] final(aig).value(lit, e) == enters(m as int, ring, at as int, old(aig).value(dir, e), c as int, e),
{
    let ghost start = *aig;
    let down = aig.not(dir);
    let mut terms: Vec<u64> = Vec::new();
    proof {
        assert(aig.ands@.take(aig.ands@.len() as int) =~= aig.ands@);
        assert forall|e: Point| !#[trigger] any_true(*aig, terms@, e) by {}
    }
    let below: usize = if c == 0 {
        m - 1
    } else {
        c - 1
    };
    let above: usize = if c + 1 == m {
        0
    } else {
        c + 1
    };
    proof {
        lemma_wrapped(m as int, c as int);
    }
    if ring || c > 0 {
        push_term(aig, &mut terms, dir, at + below);
    }
    let ghost a1 = *aig;
    let ghost t1 = terms@;
    proof {
        assert forall|e: Point| #[trigger] a1.value(dir, e) == start.value(dir, e) && a1.value(down, e) == !start.value(dir, e) by {
            a1.law_gates_keep_values(&start, dir, e);
            a1.law_gates_keep_values(&start, down, e);
            assert(start.value(down, e) == !start.value(dir, e));
        }
    }
    if ring || c + 1 < m {
        push_term(aig, &mut terms, down, at + above);
    }
    let ghost a2 = *aig;
    let ghost t2 = terms@;
    proof {
        lemma_self(a1);
        lemma_grows(aig, &a1, &start);
        assert forall|e: Point| #[trigger] a2.value(dir, e) == start.value(dir, e) && a2.value(down, e) == !start.value(dir, e) by {
            a2.law_gates_keep_values(&start, dir, e);
            a2.law_gates_keep_values(&start, down, e);
            assert(start.value(down, e) == !start.value(dir, e));
        }
    }
    // a corridor clamps moves off the end to staying in place
    if !ring && c == 0 {
        push_term(aig, &mut terms, down, at);
    }
    let ghost a3 = *aig;
    let ghost t3 = terms@;
    proof {
        lemma_self(a2);
        lemma_grows(aig, &a2, &start);
        assert forall|e: Point| #[trigger] a3.value(dir, e) == start.value(dir, e) by {
            a3.law_gates_keep_values(&start, dir, e);
        }
    }
    if !ring && c + 1 == m {
        push_term(aig, &mut terms, dir, at + (m - 1));
    }
    let ghost a4 = *aig;
    let ghost t4 = terms@;
    proof {
        lemma_self(a3);
        lemma_grows(aig, &a3, &start);
    }
    let lit = aig.or_all(&terms);
    proof {
        lemma_grows(aig, &a4, &start);
        assert forall|e: Point| #[trigger] aig.value(lit, e) == enters(m as int, ring, at as int, start.value(dir, e), c as int, e) by {
            let up = start.value(dir, e);
            a1.law_gates_keep_values(&start, dir, e);
            a1.law_gates_keep_values(&start, down, e);
            a2.law_gates_keep_values(&start, down, e);
            a3.law_gates_keep_values(&start, dir, e);
            assert(start.value(down, e) == !up);
            assert(aig.value(lit, e) <==> any_true(a4, t4, e));
            assert(any_true(a4, t4, e) == (any_true(a3, t3, e) || (!ring && c + 1 == m && up && e.state[at + m - 1])));
            assert(any_true(a3, t3, e) == (any_true(a2, t2, e) || (!ring && c == 0 && !up && e.state[at as int])));
            assert(any_true(a2, t2, e) == (any_true(a1, t1, e) || ((ring || c + 1 < m) && !up && e.state[at + above])));
            assert(any_true(a1, t1, e) == ((ring || c > 0) && up && e.state[at + below]));
        }
    }
    lit
}

proof fn lemma_self(aig: Aig)
    ensures
        aig.grows(&aig),
{
    assert(aig.ands@.take(aig.ands@.len() as int) =~= aig.ands@);
}

proof fn lemma_wrapped(m: int, c: int)
    requires
        0 <= c < m,
    ensures
        (c + m - 1) % m == (if c == 0 { m - 1 } else { c - 1 }),
        (c + 1) % m == (if c + 1 == m { 0 } else { c + 1 }),
{
    if c == 0 {
        assert((m - 1) % m == m - 1) by (nonlinear_arith)
            requires
                m > 0,
        ;
    } else {
        assert((c - 1 + m) % m == c - 1) by (nonlinear_arith)
            requires
                0 < c < m,
        ;
    }
    if c + 1 == m {
        assert(m % m == 0) by (nonlinear_arith)
            requires
                m > 0,
        ;
    } else {
        assert((c + 1) % m == c + 1) by (nonlinear_arith)
            requires
                0 <= c,
                c + 1 < m,
        ;
    }
}

/// A pursuit game on `m` cells, one-hot encoded: the robot (controllable
/// direction) must move every step, the obstacle follows its universal
/// direction; with `may_stay`, a second universal input lets it stand
/// still. An error fires when both occupy the same cell.
pub fn pursuit(m: usize, ring: bool, may_stay: bool) -> (aig: Aig)
    requires
        0 < m,
        40 * m + 40 < BUILD_LIMIT,
    ensures
        is_pursuit(aig, m as int, ring, may_stay),
{
    let ghost gm = m as int;
    let mut names: Vec<String> = Vec::new();
    names.push(name("d"));
    if may_stay {
        names.push(name("s"));
    }
    names.push(name("controllable_e"));
    let robot_dir = names.len() - 1;
    let ghost given = names@;
    let mut aig = Aig::new(names, 2 * m);
    let mut l: usize = 0;
    while l < 2 * m
        invariant
            l <= 2 * m,
            0 < m,
            gm == m,
            40 * m + 40 < BUILD_LIMIT,
            robot_dir == (if may_stay { 2int } else { 1int }),
            given.len() == robot_dir + 1,
            aig.wf(),
            aig.input_names@ == given,
            aig.nexts@.len() == 2 * m,
            aig.outputs@.len() == 0,
            aig.ands@.len() <= 12 * l,
            forall|k: int|
                0 <= k < l ==> next_is(aig, k, pursuit_next(gm, ring, may_stay, k)) && (#[trigger] aig.nexts@[k]).1 == (if k == 0 || k == gm + gm
                    / 2 {
                    1u64
                } else {
                    0u64
                }),
        decreases 2 * m - l,
    {
        let ghost before = aig;
        let ghost f = pursuit_next(gm, ring, may_stay, l as int);
        let next = if l < m {
            let e = aig.input(robot_dir);
            let lit = entering(&mut aig, m, ring, 0, e, l);
            proof {
                assert forall|p: Point| #[trigger] aig.value(lit, p) == f(p) by {
                    assert(before.value(e, p) == p.inputs[robot_dir as int]);
                }
            }
            lit
        } else {
            let d = aig.input(0);
            let moved = entering(&mut aig, m, ring, m, d, l - m);
            let ghost entered = aig;
            proof {
                assert forall|p: Point| #[trigger] entered.value(moved, p) == enters(gm, ring, gm, p.inputs[0], l - gm, p) by {
                    assert(before.value(d, p) == p.inputs[0]);
                }
            }
            if may_stay {
                let s = aig.input(1);
                let here = aig.latch(l);
                let stay = aig.and(s, here);
                let ghost one = aig;
                let leave = aig.not(s);
                let go = aig.and(leave, moved);
                let ghost two = aig;
                let lit = aig.or(stay, go);
                proof {
                    lemma_grows(&one, &entered, &before);
                    lemma_grows(&two, &one, &before);
                    lemma_grows(&aig, &two, &before);
                    assert forall|p: Point| #[trigger] aig.value(lit, p) == f(p) by {
                        assert(aig.value(lit, p) == (two.value(stay, p) || two.value(go, p)));
                        two.law_gates_keep_values(&one, stay, p);
                        assert(one.value(stay, p) == (entered.value(s, p) && entered.value(here, p)));
                        assert(two.value(go, p) == (one.value(leave, p) && one.value(moved, p)));
                        assert(one.value(leave, p) == !one.value(s, p));
                        one.law_gates_keep_values(&entered, s, p);
                        one.law_gates_keep_values(&entered, moved, p);
                    }
                }
                lit
            } else {
                proof {
                    assert forall|p: Point| #[trigger] aig.value(moved, p) == f(p) by {
                        assert(entered.value(moved, p) == enters(gm, ring, gm, p.inputs[0], l - gm, p));
                    }
                }
                moved
            }
        };
        let ghost built = aig;
        let reset: u64 = if l == 0 || l == m + m / 2 {
            1
        } else {
            0
        };
        aig.connect(l, next, reset);
        proof {
            assert(built.grows(&before));
            assert(aig.ands@.take(built.ands@.len() as int) =~= built.ands@);
            assert(aig.ands@.take(before.ands@.len() as int) =~= before.ands@);
            assert forall|p: Point| #[trigger] aig.value(next, p) == f(p) by {
                aig.law_gates_keep_values(&built, next, p);
                assert(built.value(next, p) == f(p));
            }
            assert(next_is(aig, l as int, f));
            assert forall|k: int| 0 <= k < l + 1 implies next_is(aig, k, pursuit_next(gm, ring, may_stay, k)) && (#[trigger] aig.nexts@[k]).1 == (if k
                == 0 || k == gm + gm / 2 {
                1u64
            } else {
                0u64
            }) by {
                if k < l {
                    assert(before.nexts@[k].1 == aig.nexts@[k].1);
                    lemma_next_kept(aig, before, k, pursuit_next(gm, ring, may_stay, k));
                }
            }
        }
        l += 1;
    }
    let ghost connected = aig;
    let mut collisions: Vec<u64> = Vec::new();
    let mut c: usize = 0;
    proof {
        assert(aig.ands@.take(aig.ands@.len() as int) =~= aig.ands@);
        assert forall|e: Point| #[trigger] any_true(aig, collisions@, e) == meet(gm, 0, e) by {}
    }
    while c < m
        invariant
            c <= m,
            gm == m,
            40 * m + 40 < BUILD_LIMIT,
            connected.wf(),
            connected.ands@.len() <= 24 * m,
            connected.input_names@.len() <= 3,
            connected.nexts@.len() == 2 * m,
            aig.wf(),
            aig.grows(&connected),
            aig.ands@.len() <= connected.ands@.len() + c,
            collisions@.len() == c,
            all_known(aig, collisions@),
            forall|e: Point| #[trigger] any_true(aig, collisions@, e) == meet(gm, c as int, e),
        decreases m - c,
    {
        let ghost before = aig;
        let ghost held = collisions@;
        let r = aig.latch(c);
        let o = aig.latch(m + c);
        let hit = aig.and(r, o);
        collisions.push(hit);
        proof {
            lemma_grows(&aig, &before, &connected);
            assert(all_known(aig, collisions@)) by {
                lemma_any_kept(aig, before, held, Point { inputs: Seq::empty(), state: Seq::empty() });
            }
            assert forall|e: Point| #[trigger] any_true(aig, collisions@, e) == meet(gm, c + 1, e) by {
                lemma_any_kept(aig, before, held, e);
                lemma_any_push(aig, held, hit, e);
                assert(any_true(before, held, e) == meet(gm, c as int, e));
                assert(aig.value(hit, e) == (before.value(r, e) && before.value(o, e)));
                assert(both_in(gm, c as int, e) == aig.value(hit, e));
                if meet(gm, c + 1, e) {
                    let k = choose|k: int| 0 <= k < c + 1 && #[trigger] both_in(gm, k, e);
                    assert(k < c ==> meet(gm, c as int, e));
                }
                if meet(gm, c as int, e) {
                    let k = choose|k: int| 0 <= k < c && #[trigger] both_in(gm, k, e);
                    assert(0 <= k < c + 1 && both_in(gm, k, e));
                }
            }
        }
        c += 1;
    }
    let ghost built = aig;
    let error = aig.or_all(&collisions);
    let ghost joined = aig;
    aig.output(error);
    proof {
        assert(aig.ands@.take(joined.ands@.len() as int) =~= joined.ands@);
        lemma_grows(&joined, &built, &connected);
        assert(aig.ands@.take(connected.ands@.len() as int) =~= connected.ands@);
        assert forall|k: int| 0 <= k < 2 * gm implies next_is(aig, k, pursuit_next(gm, ring, may_stay, k)) && (#[trigger] aig.nexts@[k]).1 == (if k
            == 0 || k == gm + gm / 2 {
            1u64
        } else {
            0u64
        }) by {
            assert(connected.nexts@[k].1 == aig.nexts@[k].1);
            lemma_next_kept(aig, connected, k, pursuit_next(gm, ring, may_stay, k));
        }
        assert forall|e: Point| #[trigger] aig.value(aig.outputs@[0], e) == meet(gm, gm, e) by {
            aig.law_gates_keep_values(&joined, error, e);
            assert(joined.value(error, e) <==> any_true(built, collisions@, e));
        }
    }
    aig
}

/// The binary digits of a number, the lowest first.
pub open spec fn digits(b: nat) -> Seq<bool>
    decreases b,
{
    if b == 0 {
        Seq::empty()
    } else {
        seq![b % 2 == 1] + digits(b / 2)
    }
}

fn digits_of(b: usize) -> (result: Vec<bool>)
    ensures
        result@ == digits(b as nat),
        result@.len() <= 64,
        b > 0 ==> result@.len() > 0,
{
    let mut result: Vec<bool> = Vec::new();
    let mut rest = b;
    assert(result@ + digits(rest as nat) =~= digits(b as nat));
    proof {
        reveal_with_fuel(power, 65);
        lemma_digits(b as nat, 64);
    }
    while rest > 0
        invariant
            result@ + digits(rest as nat) == digits(b as nat),
            digits(b as nat).len() <= 64,
        decreases rest,
    {
        let ghost before = result@;
        let ghost tail = digits(rest as nat);
        result.push(rest % 2 == 1);
        rest = rest / 2;
        assert(result@ + digits(rest as nat) =~= before + tail);
    }
    assert(result@ + digits(0) =~= result@);
    result
}

proof fn lemma_digits(b: nat, k: nat)
    requires
        b < power(k),
    ensures
        digits(b).len() <= k,
    decreases k,
{
    if b > 0 {
        lemma_digits(b / 2, (k - 1) as nat);
    }
}

/// A digit of a client's counter.
pub open spec fn count_digit(w: int, i: int, j: int, e: Point) -> bool {
    e.state[i * w + j]
}

/// The counter is not zero.
pub open spec fn counts(w: int, i: int, e: Point) -> bool {
    exists|j: int| 0 <= j < w && #[trigger] count_digit(w, i, j, e)
}

/// The counter is at its end.
pub open spec fn at_end(b: Seq<bool>, i: int, e: Point) -> bool {
    forall|j: int| 0 <= j < b.len() ==> #[trigger] count_digit(b.len() as int, i, j, e) == b[j]
}

/// All digits below one are set, so that it changes next.
pub open spec fn carries(w: int, i: int, j: int, e: Point) -> bool {
    forall|k: int| 0 <= k < j ==> #[trigger] count_digit(w, i, k, e)
}

/// The next value of a digit: the counter runs while a grant is withheld
/// and something is pending, and freezes at its end.
pub open spec fn counter_next(n: int, b: Seq<bool>, latch: int) -> spec_fn(Point) -> bool {
    let w = b.len() as int;
    |e: Point| counter_step(n, b, latch / w, latch % w, e)
}

pub open spec fn counter_step(n: int, b: Seq<bool>, i: int, j: int, e: Point) -> bool {
    let w = b.len() as int;
    &&& counts(w, i, e) || e.inputs[i]
    &&& !e.inputs[n + i]
    &&& if at_end(b, i, e) {
        count_digit(w, i, j, e)
    } else {
        count_digit(w, i, j, e) != carries(w, i, j, e)
    }
}

/// One of the first counters is at its end.
pub open spec fn some_at_end(b: Seq<bool>, count: int, e: Point) -> bool {
    exists|i: int| 0 <= i < count && #[trigger] at_end(b, i, e)
}

/// The specification is that of an arbiter whose ages are binary counters.
pub open spec fn is_binary_arbiter(aig: Aig, n: int, b: Seq<bool>) -> bool {
    &&& aig.wf()
    &&& aig.input_names@.len() == 2 * n
    &&& forall|i: int| 0 <= i < n ==> (#[trigger] aig.input_names@[i])@ == "r"@ + decimal(i as nat)
    &&& forall|i: int| n <= i < 2 * n ==> (#[trigger] aig.input_names@[i])@ == "controllable_g"@ + decimal((i - n) as nat)
    &&& aig.nexts@.len() == n * b.len()
    &&& forall|l: int| 0 <= l < n * b.len() ==> next_is(aig, l, counter_next(n, b, l)) && (#[trigger] aig.nexts@[l]).1 == 0
    &&& aig.outputs@.len() == 1
    &&& forall|e: Point| #[trigger] aig.value(aig.outputs@[0], e) == (some_at_end(b, n, e) || double_grant(n, n, 0, e))
}

/// The wires of a client's counter.
struct Counter {
    running: u64,
    full: u64,
    sums: Vec<u64>,
    digits: Vec<u64>,
}

/// The wires have the values that the counter of a client gives them.
spec fn counter_ok(aig: Aig, counter: Counter, n: int, b: Seq<bool>, i: int) -> bool {
    let w = b.len() as int;
    &&& aig.knows(counter.running)
    &&& aig.knows(counter.full)
    &&& counter.sums@.len() == w
    &&& counter.digits@.len() == w
    &&& all_known(aig, counter.sums@)
    &&& all_known(aig, counter.digits@)
    &&& forall|e: Point| #[trigger] aig.value(counter.running, e) == ((counts(w, i, e) || e.inputs[i]) && !e.inputs[n + i])
    &&& forall|e: Point| #[trigger] aig.value(counter.full, e) == at_end(b, i, e)
    &&& forall|e: Point, j: int|
        0 <= j < w ==> #[trigger] aig.value(counter.sums@[j], e) == (count_digit(w, i, j, e) != carries(w, i, j, e))
    &&& forall|e: Point, j: int| 0 <= j < w ==> #[trigger] aig.value(counter.digits@[j], e) == count_digit(w, i, j, e)
}

proof fn lemma_counter_kept(after: Aig, before: Aig, counter: Counter, n: int, b: Seq<bool>, i: int)
    requires
        before.wf(),
        after.ands@.len() >= before.ands@.len(),
        after.ands@.take(before.ands@.len() as int) == before.ands@,
        after.input_names@ == before.input_names@,
        after.nexts@.len() == before.nexts@.len(),
        counter_ok(before, counter, n, b, i),
    ensures
        counter_ok(after, counter, n, b, i),
{
    let w = b.len() as int;
    assert forall|e: Point| #[trigger] after.value(counter.running, e) == ((counts(w, i, e) || e.inputs[i]) && !e.inputs[n + i]) by {
        after.law_gates_keep_values(&before, counter.running, e);
        assert(before.value(counter.running, e) == ((counts(w, i, e) || e.inputs[i]) && !e.inputs[n + i]));
    }
    assert forall|e: Point| #[trigger] after.value(counter.full, e) == at_end(b, i, e) by {
        after.law_gates_keep_values(&before, counter.full, e);
        assert(before.value(counter.full, e) == at_end(b, i, e));
    }
    assert forall|j: int| 0 <= j < w implies after.knows(#[trigger] counter.sums@[j]) by {
        assert(before.knows(counter.sums@[j]));
    }
    assert forall|j: int| 0 <= j < w implies after.knows(#[trigger] counter.digits@[j]) by {
        assert(before.knows(counter.digits@[j]));
    }
    assert forall|e: Point, j: int| 0 <= j < w implies #[trigger] after.value(counter.sums@[j], e) == (count_digit(w, i, j, e) != carries(w, i, j, e)) by {
        assert(before.knows(counter.sums@[j]));
        after.law_gates_keep_values(&before, counter.sums@[j], e);
        assert(before.value(counter.sums@[j], e) == (count_digit(w, i, j, e) != carries(w, i, j, e)));
    }
    assert forall|e: Point, j: int| 0 <= j < w implies #[trigger] after.value(counter.digits@[j], e) == count_digit(w, i, j, e) by {
        assert(before.knows(counter.digits@[j]));
        after.law_gates_keep_values(&before, counter.digits@[j], e);
        assert(before.value(counter.digits@[j], e) == count_digit(w, i, j, e));
    }
}

/// Builds the wires of a client's counter.
#[verifier::rlimit(60)]
fn build_counter(aig: &mut Aig, n: usize, bits: &Vec<bool>, i: usize) -> (counter: Counter)
    requires
        old(aig).wf(),
        old(aig).input_names@.len() == 2 * n,
        i < n,
        bits@.len() <= 64,
        old(aig).nexts@.len() == n * bits@.len(),
        i * bits@.len() + bits@.len() <= n * bits@.len(),
        old(aig).leaves() + old(aig).ands@.len() + 400 < BUILD_LIMIT,
    ensures
        final(aig).wf(),
        final(aig).grows(old(aig)),
        final(aig).ands@.len() <= old(aig).ands@.len() + 400,
        counter_ok(*final(aig), counter, n as int, bits@, i as int),
{
    let ghost start = *aig;
    let ghost b = bits@;
    let ghost w = bits@.len() as int;
    let ghost gi = i as int;
    let width = bits.len();
    proof {
        assert(aig.ands@.take(aig.ands@.len() as int) =~= aig.ands@);
        assert(gi * w >= 0) by (nonlinear_arith)
            requires
                gi >= 0,
                w >= 0,
        ;
    }
    let mut digits: Vec<u64> = Vec::new();
    let mut targets: Vec<u64> = Vec::new();
    let mut j: usize = 0;
    while j < width
        invariant
            j <= width,
            width == w,
            b == bits@,
            w == b.len(),
            gi == i,
            gi * w >= 0,
            start == *old(aig),
            *aig == start,
            aig.wf(),
            aig.nexts@.len() == n * w,
            gi * w + w <= n * w,
            n * w < BUILD_LIMIT,
            digits@.len() == j,
            targets@.len() == j,
            all_known(*aig, digits@),
            all_known(*aig, targets@),
            forall|e: Point, k: int| 0 <= k < j ==> #[trigger] aig.value(digits@[k], e) == count_digit(w, gi, k, e),
            forall|e: Point, k: int| 0 <= k < j ==> #[trigger] aig.value(targets@[k], e) == (count_digit(w, gi, k, e) == b[k]),
        decreases width - j,
    {
        let digit = aig.latch(i * width + j);
        let target = if bits[j] {
            digit
        } else {
            aig.not(digit)
        };
        let ghost d0 = digits@;
        let ghost t0 = targets@;
        digits.push(digit);
        targets.push(target);
        proof {
            assert forall|e: Point, k: int| 0 <= k < j + 1 implies #[trigger] aig.value(digits@[k], e) == count_digit(w, gi, k, e) by {
                if k < j {
                    assert(digits@[k] == d0[k]);
                    assert(aig.value(d0[k], e) == count_digit(w, gi, k, e));
                } else {
                    assert(aig.value(digit, e) == e.state[gi * w + j]);
                }
            }
            assert forall|e: Point, k: int| 0 <= k < j + 1 implies #[trigger] aig.value(targets@[k], e) == (count_digit(w, gi, k, e) == b[k]) by {
                if k < j {
                    assert(targets@[k] == t0[k]);
                    assert(aig.value(t0[k], e) == (count_digit(w, gi, k, e) == b[k]));
                } else {
                    assert(aig.value(digit, e) == e.state[gi * w + j]);
                    if !b[k] {
                        assert(aig.value(target, e) == !aig.value(digit, e));
                    }
                }
            }
        }
        j += 1;
    }
    let r = aig.input(i);
    let g = aig.input(n + i);
    let withheld = aig.not(g);
    let started = aig.or_all(&digits);
    let ghost a1 = *aig;
    let pending = aig.or(started, r);
    let ghost a2 = *aig;
    let running = aig.and(pending, withheld);
    let ghost a3 = *aig;
    let full = aig.and_all(&targets);
    let ghost a4 = *aig;
    proof {
        lemma_grows(&a2, &a1, &start);
        lemma_grows(&a3, &a2, &start);
        lemma_grows(&a4, &a3, &start);
        lemma_self(a4);
        assert forall|k: int| 0 <= k < digits@.len() implies a4.knows(#[trigger] digits@[k]) by {
            assert(start.knows(digits@[k]));
        }
        assert forall|e: Point, k: int| 0 <= k < w implies #[trigger] a4.value(digits@[k], e) == count_digit(w, gi, k, e) by {
            assert(start.knows(digits@[k]));
            a4.law_gates_keep_values(&start, digits@[k], e);
            assert(start.value(digits@[k], e) == count_digit(w, gi, k, e));
        }
        assert forall|e: Point| #[trigger] a4.value(running, e) == ((counts(w, gi, e) || e.inputs[gi]) && !e.inputs[n + gi]) by {
            a4.law_gates_keep_values(&a3, running, e);
            assert(a3.value(running, e) == (a2.value(pending, e) && a2.value(withheld, e)));
            a2.law_gates_keep_values(&start, withheld, e);
            assert(start.value(withheld, e) == !start.value(g, e));
            assert(a2.value(pending, e) == (a1.value(started, e) || a1.value(r, e)));
            a1.law_gates_keep_values(&start, r, e);
            if counts(w, gi, e) {
                let k = choose|k: int| 0 <= k < w && #[trigger] count_digit(w, gi, k, e);
                assert(start.value(digits@[k], e));
            }
            if a1.value(started, e) {
                let k = choose|k: int| 0 <= k < digits@.len() && start.value(#[trigger] digits@[k], e);
                assert(count_digit(w, gi, k, e));
            }
        }
        assert forall|e: Point| #[trigger] a4.value(full, e) == at_end(b, gi, e) by {
            assert forall|k: int| 0 <= k < w implies a3.value(#[trigger] targets@[k], e) == (count_digit(w, gi, k, e) == b[k]) by {
                assert(start.knows(targets@[k]));
                a3.law_gates_keep_values(&start, targets@[k], e);
                assert(start.value(targets@[k], e) == (count_digit(w, gi, k, e) == b[k]));
            }
            if at_end(b, gi, e) {
                assert forall|k: int| 0 <= k < targets@.len() implies a3.value(#[trigger] targets@[k], e) by {
                    assert(count_digit(w, gi, k, e) == b[k]);
                }
            }
            if a4.value(full, e) {
                assert forall|k: int| 0 <= k < b.len() implies #[trigger] count_digit(w, gi, k, e) == b[k] by {
                    assert(a3.value(targets@[k], e));
                }
            }
        }
    }
    // ripple-carry increment
    let mut carry: u64 = 1;
    let mut sums: Vec<u64> = Vec::new();
    let mut j: usize = 0;
    while j < width
        invariant
            j <= width,
            width == w,
            w == b.len(),
            w <= 64,
            digits@.len() == w,
            a4.wf(),
            a4.leaves() + a4.ands@.len() + 260 < BUILD_LIMIT,
            all_known(a4, digits@),
            forall|e: Point, k: int| 0 <= k < w ==> #[trigger] a4.value(digits@[k], e) == count_digit(w, gi, k, e),
            aig.wf(),
            aig.grows(&a4),
            aig.ands@.len() <= a4.ands@.len() + 4 * j,
            aig.knows(carry),
            forall|e: Point| #[trigger] aig.value(carry, e) == carries(w, gi, j as int, e),
            sums@.len() == j,
            all_known(*aig, sums@),
            forall|e: Point, k: int|
                0 <= k < j ==> #[trigger] aig.value(sums@[k], e) == (count_digit(w, gi, k, e) != carries(w, gi, k, e)),
        decreases width - j,
    {
        let ghost before = *aig;
        let ghost held = sums@;
        let old_carry = carry;
        let digit = digits[j];
        assert(a4.knows(digits@[j as int]));
        let sum = aig.xor(digit, carry);
        let ghost middle = *aig;
        carry = aig.and(digit, carry);
        sums.push(sum);
        proof {
            lemma_grows(aig, &middle, &before);
            lemma_grows(aig, &before, &a4);
            assert forall|k: int| 0 <= k < sums@.len() implies aig.knows(#[trigger] sums@[k]) by {
                if k < j {
                    assert(before.knows(held[k]));
                }
            }
            assert forall|e: Point| #[trigger] aig.value(carry, e) == carries(w, gi, j + 1, e) by {
                assert(aig.value(carry, e) == (middle.value(digit, e) && middle.value(old_carry, e)));
                middle.law_gates_keep_values(&before, digit, e);
                middle.law_gates_keep_values(&before, old_carry, e);
                before.law_gates_keep_values(&a4, digit, e);
                assert(a4.value(digits@[j as int], e) == count_digit(w, gi, j as int, e));
                assert(before.value(old_carry, e) == carries(w, gi, j as int, e));
                if carries(w, gi, j + 1, e) {
                    assert(count_digit(w, gi, j as int, e));
                    assert forall|k: int| 0 <= k < j implies #[trigger] count_digit(w, gi, k, e) by {}
                }
            }
            assert forall|e: Point, k: int| 0 <= k < j + 1 implies #[trigger] aig.value(sums@[k], e) == (count_digit(w, gi, k, e) != carries(
                w,
                gi,
                k,
                e,
            )) by {
                if k < j {
                    assert(sums@[k] == held[k]);
                    assert(before.knows(held[k]));
                    aig.law_gates_keep_values(&before, held[k], e);
                    assert(before.value(held[k], e) == (count_digit(w, gi, k, e) != carries(w, gi, k, e)));
                } else {
                    aig.law_gates_keep_values(&middle, sum, e);
                    assert(middle.value(sum, e) == (before.value(digit, e) != before.value(old_carry, e)));
                    before.law_gates_keep_values(&a4, digit, e);
                    assert(a4.value(digits@[j as int], e) == count_digit(w, gi, j as int, e));
                    assert(before.value(old_carry, e) == carries(w, gi, j as int, e));
                }
            }
        }
        j += 1;
    }
    let counter = Counter { running, full, sums, digits };
    proof {
        lemma_grows(aig, &a4, &start);
        let c = Counter { running, full, sums: counter.sums, digits: counter.digits };
        assert forall|e: Point| #[trigger] aig.value(running, e) == ((counts(w, gi, e) || e.inputs[gi]) && !e.inputs[n + gi]) by {
            aig.law_gates_keep_values(&a4, running, e);
            assert(a4.value(running, e) == ((counts(w, gi, e) || e.inputs[gi]) && !e.inputs[n + gi]));
        }
        assert forall|e: Point| #[trigger] aig.value(full, e) == at_end(b, gi, e) by {
            aig.law_gates_keep_values(&a4, full, e);
            assert(a4.value(full, e) == at_end(b, gi, e));
        }
        assert forall|k: int| 0 <= k < w implies aig.knows(#[trigger] counter.digits@[k]) by {
            assert(a4.knows(digits@[k]));
        }
        assert forall|e: Point, k: int| 0 <= k < w implies #[trigger] aig.value(counter.digits@[k], e) == count_digit(w, gi, k, e) by {
            assert(a4.knows(digits@[k]));
            aig.law_gates_keep_values(&a4, digits@[k], e);
            assert(a4.value(digits@[k], e) == count_digit(w, gi, k, e));
        }
    }
    counter
}

/// The size of a binary arbiter.
pub open spec fn binary_size(n: int, w: int) -> int {
    2 * n + n * w + n * (400 + 4 * w) + 2 * (n * n) + n
}

proof fn lemma_place(n: int, w: int, i: int, j: int)
    requires
        0 <= i < n,
        0 <= j < w,
    ensures
        (i * w + j) / w == i,
        (i * w + j) % w == j,
        0 <= i * w + j < n * w,
        i * w + w <= n * w,
        (i + 1) * w == i * w + w,
{
    assert((i * w + j) / w == i && (i * w + j) % w == j) by (nonlinear_arith)
        requires
            0 <= i,
            0 <= j < w,
    ;
    assert(i * w + w <= n * w && 0 <= i * w && (i + 1) * w == i * w + w) by (nonlinear_arith)
        requires
            0 <= i < n,
            0 < w,
    ;
}

proof fn lemma_room(n: int, w: int, i: int)
    requires
        0 <= i < n,
        0 <= w,
    ensures
        i * (400 + 4 * w) + (400 + 4 * w) <= n * (400 + 4 * w),
        (i + 1) * (400 + 4 * w) == i * (400 + 4 * w) + (400 + 4 * w),
{
    let u = 400 + 4 * w;
    assert(i * u + u <= n * u && (i + 1) * u == i * u + u) by (nonlinear_arith)
        requires
            0 <= i < n,
            0 <= u,
    ;
}

/// Connects the digits of a client's counter.
fn connect_counter(aig: &mut Aig, counter: &Counter, n: usize, bits: &Vec<bool>, i: usize)
    requires
        old(aig).wf(),
        i < n,
        0 < bits@.len() <= 64,
        old(aig).nexts@.len() == n * bits@.len(),
        n * bits@.len() < BUILD_LIMIT,
        counter_ok(*old(aig), *counter, n as int, bits@, i as int),
        old(aig).leaves() + old(aig).ands@.len() + 4 * bits@.len() < BUILD_LIMIT,
        forall|l: int|
            0 <= l < i * bits@.len() ==> next_is(*old(aig), l, counter_next(n as int, bits@, l)) && (#[trigger] old(aig).nexts@[l]).1 == 0,
    ensures
        final(aig).wf(),
        final(aig).ands@.len() <= old(aig).ands@.len() + 4 * bits@.len(),
        final(aig).ands@.len() >= old(aig).ands@.len(),
        final(aig).ands@.take(old(aig).ands@.len() as int) == old(aig).ands@,
        final(aig).input_names@ == old(aig).input_names@,
        final(aig).outputs@ == old(aig).outputs@,
        final(aig).nexts@.len() == old(aig).nexts@.len(),
        forall|l: int|
            0 <= l < (i + 1) * bits@.len() ==> next_is(*final(aig), l, counter_next(n as int, bits@, l)) && (#[trigger] final(aig).nexts@[l]).1
                == 0,
{
    let ghost start = *aig;
    let ghost b = bits@;
    let ghost w = bits@.len() as int;
    let ghost gn = n as int;
    let ghost gi = i as int;
    let width = bits.len();
    let mut j: usize = 0;
    proof {
        assert(aig.ands@.take(aig.ands@.len() as int) =~= aig.ands@);
        lemma_place(gn, w, gi, 0);
    }
    while j < width
        invariant
            j <= width,
            width == w,
            b == bits@,
            w == b.len(),
            0 < w <= 64,
            gn == n,
            gi == i,
            i < n,
            start == *old(aig),
            start.wf(),
            start.leaves() + start.ands@.len() + 4 * w < BUILD_LIMIT,
            gn * w < BUILD_LIMIT,
            gi * w + w <= gn * w,
            gi * w >= 0,
            counter_ok(start, *counter, gn, b, gi),
            aig.wf(),
            aig.ands@.len() <= start.ands@.len() + 4 * j,
            aig.ands@.len() >= start.ands@.len(),
            aig.ands@.take(start.ands@.len() as int) == start.ands@,
            aig.input_names@ == start.input_names@,
            aig.outputs@ == start.outputs@,
            aig.nexts@.len() == start.nexts@.len(),
            aig.nexts@.len() == gn * w,
            forall|l: int|
                0 <= l < gi * w + j ==> next_is(*aig, l, counter_next(gn, b, l)) && (#[trigger] aig.nexts@[l]).1 == 0,
        decreases width - j,
    {
        let ghost before = *aig;
        let ghost l0 = gi * w + j;
        let ghost f = counter_next(gn, b, l0);
        proof {
            lemma_place(gn, w, gi, j as int);
            lemma_counter_kept(*aig, start, *counter, gn, b, gi);
            assert(aig.knows(counter.digits@[j as int]));
            assert(aig.knows(counter.sums@[j as int]));
        }
        let digit = counter.digits[j];
        let sum = counter.sums[j];
        let advanced = aig.ite(counter.full, digit, sum);
        let ghost middle = *aig;
        let next = aig.and(counter.running, advanced);
        let ghost built = *aig;
        aig.connect(i * width + j, next, 0);
        proof {
            lemma_grows(&built, &middle, &before);
            assert(aig.ands@.take(built.ands@.len() as int) =~= built.ands@);
            assert(aig.ands@.take(before.ands@.len() as int) =~= before.ands@);
            assert(aig.ands@.take(start.ands@.len() as int) =~= start.ands@) by {
                assert forall|k: int| 0 <= k < start.ands@.len() implies aig.ands@[k] == start.ands@[k] by {
                    assert(aig.ands@.take(before.ands@.len() as int)[k] == before.ands@[k]);
                    assert(before.ands@.take(start.ands@.len() as int)[k] == start.ands@[k]);
                }
            }
            assert forall|e: Point| #[trigger] aig.value(next, e) == f(e) by {
                aig.law_gates_keep_values(&built, next, e);
                assert(built.value(next, e) == (middle.value(counter.running, e) && middle.value(advanced, e)));
                middle.law_gates_keep_values(&before, counter.running, e);
                assert(before.value(counter.running, e) == ((counts(w, gi, e) || e.inputs[gi]) && !e.inputs[gn + gi]));
                assert(middle.value(advanced, e) == (if before.value(counter.full, e) { before.value(digit, e) } else { before.value(sum, e) }));
                assert(before.value(counter.full, e) == at_end(b, gi, e));
                assert(before.value(counter.digits@[j as int], e) == count_digit(w, gi, j as int, e));
                assert(before.value(counter.sums@[j as int], e) == (count_digit(w, gi, j as int, e) != carries(w, gi, j as int, e)));
                assert(f(e) == counter_step(gn, b, gi, j as int, e));
            }
            assert(next_is(*aig, l0, f));
            assert forall|l: int| 0 <= l < l0 + 1 implies next_is(*aig, l, counter_next(gn, b, l)) && (#[trigger] aig.nexts@[l]).1 == 0 by {
                if l < l0 {
                    assert(before.nexts@[l].1 == 0);
                    lemma_next_kept(*aig, before, l, counter_next(gn, b, l));
                }
            }
        }
        j += 1;
    }
}

/// The same arbiter, with each client's age held as a binary counter
/// instead of a unary shift register: the state encoding a bit-vector
/// frontend would produce. It is the same game, with the error on a counter
/// that reaches `b`.
#[verifier::rlimit(40)]
pub fn binary_arbiter(n: usize, b: usize) -> (aig: Aig)
    requires
        0 < b,
        binary_size(n as int, digits(b as nat).len() as int) < BUILD_LIMIT,
    ensures
        is_binary_arbiter(aig, n as int, digits(b as nat)),
{
    let bits = digits_of(b);
    let width = bits.len();
    let ghost d = bits@;
    let ghost w = bits@.len() as int;
    let ghost gn = n as int;
    let ghost u = 400 + 4 * w;
    proof {
        assert(gn * w >= 0 && gn * gn >= 0 && gn * u >= 0 && 0 * w == 0 && 0 * u == 0) by (nonlinear_arith)
            requires
                gn >= 0,
                w >= 0,
                u >= 0,
        ;
    }
    let names = arbiter_names(n);
    let mut aig = Aig::new(names, n * width);
    let mut errors: Vec<u64> = Vec::new();
    proof {
        assert forall|e: Point| #[trigger] any_true(aig, errors@, e) == some_at_end(d, 0, e) by {}
    }
    let mut i: usize = 0;
    while i < n
        invariant
            i <= n,
            gn == n,
            d == bits@,
            w == d.len(),
            width == w,
            0 < w <= 64,
            u == 400 + 4 * w,
            gn * w >= 0,
            gn * gn >= 0,
            binary_size(gn, w) < BUILD_LIMIT,
            aig.wf(),
            aig.input_names@ == names@,
            names@.len() == 2 * n,
            aig.nexts@.len() == gn * w,
            aig.outputs@.len() == 0,
            aig.ands@.len() <= i * u,
            errors@.len() == i,
            all_known(aig, errors@),
            forall|l: int| 0 <= l < i * w ==> next_is(aig, l, counter_next(gn, d, l)) && (#[trigger] aig.nexts@[l]).1 == 0,
            forall|e: Point| #[trigger] any_true(aig, errors@, e) == some_at_end(d, i as int, e),
        decreases n - i,
    {
        let ghost before = aig;
        let ghost held = errors@;
        let ghost gi = i as int;
        proof {
            lemma_place(gn, w, gi, 0);
            lemma_room(gn, w, gi);
        }
        let counter = build_counter(&mut aig, n, &bits, i);
        let ghost built = aig;
        proof {
            assert forall|l: int| 0 <= l < gi * w implies next_is(built, l, counter_next(gn, d, l)) && (#[trigger] built.nexts@[l]).1 == 0 by {
                assert(before.nexts@[l].1 == 0);
                lemma_next_kept(built, before, l, counter_next(gn, d, l));
            }
        }
        connect_counter(&mut aig, &counter, n, &bits, i);
        errors.push(counter.full);
        proof {
            lemma_counter_kept(aig, built, counter, gn, d, gi);
            assert(aig.ands@.take(before.ands@.len() as int) =~= before.ands@) by {
                assert forall|k: int| 0 <= k < before.ands@.len() implies aig.ands@[k] == before.ands@[k] by {
                    assert(aig.ands@.take(built.ands@.len() as int)[k] == built.ands@[k]);
                    assert(built.ands@.take(before.ands@.len() as int)[k] == before.ands@[k]);
                }
            }
            assert(all_known(aig, errors@)) by {
                lemma_any_kept(aig, before, held, Point { inputs: Seq::empty(), state: Seq::empty() });
            }
            assert forall|e: Point| #[trigger] any_true(aig, errors@, e) == some_at_end(d, gi + 1, e) by {
                lemma_any_kept(aig, before, held, e);
                lemma_any_push(aig, held, counter.full, e);
                assert(any_true(before, held, e) == some_at_end(d, gi, e));
                assert(aig.value(counter.full, e) == at_end(d, gi, e));
                if some_at_end(d, gi + 1, e) {
                    let k = choose|k: int| 0 <= k < gi + 1 && #[trigger] at_end(d, k, e);
                    assert(k < gi ==> some_at_end(d, gi, e));
                }
                if some_at_end(d, gi, e) {
                    let k = choose|k: int| 0 <= k < gi && #[trigger] at_end(d, k, e);
                    assert(0 <= k < gi + 1 && at_end(d, k, e));
                }
            }
        }
        i += 1;
    }
    let ghost connected = aig;
    let ghost late = |e: Point| some_at_end(d, gn, e);
    add_double_grants(&mut aig, n, &mut errors, Ghost(late));
    let ghost built = aig;
    let error = aig.or_all(&errors);
    let ghost joined = aig;
    aig.output(error);
    proof {
        assert(aig.ands@.take(joined.ands@.len() as int) =~= joined.ands@);
        lemma_grows(&joined, &built, &connected);
        assert(aig.ands@.take(connected.ands@.len() as int) =~= connected.ands@);
        assert forall|l: int| 0 <= l < gn * w implies next_is(aig, l, counter_next(gn, d, l)) && (#[trigger] aig.nexts@[l]).1 == 0 by {
            assert(connected.nexts@[l].1 == 0);
            lemma_next_kept(aig, connected, l, counter_next(gn, d, l));
        }
        assert forall|e: Point| #[trigger] aig.value(aig.outputs@[0], e) == (some_at_end(d, gn, e) || double_grant(gn, gn, 0, e)) by {
            aig.law_gates_keep_values(&joined, error, e);
            assert(joined.value(error, e) <==> any_true(built, errors@, e));
            assert(any_true(built, errors@, e) == (late(e) || double_grant(gn, gn, 0, e)));
        }
    }
    aig
}

} // verus!
