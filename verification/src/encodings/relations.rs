//! Families of circuits whose output is a relation between universal and
//! existential words.
use super::wiring::Builder;
use super::{lemma_signed, signed, Circuit, WIRE_LIMIT};
use crate::literal::{lemma_var_index, lemma_var_of, var_of, Var};
use crate::parity::{lemma_same_parity, parity_of};
use crate::semantics::{agree_off, formula_true, lit_true, Assignment};
use vstd::arithmetic::power2::{lemma2_to64, lemma_pow2_pos, lemma_pow2_unfold, pow2};
use vstd::prelude::*;

verus! {

broadcast use crate::literal::group_literal;

/// The assignments agree on the inputs of a circuit.
pub(crate) open spec fn same_inputs(circuit: Circuit, a: Assignment, b: Assignment) -> bool {
    forall|x: Var| x.dimacs() <= circuit.inputs() ==> a(x) == #[trigger] b(x)
}

/// The literals of an input and of its negation.
pub(crate) proof fn lemma_wire(l: i32, a: Assignment)
    requires
        0 < l <= WIRE_LIMIT,
    ensures
        lit_true(a, signed(l)) == a(var_of(l as int)),
        lit_true(a, signed((-l) as i32)) == !lit_true(a, signed(l)),
{
    lemma_signed(l);
    lemma_signed((-l) as i32);
}

/// Existential inputs under which the output holds answer the others.
pub(crate) proof fn lemma_answered(circuit: Circuit, a: Assignment, b: Assignment)
    requires
        circuit.wf(),
        forall|x: Var| a(x) == #[trigger] b(x) || circuit.universals < x.dimacs() <= circuit.inputs(),
        forall|c: Assignment| #[trigger] circuit.settled(c) && same_inputs(circuit, b, c) ==> lit_true(c, signed(circuit.output)),
    ensures
        circuit.answerable(a),
{
    let n = circuit.gates@.len() as int;
    circuit.lemma_run(b, n);
    assert(circuit.settled(circuit.run(b, n)));
    assert(same_inputs(circuit, b, circuit.run(b, n)));
    assert(circuit.output_holds(b));
    assert forall|x: Var| !circuit.choices().contains(x) implies a(x) == #[trigger] b(x) by {
        lemma_var_of(x);
        if circuit.universals < x.dimacs() <= circuit.inputs() {
            assert(circuit.choices()[x.dimacs() - circuit.universals - 1] == x);
        }
    }
    assert(agree_off(a, b, circuit.choices()));
}

/// A circuit that can always be answered is a true formula.
pub(crate) proof fn lemma_true(circuit: Circuit)
    requires
        circuit.wf(),
        forall|a: Assignment| #[trigger] circuit.answerable(a),
    ensures
        formula_true(circuit.prefix(), circuit.two_sided()),
{
    let start: Assignment = |x: Var| false;
    assert(circuit.always_answerable(start));
    circuit.law_formula_is_the_circuit_question();
}

/// An existential bit equals the universal bit of the same place.
pub open spec fn same_at(n: int, i: int, a: Assignment) -> bool {
    a(var_of(n + i + 1)) == a(var_of(i + 1))
}

/// The existential word equals the universal one.
pub open spec fn all_same(n: int, a: Assignment) -> bool {
    forall|i: int| 0 <= i < n ==> #[trigger] same_at(n, i, a)
}

/// The existential word is the complement of the universal one.
pub open spec fn all_inverted(n: int, a: Assignment) -> bool {
    forall|i: int| 0 <= i < n ==> !#[trigger] same_at(n, i, a)
}

/// Whatever the universal word is, either the existential word equals it or
/// is its complement: pick a side. The disjunctive top forces nothing from
/// the output, so the comparison gates are determined by both of their
/// directions. Built from conjunctions and disjunctions alone.
#[verifier::rlimit(60)]
pub fn choice_of_relation(n: usize) -> (circuit: Circuit)
    requires
        8 * n + 3 < WIRE_LIMIT,
    ensures
        circuit.wf(),
        circuit.universals == n,
        circuit.existentials == n,
        forall|a: Assignment| #[trigger]
            circuit.settled(a) ==> lit_true(a, signed(circuit.output)) == (all_same(n as int, a) || all_inverted(n as int, a)),
        formula_true(circuit.prefix(), circuit.two_sided()),
{
    let mut b = Builder::new(n, n);
    let mut equal: Vec<i32> = Vec::new();
    let mut inverted: Vec<i32> = Vec::new();
    let mut i: usize = 0;
    while i < n
        invariant
            i <= n,
            8 * n + 3 < WIRE_LIMIT,
            b.wf(),
            b.circuit.universals == n,
            b.circuit.existentials == n,
            b.circuit.gates@.len() == 6 * i,
            equal@.len() == i,
            inverted@.len() == i,
            forall|j: int| 0 <= j < i ==> b.names(#[trigger] equal@[j]),
            forall|j: int| 0 <= j < i ==> b.names(#[trigger] inverted@[j]),
            forall|j: int, a: Assignment|
                0 <= j < i && #[trigger] b.circuit.settled(a) ==> lit_true(a, signed(#[trigger] equal@[j])) == same_at(n as int, j, a),
            forall|j: int, a: Assignment|
                0 <= j < i && #[trigger] b.circuit.settled(a) ==> lit_true(a, signed(#[trigger] inverted@[j])) == !same_at(n as int, j, a),
        decreases n - i,
    {
        let ghost before = b;
        let (x, y) = (b.universal(i), b.existential(i));
        let both = b.both(y, x);
        let neither = b.both(-y, -x);
        let same = b.either(both, neither);
        let only_y = b.both(y, -x);
        let only_x = b.both(-y, x);
        let differ = b.either(only_y, only_x);
        proof {
            assert forall|a: Assignment| #[trigger] b.circuit.settled(a) implies before.circuit.settled(a) && lit_true(a, signed(same)) == same_at(
                n as int,
                i as int,
                a,
            ) && lit_true(a, signed(differ)) == !same_at(n as int, i as int, a) by {
                lemma_wire(x, a);
                lemma_wire(y, a);
            }
        }
        equal.push(same);
        inverted.push(differ);
        i += 1;
    }
    let ghost filled = b;
    let ghost (equals, inverts) = (equal@, inverted@);
    let left = b.and(equal);
    let right = b.and(inverted);
    let out = b.either(left, right);
    let circuit = b.finish(out);
    proof {
        assert forall|a: Assignment| #[trigger] circuit.settled(a) implies lit_true(a, signed(circuit.output)) == (all_same(n as int, a)
            || all_inverted(n as int, a)) by {
            assert(b.circuit.settled(a));
            assert(filled.circuit.settled(a));
            if lit_true(a, signed(left)) {
                assert forall|j: int| 0 <= j < n implies #[trigger] same_at(n as int, j, a) by {
                    assert(lit_true(a, signed(equals[j])));
                }
            }
            if lit_true(a, signed(right)) {
                assert forall|j: int| 0 <= j < n implies !#[trigger] same_at(n as int, j, a) by {
                    assert(lit_true(a, signed(inverts[j])));
                }
            }
            if all_same(n as int, a) {
                assert forall|j: int| 0 <= j < n implies lit_true(a, signed(#[trigger] equals[j])) by {
                    assert(same_at(n as int, j, a));
                }
            }
            if all_inverted(n as int, a) {
                assert forall|j: int| 0 <= j < n implies lit_true(a, signed(#[trigger] inverts[j])) by {
                    assert(!same_at(n as int, j, a));
                }
            }
        }
        assert forall|a: Assignment| #[trigger] circuit.answerable(a) by {
            let c = copied(n as int, a);
            assert forall|d: Assignment| #[trigger] circuit.settled(d) && same_inputs(circuit, c, d) implies lit_true(d, signed(circuit.output)) by {
                lemma_copied(n as int, a, d);
            }
            lemma_answered(circuit, a, c);
        }
        lemma_true(circuit);
    }
    circuit
}

/// The assignment with the universal word copied to the existential one.
spec fn copied(n: int, a: Assignment) -> Assignment {
    |x: Var|
        if n < x.dimacs() <= 2 * n {
            a(var_of(x.dimacs() - n))
        } else {
            a(x)
        }
}

proof fn lemma_copied(n: int, a: Assignment, b: Assignment)
    requires
        0 <= 2 * n < WIRE_LIMIT,
        forall|x: Var| x.dimacs() <= 2 * n ==> copied(n, a)(x) == #[trigger] b(x),
    ensures
        all_same(n, b),
{
    assert forall|i: int| 0 <= i < n implies #[trigger] same_at(n, i, b) by {
        lemma_var_index(i);
        lemma_var_index(n + i);
        assert(copied(n, a)(var_of(i + 1)) == b(var_of(i + 1)));
        assert(copied(n, a)(var_of(n + i + 1)) == b(var_of(n + i + 1)));
    }
}

/// Every existential bit is the parity of the universal bits up to it.
pub open spec fn tracks_parity(n: int, a: Assignment) -> bool {
    forall|i: int| 0 <= i < n ==> a(#[trigger] var_of(n + i + 1)) == parity_of(a, i + 1)
}

/// Every wire of a list is true.
pub(crate) open spec fn all_hold(a: Assignment, wires: Seq<i32>) -> bool {
    forall|i: int| 0 <= i < wires.len() ==> lit_true(a, signed(#[trigger] wires[i]))
}

pub(crate) proof fn lemma_all_hold(a: Assignment, wires: Seq<i32>, last: i32)
    ensures
        all_hold(a, wires.push(last)) == (all_hold(a, wires) && lit_true(a, signed(last))),
{
    let more = wires.push(last);
    if all_hold(a, more) {
        assert forall|i: int| 0 <= i < wires.len() implies lit_true(a, signed(#[trigger] wires[i])) by {
            assert(more[i] == wires[i]);
        }
        assert(more[wires.len() as int] == last);
    }
}

/// The first bits of the existential word are prefix parities.
spec fn tracks_up_to(n: int, count: int, a: Assignment) -> bool {
    forall|i: int| 0 <= i < count ==> a(#[trigger] var_of(n + i + 1)) == parity_of(a, i + 1)
}

/// Whatever the universal word is, every existential bit must equal the
/// parity of the universal bits up to its place.
#[verifier::rlimit(60)]
pub fn parity_equalities(n: usize) -> (circuit: Circuit)
    requires
        4 * n + 1 < WIRE_LIMIT,
    ensures
        circuit.wf(),
        circuit.universals == n,
        circuit.existentials == n,
        forall|a: Assignment| #[trigger] circuit.settled(a) ==> lit_true(a, signed(circuit.output)) == tracks_parity(n as int, a),
        formula_true(circuit.prefix(), circuit.two_sided()),
{
    let mut b = Builder::new(n, n);
    let mut prefix: i32 = 1;
    let mut matches: Vec<i32> = Vec::new();
    let mut i: usize = 0;
    while i < n
        invariant
            i <= n,
            4 * n + 1 < WIRE_LIMIT,
            b.wf(),
            b.circuit.universals == n,
            b.circuit.existentials == n,
            b.circuit.gates@.len() <= 2 * i,
            matches@.len() == i,
            i > 0 ==> b.names(prefix),
            i > 0 ==> forall|a: Assignment| #[trigger] b.circuit.settled(a) ==> lit_true(a, signed(prefix)) == parity_of(a, i as int),
            forall|j: int| 0 <= j < i ==> b.names(#[trigger] matches@[j]),
            forall|a: Assignment| #[trigger] b.circuit.settled(a) ==> all_hold(a, matches@) == tracks_up_to(n as int, i as int, a),
        decreases n - i,
    {
        let ghost before = b;
        let ghost seen = prefix;
        let x = b.universal(i);
        if i > 0 {
            prefix = b.xor(prefix, x);
        } else {
            prefix = x;
        }
        let y = b.existential(i);
        let mismatch = b.xor(y, prefix);
        proof {
            assert forall|a: Assignment| #[trigger] b.circuit.settled(a) implies lit_true(a, signed(prefix)) == parity_of(a, i + 1) && all_hold(
                a,
                matches@.push((-mismatch) as i32),
            ) == tracks_up_to(n as int, i + 1, a) by {
                assert(before.circuit.settled(a));
                lemma_wire(x, a);
                lemma_wire(y, a);
                lemma_wire(mismatch, a);
                lemma_all_hold(a, matches@, (-mismatch) as i32);
                assert(parity_of(a, i + 1) == (parity_of(a, i as int) != a(var_of(i + 1))));
                if i == 0 {
                    assert(!parity_of(a, 0));
                }
                if tracks_up_to(n as int, i + 1, a) {
                    assert(a(var_of(n + i + 1)) == parity_of(a, i + 1));
                }
            }
        }
        matches.push(-mismatch);
        i += 1;
    }
    let ghost filled = b;
    let ghost wires = matches@;
    let ok = b.and(matches);
    let circuit = b.finish(ok);
    proof {
        assert forall|a: Assignment| #[trigger] circuit.settled(a) implies lit_true(a, signed(circuit.output)) == tracks_parity(n as int, a) by {
            assert(b.circuit.settled(a));
            assert(filled.circuit.settled(a));
            assert(lit_true(a, signed(ok)) == all_hold(a, wires));
            assert(tracks_up_to(n as int, n as int, a) == tracks_parity(n as int, a));
        }
        assert forall|a: Assignment| #[trigger] circuit.answerable(a) by {
            let c: Assignment = |x: Var|
                if n < x.dimacs() <= 2 * n {
                    parity_of(a, x.dimacs() - n)
                } else {
                    a(x)
                };
            assert forall|d: Assignment| #[trigger] circuit.settled(d) && same_inputs(circuit, c, d) implies lit_true(d, signed(circuit.output)) by {
                assert forall|i: int| 0 <= i < n implies d(#[trigger] var_of(n + i + 1)) == parity_of(d, i + 1) by {
                    lemma_var_index(n + i);
                    assert(c(var_of(n + i + 1)) == d(var_of(n + i + 1)));
                    assert forall|j: int| 1 <= j <= i + 1 implies a(#[trigger] var_of(j)) == d(var_of(j)) by {
                        lemma_var_index(j - 1);
                        assert(c(var_of(j)) == d(var_of(j)));
                    }
                    lemma_same_parity(a, d, i + 1);
                }
                assert(tracks_parity(n as int, d));
            }
            lemma_answered(circuit, a, c);
        }
        lemma_true(circuit);
    }
    circuit
}

/// The number that variables from `from` on hold, lowest bit first.
pub open spec fn word(a: Assignment, from: int, count: int) -> int
    decreases count,
{
    if count <= 0 {
        0
    } else {
        word(a, from, count - 1) + if a(var_of(from + count - 1)) {
            pow2((count - 1) as nat) as int
        } else {
            0
        }
    }
}

pub(crate) proof fn lemma_word_bound(a: Assignment, from: int, count: int)
    requires
        0 <= count,
    ensures
        0 <= word(a, from, count) < pow2(count as nat),
    decreases count,
{
    lemma_pow2_pos(count as nat);
    if count > 0 {
        lemma_word_bound(a, from, count - 1);
        lemma_pow2_unfold(count as nat);
    }
}

proof fn lemma_word_zero(a: Assignment, from: int, count: int)
    requires
        0 <= count,
    ensures
        word(a, from, count) == 0 <==> forall|i: int| 0 <= i < count ==> !a(#[trigger] var_of(from + i)),
    decreases count,
{
    if count > 0 {
        lemma_word_zero(a, from, count - 1);
        lemma_word_bound(a, from, count - 1);
        lemma_pow2_pos((count - 1) as nat);
        if forall|i: int| 0 <= i < count ==> !a(#[trigger] var_of(from + i)) {
            assert(!a(var_of(from + (count - 1))));
            assert(from + (count - 1) == from + count - 1);
        }
        if word(a, from, count) == 0 {
            assert forall|i: int| 0 <= i < count implies !a(#[trigger] var_of(from + i)) by {
                if i == count - 1 {
                    assert(from + i == from + count - 1);
                }
            }
        }
    }
}

/// The existential word is below the universal one, or the universal one
/// is 0.
pub open spec fn below_or_zero(n: int, a: Assignment) -> bool {
    word(a, n + 1, n) < word(a, 1, n) || word(a, 1, n) == 0
}

/// Whatever the universal word is, the existential word is below it unless
/// it is 0: an unsigned comparison under a disjunctive top, so that nothing
/// is forced from the output. The existential word is a genuine choice.
#[verifier::rlimit(60)]
pub fn comparator_choice(n: usize) -> (circuit: Circuit)
    requires
        0 < n,
        6 * n + 1 < WIRE_LIMIT,
    ensures
        circuit.wf(),
        circuit.universals == n,
        circuit.existentials == n,
        forall|a: Assignment| #[trigger] circuit.settled(a) ==> lit_true(a, signed(circuit.output)) == below_or_zero(n as int, a),
        formula_true(circuit.prefix(), circuit.two_sided()),
{
    let mut b = Builder::new(n, n);
    let mut less: i32 = 1;
    let mut zeros: Vec<i32> = Vec::new();
    let mut i: usize = 0;
    while i < n
        invariant
            i <= n,
            6 * n + 1 < WIRE_LIMIT,
            b.wf(),
            b.circuit.universals == n,
            b.circuit.existentials == n,
            i == 0 ==> b.circuit.gates@.len() == 0,
            i > 0 ==> b.circuit.gates@.len() == 4 * i - 2,
            i > 0 ==> b.names(less),
            i > 0 ==> forall|a: Assignment| #[trigger]
                b.circuit.settled(a) ==> lit_true(a, signed(less)) == (word(a, n + 1, i as int) < word(a, 1, i as int)),
        decreases n - i,
    {
        let ghost before = b;
        let ghost seen = less;
        // less-than by a borrow chain from the least significant bit
        let (x, y) = (b.universal(i), b.existential(i));
        let under = b.both(-y, x);
        let differ = b.xor(y, x);
        if i > 0 {
            let carried = b.both(-differ, less);
            less = b.either(under, carried);
        } else {
            less = under;
        }
        proof {
            assert forall|a: Assignment| #[trigger] b.circuit.settled(a) implies lit_true(a, signed(less)) == (word(a, n + 1, i + 1) < word(
                a,
                1,
                i + 1,
            )) by {
                assert(before.circuit.settled(a));
                lemma_wire(x, a);
                lemma_wire(y, a);
                lemma_wire(differ, a);
                lemma_word_bound(a, 1, i as int);
                lemma_word_bound(a, n + 1, i as int);
                assert(1 + (i + 1) - 1 == i + 1);
                assert(n + 1 + (i + 1) - 1 == n + i + 1);
                if i == 0 {
                    assert(word(a, 1, 0) == 0 && word(a, n + 1, 0) == 0);
                    lemma2_to64();
                }
            }
        }
        i += 1;
    }
    let ghost filled = b;
    let mut k: usize = 0;
    while k < n
        invariant
            k <= n,
            b == filled,
            b.wf(),
            b.circuit.universals == n,
            zeros@.len() == k,
            forall|j: int| 0 <= j < k ==> b.names(#[trigger] zeros@[j]) && zeros@[j] == -(j + 1),
        decreases n - k,
    {
        zeros.push(-b.universal(k));
        k += 1;
    }
    let ghost wires = zeros@;
    let zero = b.and(zeros);
    let ok = b.either(less, zero);
    let circuit = b.finish(ok);
    proof {
        assert forall|a: Assignment| #[trigger] circuit.settled(a) implies lit_true(a, signed(circuit.output)) == below_or_zero(n as int, a) by {
            assert(b.circuit.settled(a));
            assert(filled.circuit.settled(a));
            lemma_word_zero(a, 1, n as int);
            assert forall|j: int| 0 <= j < n implies lit_true(a, signed(#[trigger] wires[j])) == !a(var_of(1 + j)) by {
                lemma_wire((j + 1) as i32, a);
            }
            if lit_true(a, signed(zero)) {
                assert forall|j: int| 0 <= j < n implies !a(#[trigger] var_of(1 + j)) by {
                    assert(lit_true(a, signed(wires[j])));
                }
            }
        }
        assert forall|a: Assignment| #[trigger] circuit.answerable(a) by {
            let c: Assignment = |x: Var| !(n < x.dimacs() <= 2 * n) && a(x);
            assert forall|d: Assignment| #[trigger] circuit.settled(d) && same_inputs(circuit, c, d) implies lit_true(d, signed(circuit.output)) by {
                assert forall|i: int| 0 <= i < n implies !d(#[trigger] var_of(n + 1 + i)) by {
                    lemma_var_index(n + i);
                    assert(n + 1 + i == n + i + 1);
                    assert(c(var_of(n + i + 1)) == d(var_of(n + i + 1)));
                }
                lemma_word_zero(d, n + 1, n as int);
                lemma_word_bound(d, 1, n as int);
            }
            lemma_answered(circuit, a, c);
        }
        lemma_true(circuit);
    }
    circuit
}

} // verus!
