//! Families of circuits over words as a bit-blaster leaves them.
use super::relations::{all_hold, lemma_all_hold, lemma_answered, lemma_true, lemma_wire, lemma_word_bound, same_inputs, word};
use super::wiring::Builder;
use super::{signed, Circuit, WIRE_LIMIT};
use crate::literal::{lemma_var_index, var_of, Var};
use crate::semantics::{formula_true, lit_true, Assignment};
use vstd::arithmetic::div_mod::{lemma_mod_breakdown, lemma_mod_sub_multiples_vanish, lemma_small_mod};
use vstd::arithmetic::power2::{lemma2_to64, lemma_pow2_pos, lemma_pow2_strictly_increases, lemma_pow2_unfold, pow2};
use vstd::prelude::*;

verus! {

broadcast use crate::literal::group_literal;

/// The first bits of the first universal word and of the existential word
/// add up to those of the second universal word, but for a carry.
spec fn adds_up_to(n: int, count: int, a: Assignment) -> bool {
    let sum = word(a, 1, count) + word(a, 2 * n + 1, count);
    sum == word(a, n + 1, count) || sum == word(a, n + 1, count) + pow2(count as nat)
}

/// The first universal word and the existential word add up to the second
/// universal word, modulo the number of words.
pub open spec fn adds(n: int, a: Assignment) -> bool {
    (word(a, 1, n) + word(a, 2 * n + 1, n)) % (pow2(n as nat) as int) == word(a, n + 1, n)
}

proof fn lemma_adds(n: int, a: Assignment)
    requires
        0 <= n,
    ensures
        adds(n, a) == adds_up_to(n, n, a),
{
    let p = pow2(n as nat) as int;
    let sum = word(a, 1, n) + word(a, 2 * n + 1, n);
    let goal = word(a, n + 1, n);
    lemma_pow2_pos(n as nat);
    lemma_word_bound(a, 1, n);
    lemma_word_bound(a, 2 * n + 1, n);
    lemma_word_bound(a, n + 1, n);
    if sum < p {
        lemma_small_mod(sum as nat, p as nat);
    } else {
        lemma_small_mod((sum - p) as nat, p as nat);
        lemma_mod_sub_multiples_vanish(sum, p);
    }
}

/// One more place of an addition.
proof fn lemma_adds_step(n: int, i: int, a: Assignment, carry: bool)
    requires
        0 <= i < n,
        carry == (word(a, 1, i) + word(a, 2 * n + 1, i) >= pow2(i as nat)),
    ensures
        ({
            let (x, y, z) = (a(var_of(i + 1)), a(var_of(2 * n + i + 1)), a(var_of(n + i + 1)));
            &&& adds_up_to(n, i + 1, a) == (adds_up_to(n, i, a) && (((x != y) != carry) == z))
            &&& ((x && y) || (x && carry) || (y && carry)) == (word(a, 1, i + 1) + word(a, 2 * n + 1, i + 1) >= pow2((i + 1) as nat))
        }),
{
    lemma_word_bound(a, 1, i);
    lemma_word_bound(a, 2 * n + 1, i);
    lemma_word_bound(a, n + 1, i);
    lemma_pow2_unfold((i + 1) as nat);
    assert(1 + (i + 1) - 1 == i + 1);
    assert(2 * n + 1 + (i + 1) - 1 == 2 * n + i + 1);
    assert(n + 1 + (i + 1) - 1 == n + i + 1);
}

/// The assignment with a number written to the variables from `from` on.
spec fn with_word(a: Assignment, from: int, count: int, value: int) -> Assignment {
    |x: Var|
        if from <= x.dimacs() < from + count {
            (value / pow2((x.dimacs() - from) as nat) as int) % 2 == 1
        } else {
            a(x)
        }
}

/// A number that was written is read again.
proof fn lemma_with_word(a: Assignment, b: Assignment, from: int, count: int, value: int, k: int)
    requires
        0 <= value,
        1 <= from,
        0 <= k <= count,
        from + count <= WIRE_LIMIT,
        forall|x: Var| from <= x.dimacs() < from + count ==> with_word(a, from, count, value)(x) == #[trigger] b(x),
    ensures
        word(b, from, k) == value % (pow2(k as nat) as int),
    decreases k,
{
    if k == 0 {
        lemma2_to64();
    } else {
        lemma_with_word(a, b, from, count, value, k - 1);
        let p = pow2((k - 1) as nat) as int;
        lemma_pow2_pos((k - 1) as nat);
        lemma_pow2_unfold(k as nat);
        lemma_var_index(from + k - 2);
        let x = var_of(from + k - 1);
        assert(x.dimacs() == from + k - 1);
        assert(with_word(a, from, count, value)(x) == b(x));
        lemma_mod_breakdown(value, p, 2);
        assert(p * 2 == pow2(k as nat));
        let bit = (value / p) % 2;
        assert(bit == 0 || bit == 1);
        assert(p * bit == if bit == 1 {
            p
        } else {
            0
        }) by (nonlinear_arith)
            requires
                bit == 0 || bit == 1,
        ;
    }
}

proof fn lemma_same_word(a: Assignment, b: Assignment, from: int, count: int)
    requires
        forall|i: int| 0 <= i < count ==> a(#[trigger] var_of(from + i)) == b(var_of(from + i)),
    ensures
        word(a, from, count) == word(b, from, count),
    decreases count,
{
    if count > 0 {
        lemma_same_word(a, b, from, count - 1);
        assert(a(var_of(from + (count - 1))) == b(var_of(from + (count - 1))));
        assert(from + (count - 1) == from + count - 1);
    }
}

/// Whatever two words are, some existential word is their difference: the
/// sum of the first and the existential word is the second, computed by a
/// ripple-carry chain. The existential word is determined, but only by
/// inverting the adder through its definitions.
#[verifier::rlimit(80)]
pub fn adder_inverse(n: usize) -> (circuit: Circuit)
    requires
        10 * n + 1 < WIRE_LIMIT,
    ensures
        circuit.wf(),
        circuit.universals == 2 * n,
        circuit.existentials == n,
        forall|a: Assignment| #[trigger] circuit.settled(a) ==> lit_true(a, signed(circuit.output)) == adds(n as int, a),
        formula_true(circuit.prefix(), circuit.two_sided()),
{
    let mut b = Builder::new(2 * n, n);
    let mut carry: Option<i32> = None;
    let mut equal: Vec<i32> = Vec::new();
    let mut i: usize = 0;
    proof {
        lemma2_to64();
        assert forall|a: Assignment| #[trigger] b.circuit.settled(a) implies all_hold(a, equal@) == adds_up_to(n as int, 0, a) by {
            assert(word(a, 1, 0) == 0 && word(a, n + 1, 0) == 0 && word(a, 2 * n + 1, 0) == 0);
        }
    }
    while i < n
        invariant
            i <= n,
            10 * n + 1 < WIRE_LIMIT,
            b.wf(),
            b.circuit.universals == 2 * n,
            b.circuit.existentials == n,
            b.circuit.gates@.len() <= 7 * i,
            equal@.len() == i,
            carry is None <==> i == 0,
            carry matches Some(c) ==> b.names(c) && forall|a: Assignment| #[trigger]
                b.circuit.settled(a) ==> lit_true(a, signed(c)) == (word(a, 1, i as int) + word(a, 2 * n + 1, i as int) >= pow2(i as nat)),
            forall|j: int| 0 <= j < i ==> b.names(#[trigger] equal@[j]),
            forall|a: Assignment| #[trigger] b.circuit.settled(a) ==> all_hold(a, equal@) == adds_up_to(n as int, i as int, a),
        decreases n - i,
    {
        let ghost before = b;
        let ghost given = carry;
        let (ai, yi) = (b.universal(i), b.existential(i));
        let half = b.xor(ai, yi);
        let ghost halved = b;
        let sum: i32;
        // the carry out: two of the three inputs high
        let out: i32;
        match carry {
            Some(c) => {
                sum = b.xor(half, c);
                let ay = b.both(ai, yi);
                let ac = b.both(ai, c);
                let yc = b.both(yi, c);
                let args: Vec<i32> = vec![ay, ac, yc];
                assert(args@[0] == ay && args@[1] == ac && args@[2] == yc);
                let ghost wires = args@;
                out = b.or(args);
                proof {
                    assert forall|a: Assignment| #[trigger] b.circuit.settled(a) implies before.circuit.settled(a) && halved.circuit.settled(a)
                        && lit_true(a, signed(sum)) == (lit_true(a, signed(half)) != lit_true(a, signed(c))) && lit_true(a, signed(out)) == (lit_true(
                        a,
                        signed(ai),
                    ) && lit_true(a, signed(yi)) || lit_true(a, signed(ai)) && lit_true(a, signed(c)) || lit_true(a, signed(yi)) && lit_true(
                        a,
                        signed(c),
                    )) by {
                        if lit_true(a, signed(wires[0])) || lit_true(a, signed(wires[1])) || lit_true(a, signed(wires[2])) {
                        }
                    }
                }
            },
            None => {
                sum = half;
                out = b.both(ai, yi);
            },
        }
        let ghost summed = b;
        let bi = b.universal(n + i);
        let differ = b.xor(sum, bi);
        carry = Some(out);
        proof {
            assert forall|a: Assignment| #[trigger] b.circuit.settled(a) implies all_hold(a, equal@.push((-differ) as i32)) == adds_up_to(
                n as int,
                i + 1,
                a,
            ) && lit_true(a, signed(out)) == (word(a, 1, i + 1) + word(a, 2 * n + 1, i + 1) >= pow2((i + 1) as nat)) by {
                assert(summed.circuit.settled(a));
                assert(halved.circuit.settled(a));
                assert(before.circuit.settled(a));
                lemma_wire(ai, a);
                lemma_wire(yi, a);
                lemma_wire(bi, a);
                lemma_wire(differ, a);
                lemma_all_hold(a, equal@, (-differ) as i32);
                let high = match given {
                    Some(c) => lit_true(a, signed(c)),
                    None => false,
                };
                if i == 0 {
                    lemma2_to64();
                    assert(word(a, 1, 0) == 0 && word(a, 2 * n + 1, 0) == 0);
                }
                lemma_adds_step(n as int, i as int, a, high);
            }
        }
        equal.push(-differ);
        i += 1;
    }
    let ghost filled = b;
    let ghost wires = equal@;
    let ok = b.and(equal);
    let circuit = b.finish(ok);
    proof {
        assert forall|a: Assignment| #[trigger] circuit.settled(a) implies lit_true(a, signed(circuit.output)) == adds(n as int, a) by {
            assert(b.circuit.settled(a));
            assert(filled.circuit.settled(a));
            assert(lit_true(a, signed(ok)) == all_hold(a, wires));
            lemma_adds(n as int, a);
        }
        assert forall|a: Assignment| #[trigger] circuit.answerable(a) by {
            lemma_difference(circuit, n as int, a);
        }
        lemma_true(circuit);
    }
    circuit
}

/// The difference of the universal words answers them.
proof fn lemma_difference(circuit: Circuit, n: int, a: Assignment)
    requires
        circuit.wf(),
        0 <= n,
        circuit.universals == 2 * n,
        circuit.existentials == n,
        forall|a: Assignment| #[trigger] circuit.settled(a) ==> lit_true(a, signed(circuit.output)) == adds(n, a),
    ensures
        circuit.answerable(a),
{
    let p = pow2(n as nat) as int;
    lemma_word_bound(a, 1, n);
    lemma_word_bound(a, n + 1, n);
    let value = if word(a, n + 1, n) >= word(a, 1, n) {
        word(a, n + 1, n) - word(a, 1, n)
    } else {
        word(a, n + 1, n) - word(a, 1, n) + p
    };
    lemma_small_mod(value as nat, p as nat);
    let c = with_word(a, 2 * n + 1, n, value);
    assert forall|d: Assignment| #[trigger] circuit.settled(d) && same_inputs(circuit, c, d) implies lit_true(d, signed(circuit.output)) by {
        assert forall|x: Var| 2 * n + 1 <= x.dimacs() < 2 * n + 1 + n implies c(x) == #[trigger] d(x) by {}
        lemma_with_word(a, d, 2 * n + 1, n, value, n);
        assert forall|j: int| 0 <= j < 2 * n implies a(#[trigger] var_of(1 + j)) == d(var_of(1 + j)) by {
            lemma_var_index(j);
            assert(var_of(1 + j) == var_of(j + 1));
            assert(c(var_of(j + 1)) == d(var_of(j + 1)));
        }
        lemma_same_word(a, d, 1, n);
        assert forall|j: int| 0 <= j < n implies a(#[trigger] var_of(n + 1 + j)) == d(var_of(n + 1 + j)) by {
            assert(n + 1 + j == 1 + (n + j));
            assert(a(var_of(1 + (n + j))) == d(var_of(1 + (n + j))));
        }
        lemma_same_word(a, d, n + 1, n);
        assert(adds_up_to(n, n, d));
        lemma_adds(n, d);
    }
    lemma_answered(circuit, a, c);
}

/// The most address bits of a multiplexer.
pub const ADDRESS_LIMIT: usize = 28;

/// The leaf that the first address bits select from a run of leaves.
pub open spec fn selected(address_bits: int, count: int, run: int, a: Assignment) -> bool {
    a(var_of(address_bits + 1 + run * pow2(count as nat) + word(a, 1, count)))
}

/// The existential input equals the leaf that the address selects.
pub open spec fn reads_leaf(address_bits: int, a: Assignment) -> bool {
    a(var_of(address_bits + pow2(address_bits as nat) + 1)) == a(var_of(address_bits + 1 + word(a, 1, address_bits)))
}

proof fn lemma_selected(address_bits: int, count: int, run: int, a: Assignment)
    requires
        0 <= count,
        0 <= run,
    ensures
        selected(address_bits, count + 1, run, a) == if a(var_of(count + 1)) {
            selected(address_bits, count, 2 * run + 1, a)
        } else {
            selected(address_bits, count, 2 * run, a)
        },
{
    let p = pow2(count as nat) as int;
    lemma_pow2_unfold((count + 1) as nat);
    assert(1 + (count + 1) - 1 == count + 1);
    assert(run * (2 * p) == (2 * run) * p) by (nonlinear_arith);
    assert((2 * run + 1) * p == (2 * run) * p + p) by (nonlinear_arith);
}

/// The number of words of the given width.
fn words_of_width(width: usize) -> (count: usize)
    requires
        width <= ADDRESS_LIMIT,
    ensures
        count == pow2(width as nat),
        1 <= count <= 268_435_456,
{
    let mut count: usize = 1;
    let mut k: usize = 0;
    proof {
        lemma2_to64();
    }
    while k < width
        invariant
            k <= width <= ADDRESS_LIMIT,
            count == pow2(k as nat),
            pow2(28) == 268_435_456,
        decreases width - k,
    {
        proof {
            lemma_pow2_strictly_increases(k as nat, 28);
            lemma_pow2_unfold((k + 1) as nat);
        }
        count = count * 2;
        k += 1;
    }
    proof {
        lemma_pow2_pos(width as nat);
        if width < 28 {
            lemma_pow2_strictly_increases(width as nat, 28);
        }
    }
    count
}

/// One level of a multiplexer: every pair of wires becomes the one that the
/// address bit selects.
fn select_pairs(b: &mut Builder, address: i32, layer: &Vec<i32>, pairs: usize) -> (next: Vec<i32>)
    requires
        old(b).wf(),
        old(b).circuit.inputs() + old(b).circuit.gates@.len() + 3 * pairs < WIRE_LIMIT,
        old(b).names(address),
        address > 0,
        layer@.len() == 2 * pairs,
        forall|j: int| 0 <= j < layer@.len() ==> old(b).names(#[trigger] layer@[j]),
    ensures
        final(b).grows(*old(b), 3 * pairs),
        next@.len() == pairs,
        forall|j: int| 0 <= j < pairs ==> final(b).names(#[trigger] next@[j]),
        forall|j: int, a: Assignment|
            0 <= j < pairs && #[trigger] final(b).circuit.settled(a) ==> lit_true(a, signed(#[trigger] next@[j])) == if lit_true(
                a,
                signed(address),
            ) {
                lit_true(a, signed(layer@[2 * j + 1]))
            } else {
                lit_true(a, signed(layer@[2 * j]))
            },
{
    let ghost start = *b;
    let mut next: Vec<i32> = Vec::new();
    let mut k: usize = 0;
    while k < pairs
        invariant
            k <= pairs,
            start.circuit.inputs() + start.circuit.gates@.len() + 3 * pairs < WIRE_LIMIT,
            b.grows(start, 3 * k),
            start.names(address),
            address > 0,
            layer@.len() == 2 * pairs,
            forall|j: int| 0 <= j < layer@.len() ==> start.names(#[trigger] layer@[j]),
            next@.len() == k,
            forall|j: int| 0 <= j < k ==> b.names(#[trigger] next@[j]),
            forall|j: int, a: Assignment|
                0 <= j < k && #[trigger] b.circuit.settled(a) ==> lit_true(a, signed(#[trigger] next@[j])) == if lit_true(a, signed(address)) {
                    lit_true(a, signed(layer@[2 * j + 1]))
                } else {
                    lit_true(a, signed(layer@[2 * j]))
                },
        decreases pairs - k,
    {
        let ghost before = *b;
        let low_arg = layer[2 * k];
        let high_arg = layer[2 * k + 1];
        let low = b.both(-address, low_arg);
        let high = b.both(address, high_arg);
        let chosen = b.either(low, high);
        proof {
            assert forall|a: Assignment| #[trigger] b.circuit.settled(a) implies before.circuit.settled(a) && start.circuit.settled(a) && lit_true(
                a,
                signed(chosen),
            ) == if lit_true(a, signed(address)) {
                lit_true(a, signed(high_arg))
            } else {
                lit_true(a, signed(low_arg))
            } by {
                lemma_wire(address, a);
            }
        }
        next.push(chosen);
        k += 1;
    }
    next
}

/// Whatever the address and the leaves are, the existential input must
/// equal the leaf that a tree of multiplexers selects.
#[verifier::rlimit(80)]
pub fn mux_tree(address_bits: usize) -> (circuit: Circuit)
    requires
        address_bits <= ADDRESS_LIMIT,
    ensures
        circuit.wf(),
        circuit.universals == address_bits + pow2(address_bits as nat),
        circuit.existentials == 1,
        forall|a: Assignment| #[trigger] circuit.settled(a) ==> lit_true(a, signed(circuit.output)) == reads_leaf(address_bits as int, a),
        formula_true(circuit.prefix(), circuit.two_sided()),
{
    let leaves = words_of_width(address_bits);
    let ghost k = address_bits as int;
    let mut b = Builder::new(address_bits + leaves, 1);
    let mut layer: Vec<i32> = Vec::new();
    let mut i: usize = 0;
    while i < leaves
        invariant
            i <= leaves <= 268_435_456,
            address_bits <= ADDRESS_LIMIT,
            b.wf(),
            b.circuit.universals == address_bits + leaves,
            layer@.len() == i,
            forall|j: int| 0 <= j < i ==> b.names(#[trigger] layer@[j]) && layer@[j] == address_bits + j + 1,
        decreases leaves - i,
    {
        layer.push(b.universal(address_bits + i));
        i += 1;
    }
    let mut bit: usize = 0;
    let mut width = leaves;
    proof {
        lemma2_to64();
        assert forall|j: int, a: Assignment| 0 <= j < width && #[trigger] b.circuit.settled(a) implies lit_true(a, signed(#[trigger] layer@[j]))
            == selected(k, 0, j, a) by {
            lemma_wire(layer@[j], a);
            assert(word(a, 1, 0) == 0);
            assert(j * 1 == j);
        }
    }
    while bit < address_bits
        invariant
            bit <= address_bits <= ADDRESS_LIMIT,
            k == address_bits,
            leaves <= 268_435_456,
            width == pow2((address_bits - bit) as nat),
            width <= leaves,
            b.wf(),
            b.circuit.universals == address_bits + leaves,
            b.circuit.existentials == 1,
            b.circuit.gates@.len() == 3 * (leaves - width),
            layer@.len() == width,
            forall|j: int| 0 <= j < width ==> b.names(#[trigger] layer@[j]),
            forall|j: int, a: Assignment|
                0 <= j < width && #[trigger] b.circuit.settled(a) ==> lit_true(a, signed(#[trigger] layer@[j])) == selected(k, bit as int, j, a),
        decreases address_bits - bit,
    {
        proof {
            lemma_pow2_unfold((address_bits - bit) as nat);
        }
        let ghost before = b;
        let ghost wires = layer@;
        let half = width / 2;
        let address = b.universal(bit);
        let next = select_pairs(&mut b, address, &layer, half);
        proof {
            assert forall|j: int, a: Assignment| 0 <= j < half && #[trigger] b.circuit.settled(a) implies lit_true(
                a,
                signed(#[trigger] next@[j]),
            ) == selected(k, bit + 1, j, a) by {
                assert(before.circuit.settled(a));
                lemma_wire(address, a);
                lemma_selected(k, bit as int, j, a);
                assert(lit_true(a, signed(wires[2 * j])) == selected(k, bit as int, 2 * j, a));
                assert(lit_true(a, signed(wires[2 * j + 1])) == selected(k, bit as int, 2 * j + 1, a));
            }
        }
        layer = next;
        width = half;
        bit += 1;
    }
    proof {
        lemma2_to64();
    }
    let ghost filled = b;
    let root = layer[0];
    let y = b.existential(0);
    let mismatch = b.xor(y, root);
    let circuit = b.finish(-mismatch);
    proof {
        assert forall|a: Assignment| #[trigger] circuit.settled(a) implies lit_true(a, signed(circuit.output)) == reads_leaf(k, a) by {
            assert(b.circuit.settled(a));
            assert(filled.circuit.settled(a));
            lemma_wire(mismatch, a);
            lemma_wire(y, a);
            assert(lit_true(a, signed(root)) == selected(k, k, 0, a));
        }
        assert forall|a: Assignment| #[trigger] circuit.answerable(a) by {
            lemma_leaf(circuit, k, a);
        }
        lemma_true(circuit);
    }
    circuit
}

/// The selected leaf answers a multiplexer.
proof fn lemma_leaf(circuit: Circuit, k: int, a: Assignment)
    requires
        circuit.wf(),
        0 <= k,
        circuit.universals == k + pow2(k as nat),
        circuit.existentials == 1,
        forall|a: Assignment| #[trigger] circuit.settled(a) ==> lit_true(a, signed(circuit.output)) == reads_leaf(k, a),
    ensures
        circuit.answerable(a),
{
    let last = k + pow2(k as nat) + 1;
    let leaf = a(var_of(k + 1 + word(a, 1, k)));
    let c: Assignment = |x: Var|
        if x.dimacs() == last {
            leaf
        } else {
            a(x)
        };
    assert forall|d: Assignment| #[trigger] circuit.settled(d) && same_inputs(circuit, c, d) implies lit_true(d, signed(circuit.output)) by {
        lemma_var_index(last - 1);
        assert(c(var_of(last)) == d(var_of(last)));
        assert forall|j: int| 0 <= j < k implies a(#[trigger] var_of(1 + j)) == d(var_of(1 + j)) by {
            lemma_var_index(j);
            assert(1 + j == j + 1);
            assert(c(var_of(j + 1)) == d(var_of(j + 1)));
        }
        lemma_same_word(a, d, 1, k);
        lemma_word_bound(a, 1, k);
        let at = k + word(a, 1, k);
        lemma_var_index(at);
        assert(at + 1 == k + 1 + word(a, 1, k));
        assert(c(var_of(at + 1)) == d(var_of(at + 1)));
    }
    lemma_answered(circuit, a, c);
}

} // verus!
