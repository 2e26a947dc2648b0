//! How many cubes a region of states needs.
use crate::aiger::explicit::{bits, count_true, lemma_count, lemma_state_of, lists_losing, losing_states, state_of, states};
use vstd::prelude::*;

verus! {

/// A cube of states: a value for some latches.
pub open spec fn fits_cube(cube: Seq<Option<bool>>, state: Seq<bool>) -> bool {
    forall|i: int| 0 <= i < cube.len() ==> (#[trigger] cube[i] matches Some(v) ==> state[i] == v)
}

/// All states of the cube are in the region.
pub open spec fn inside(region: Seq<bool>, cube: Seq<Option<bool>>, latches: nat) -> bool {
    forall|n: int| 0 <= n < region.len() && fits_cube(cube, #[trigger] state_of(n as nat, latches)) ==> region[n]
}

/// The cube is in the region, and no literal of it can be dropped.
#[verifier::opaque]
pub open spec fn prime(region: Seq<bool>, cube: Seq<Option<bool>>, latches: nat) -> bool {
    &&& cube.len() == latches
    &&& inside(region, cube, latches)
    &&& forall|i: int| 0 <= i < latches && (#[trigger] cube[i]) is Some ==> !inside(region, cube.update(i, None), latches)
}

/// Some cube of the list has the state.
pub open spec fn covered(cubes: Seq<Vec<Option<bool>>>, state: Seq<bool>) -> bool {
    exists|k: int| 0 <= k < cubes.len() && fits_cube((#[trigger] cubes[k])@, state)
}

/// The cubes are primes of the region and cover it.
pub open spec fn is_cover(region: Seq<bool>, cubes: Seq<Vec<Option<bool>>>, latches: nat) -> bool {
    &&& forall|k: int| 0 <= k < cubes.len() ==> prime(region, (#[trigger] cubes[k])@, latches)
    &&& forall|n: int| 0 <= n < region.len() && #[trigger] region[n] ==> covered(cubes, state_of(n as nat, latches))
}

/// The cube after the first literals have been dropped in order, each
/// where the cube stays in the region.
pub open spec fn widened(region: Seq<bool>, cube: Seq<Option<bool>>, count: int, latches: nat) -> Seq<Option<bool>>
    decreases count,
{
    if count <= 0 {
        cube
    } else {
        let before = widened(region, cube, count - 1, latches);
        if inside(region, before.update(count - 1, None), latches) {
            before.update(count - 1, None)
        } else {
            before
        }
    }
}

/// The cube that a state of the region expands to.
pub open spec fn expansion(region: Seq<bool>, n: nat, latches: nat) -> Seq<Option<bool>> {
    widened(region, Seq::new(latches, |i: int| Some(state_of(n, latches)[i])), latches as int, latches)
}

/// The states of the region that the first cubes leave open.
pub open spec fn left_open(region: Seq<bool>, cubes: Seq<Vec<Option<bool>>>, count: int, latches: nat) -> Seq<bool> {
    Seq::new(region.len(), |n: int| region[n] && !covered(cubes.take(count), state_of(n as nat, latches)))
}

/// A cube is an expansion of a state of the region.
pub open spec fn expands_some(region: Seq<bool>, cube: Seq<Option<bool>>, latches: nat, count: int) -> bool {
    exists|n: int| 0 <= n < count && #[trigger] region[n] && cube == expansion(region, n as nat, latches)
}

/// How many states a cube holds that the first cubes leave open.
pub open spec fn added(region: Seq<bool>, cubes: Seq<Vec<Option<bool>>>, count: int, cube: Seq<Option<bool>>, latches: nat) -> nat {
    gain_of(left_open(region, cubes, count, latches), cube, latches, region.len() as int)
}

/// Each cube is an expansion that adds a state to those before it, and no
/// other expansion adds more.
pub open spec fn greedy(region: Seq<bool>, cubes: Seq<Vec<Option<bool>>>, latches: nat) -> bool {
    forall|k: int| 0 <= k < cubes.len() ==> #[trigger] chosen_at(region, cubes, k, latches)
}

/// The cube at a position is an expansion that adds the most.
pub open spec fn chosen_at(region: Seq<bool>, cubes: Seq<Vec<Option<bool>>>, k: int, latches: nat) -> bool {
    let most = added(region, cubes, k, cubes[k]@, latches);
    &&& expands_some(region, cubes[k]@, latches, region.len() as int)
    &&& most > 0
    &&& forall|n: int| 0 <= n < region.len() && #[trigger] region[n] ==> added(region, cubes, k, expansion(region, n as nat, latches), latches)
        <= most
}

/// Whether a state is in a cube.
fn fits(cube: &Vec<Option<bool>>, state: &Vec<bool>) -> (yes: bool)
    requires
        cube@.len() == state@.len(),
    ensures
        yes == fits_cube(cube@, state@),
{
    let mut k: usize = 0;
    while k < cube.len()
        invariant
            k <= cube@.len(),
            cube@.len() == state@.len(),
            forall|i: int| 0 <= i < k ==> (#[trigger] cube@[i] matches Some(v) ==> state@[i] == v),
        decreases cube.len() - k,
    {
        match cube[k] {
            Some(v) => {
                if state[k] != v {
                    assert(cube@[k as int] == Some(v));
                    return false;
                }
            },
            None => {},
        }
        k += 1;
    }
    true
}

/// Whether a cube is in the region.
fn is_inside(region: &Vec<bool>, cube: &Vec<Option<bool>>, latches: usize) -> (yes: bool)
    requires
        cube@.len() == latches,
        region@.len() == states(latches as nat),
    ensures
        yes == inside(region@, cube@, latches as nat),
{
    let mut n: usize = 0;
    while n < region.len()
        invariant
            n <= region@.len(),
            cube@.len() == latches,
            region@.len() == states(latches as nat),
            forall|k: int| 0 <= k < n && fits_cube(cube@, #[trigger] state_of(k as nat, latches as nat)) ==> region@[k],
        decreases region.len() - n,
    {
        let state = bits(n, latches);
        proof {
            lemma_state_of(n as nat, latches as nat);
        }
        if fits(cube, &state) && !region[n] {
            proof {
                let at = n as int;
                assert(fits_cube(cube@, state_of(at as nat, latches as nat)) && !region@[at]);
            }
            return false;
        }
        n += 1;
    }
    true
}

/// A larger cube holds more states.
proof fn lemma_wider(narrow: Seq<Option<bool>>, wide: Seq<Option<bool>>, region: Seq<bool>, latches: nat)
    requires
        narrow.len() == wide.len(),
        forall|i: int| 0 <= i < wide.len() && (#[trigger] wide[i]) is Some ==> narrow[i] == wide[i],
        inside(region, wide, latches),
    ensures
        inside(region, narrow, latches),
{
    assert forall|n: int| 0 <= n < region.len() && fits_cube(narrow, #[trigger] state_of(n as nat, latches)) implies region[n] by {
        let state = state_of(n as nat, latches);
        assert forall|i: int| 0 <= i < wide.len() implies (#[trigger] wide[i] matches Some(v) ==> state[i] == v) by {
            if wide[i] is Some {
                assert(narrow[i] == wide[i]);
            }
        }
        assert(fits_cube(wide, state));
    }
}

/// Expands a state of the region to a maximal cube that stays in it:
/// literals are dropped in a fixed order.
fn expand(region: &Vec<bool>, n: usize, latches: usize) -> (cube: Vec<Option<bool>>)
    requires
        region@.len() == states(latches as nat),
        n < region@.len(),
        region@[n as int],
    ensures
        prime(region@, cube@, latches as nat),
        fits_cube(cube@, state_of(n as nat, latches as nat)),
        cube@ == expansion(region@, n as nat, latches as nat),
{
    let state = bits(n, latches);
    proof {
        lemma_state_of(n as nat, latches as nat);
    }
    let mut cube: Vec<Option<bool>> = Vec::new();
    let mut k: usize = 0;
    while k < latches
        invariant
            k <= latches,
            state@.len() == latches,
            cube@.len() == k,
            forall|i: int| 0 <= i < k ==> #[trigger] cube@[i] == Some(state@[i]),
        decreases latches - k,
    {
        cube.push(Some(state[k]));
        k += 1;
    }
    proof {
        assert forall|m: int| 0 <= m < region@.len() && fits_cube(cube@, #[trigger] state_of(m as nat, latches as nat)) implies region@[m] by {
            lemma_state_of(m as nat, latches as nat);
            let other = state_of(m as nat, latches as nat);
            assert forall|i: int| 0 <= i < latches implies other[i] == state@[i] by {
                assert(cube@[i] == Some(state@[i]));
            }
            assert(other =~= state@);
        }
    }
    let mut k: usize = 0;
    let ghost full = cube@;
    assert(full =~= Seq::new(latches as nat, |i: int| Some(state_of(n as nat, latches as nat)[i])));
    while k < latches
        invariant
            k <= latches,
            cube@ == widened(region@, full, k as int, latches as nat),
            state@ == state_of(n as nat, latches as nat),
            state@.len() == latches,
            region@.len() == states(latches as nat),
            cube@.len() == latches,
            inside(region@, cube@, latches as nat),
            forall|i: int| 0 <= i < latches && (#[trigger] cube@[i]) is Some ==> cube@[i] == Some(state@[i]),
            forall|i: int| 0 <= i < k && (#[trigger] cube@[i]) is Some ==> !inside(region@, cube@.update(i, None), latches as nat),
        decreases latches - k,
    {
        let ghost before = cube@;
        let held = cube[k];
        cube.set(k, None);
        if !is_inside(region, &cube, latches) {
            cube.set(k, held);
            proof {
                assert(cube@ =~= before);
                assert(before.update(k as int, None) =~= before.update(k as int, None));
                assert forall|i: int| 0 <= i < k + 1 && (#[trigger] cube@[i]) is Some implies !inside(
                    region@,
                    cube@.update(i, None),
                    latches as nat,
                ) by {
                    if i < k {
                        assert(before[i] is Some);
                    }
                }
            }
        } else {
            proof {
                assert forall|i: int| 0 <= i < k + 1 && (#[trigger] cube@[i]) is Some implies !inside(
                    region@,
                    cube@.update(i, None),
                    latches as nat,
                ) by {
                    assert(i < k);
                    assert(before[i] is Some);
                    if inside(region@, cube@.update(i, None), latches as nat) {
                        lemma_wider(before.update(i, None), cube@.update(i, None), region@, latches as nat);
                    }
                }
            }
        }
        k += 1;
    }
    proof {
        assert forall|i: int| 0 <= i < cube@.len() implies (#[trigger] cube@[i] matches Some(v) ==> state@[i] == v) by {}
        reveal(prime);
    }
    cube
}

proof fn lemma_prime(region: Seq<bool>, cube: Seq<Option<bool>>, latches: nat)
    requires
        prime(region, cube, latches),
    ensures
        cube.len() == latches,
        inside(region, cube, latches),
{
    reveal(prime);
}

/// The cubes fix the same latches from a position on.
spec fn fixed_alike(left: Seq<Option<bool>>, right: Seq<Option<bool>>, from: int) -> bool {
    forall|i: int| from <= i < left.len() ==> (#[trigger] left[i] is Some) == (right[i] is Some)
}

/// The highest latch that one of the cubes fixes alone.
spec fn first_unlike(left: Seq<Option<bool>>, right: Seq<Option<bool>>, k: int) -> bool {
    0 <= k < left.len() && fixed_alike(left, right, k + 1) && (left[k] is Some) != (right[k] is Some)
}

/// The highest latch that the cubes fix differently.
spec fn first_different(left: Seq<Option<bool>>, right: Seq<Option<bool>>, k: int) -> bool {
    0 <= k < left.len() && left[k] != right[k] && forall|i: int| k < i < left.len() ==> #[trigger] left[i] == right[i]
}

/// Whether a cube comes before another: fewer fixed high latches, or lower
/// values of them.
fn precedes(left: &Vec<Option<bool>>, right: &Vec<Option<bool>>) -> (result: Option<bool>)
    requires
        left@.len() == right@.len(),
    ensures
        match result {
            None => left@ == right@,
            Some(before) => {
                ||| exists|k: int| #[trigger] first_unlike(left@, right@, k) && before == (right@[k] is Some)
                ||| fixed_alike(left@, right@, 0) && exists|k: int| #[trigger]
                    first_different(left@, right@, k) && right@[k] == Some(before)
            },
        },
{
    let mut k: usize = left.len();
    while k > 0
        invariant
            k <= left@.len(),
            left@.len() == right@.len(),
            forall|i: int| k <= i < left@.len() ==> (#[trigger] left@[i] is Some) == (right@[i] is Some),
        decreases k,
    {
        k -= 1;
        if left[k].is_some() != right[k].is_some() {
            assert(first_unlike(left@, right@, k as int));
            return Some(right[k].is_some());
        }
    }
    let mut k: usize = left.len();
    while k > 0
        invariant
            k <= left@.len(),
            left@.len() == right@.len(),
            forall|i: int| 0 <= i < left@.len() ==> (#[trigger] left@[i] is Some) == (right@[i] is Some),
            forall|i: int| k <= i < left@.len() ==> #[trigger] left@[i] == right@[i],
        decreases k,
    {
        k -= 1;
        match (left[k], right[k]) {
            (Some(a), Some(b)) => {
                if a != b {
                    assert(fixed_alike(left@, right@, 0));
                    assert(first_different(left@, right@, k as int));
                    return Some(b);
                }
            },
            _ => {},
        }
    }
    assert(left@ =~= right@);
    None
}

/// The cube is in the list.
pub open spec fn listed(cubes: Seq<Vec<Option<bool>>>, cube: Seq<Option<bool>>) -> bool {
    exists|k: int| 0 <= k < cubes.len() && (#[trigger] cubes[k])@ == cube
}

/// Inserts a cube in order, unless it is there.
fn insert_cube(cubes: &mut Vec<Vec<Option<bool>>>, cube: Vec<Option<bool>>, Ghost(region): Ghost<Seq<bool>>, Ghost(latches): Ghost<nat>)
    requires
        prime(region, cube@, latches),
        forall|k: int| 0 <= k < old(cubes)@.len() ==> prime(region, (#[trigger] old(cubes)@[k])@, latches),
    ensures
        forall|k: int| 0 <= k < final(cubes)@.len() ==> prime(region, (#[trigger] final(cubes)@[k])@, latches),
        forall|state: Seq<bool>| covered(old(cubes)@, state) || fits_cube(cube@, state) ==> #[trigger] covered(final(cubes)@, state),
        forall|c: Seq<Option<bool>>| #[trigger] listed(final(cubes)@, c) <==> listed(old(cubes)@, c) || c == cube@,
{
    let ghost before = cubes@;
    let mut k: usize = 0;
    proof {
        lemma_prime(region, cube@, latches);
    }
    while k < cubes.len()
        invariant
            k <= cubes@.len(),
            before == old(cubes)@,
            cubes@ == before,
            cube@.len() == latches,
            forall|i: int| 0 <= i < before.len() ==> prime(region, (#[trigger] before[i])@, latches),
        decreases cubes.len() - k,
    {
        proof {
            assert(prime(region, before[k as int]@, latches));
            lemma_prime(region, cubes@[k as int]@, latches);
        }
        match precedes(&cubes[k], &cube) {
            None => {
                proof {
                    assert forall|state: Seq<bool>| covered(before, state) || fits_cube(cube@, state) implies #[trigger] covered(cubes@, state) by {
                        if fits_cube(cube@, state) {
                            assert(fits_cube(cubes@[k as int]@, state));
                        }
                    }
                    assert(listed(cubes@, cube@));
                }
                return;
            },
            Some(true) => {},
            Some(false) => {
                break;
            },
        }
        k += 1;
    }
    cubes.insert(k, cube);
    proof {
        let after = cubes@;
        assert(after == before.insert(k as int, cube));
        assert forall|i: int| 0 <= i < after.len() implies prime(region, (#[trigger] after[i])@, latches) by {
            if i < k {
                assert(after[i] == before[i]);
            } else if i > k {
                assert(after[i] == before[i - 1]);
            }
        }
        assert forall|c: Seq<Option<bool>>| #[trigger] listed(after, c) <==> listed(before, c) || c == cube@ by {
            if listed(before, c) {
                let i = choose|i: int| 0 <= i < before.len() && (#[trigger] before[i])@ == c;
                if i < k {
                    assert(after[i] == before[i]);
                } else {
                    assert(after[i + 1] == before[i]);
                }
            }
            if c == cube@ {
                assert(after[k as int] == cube);
            }
            if listed(after, c) {
                let i = choose|i: int| 0 <= i < after.len() && (#[trigger] after[i])@ == c;
                if i < k {
                    assert(after[i] == before[i]);
                } else if i > k {
                    assert(after[i] == before[i - 1]);
                }
            }
        }
        assert forall|state: Seq<bool>| covered(before, state) || fits_cube(cube@, state) implies #[trigger] covered(after, state) by {
            if fits_cube(cube@, state) {
                assert(after[k as int] == cube);
            } else {
                let i = choose|i: int| 0 <= i < before.len() && fits_cube((#[trigger] before[i])@, state);
                if i < k {
                    assert(after[i] == before[i]);
                } else {
                    assert(after[i + 1] == before[i]);
                }
            }
        }
    }
}

/// How many states of a table a cube holds.
pub open spec fn gain_of(open: Seq<bool>, cube: Seq<Option<bool>>, latches: nat, count: int) -> nat
    decreases count,
{
    if count <= 0 {
        0
    } else {
        gain_of(open, cube, latches, count - 1) + if open[count - 1] && fits_cube(cube, state_of((count - 1) as nat, latches)) {
            1nat
        } else {
            0nat
        }
    }
}

fn gain(open: &Vec<bool>, cube: &Vec<Option<bool>>, latches: usize) -> (count: usize)
    requires
        open@.len() == states(latches as nat),
        cube@.len() == latches,
    ensures
        count == gain_of(open@, cube@, latches as nat, open@.len() as int),
{
    let mut count: usize = 0;
    let mut n: usize = 0;
    while n < open.len()
        invariant
            n <= open@.len(),
            open@.len() == states(latches as nat),
            cube@.len() == latches,
            count == gain_of(open@, cube@, latches as nat, n as int),
            count <= n,
        decreases open.len() - n,
    {
        if open[n] {
            let state = bits(n, latches);
            proof {
                lemma_state_of(n as nat, latches as nat);
            }
            if fits(cube, &state) {
                count += 1;
            }
        }
        n += 1;
    }
    count
}

/// A cube with a state of the table gains something, and one that gains
/// something has a state.
proof fn lemma_gain(open: Seq<bool>, cube: Seq<Option<bool>>, latches: nat, count: int)
    requires
        0 <= count <= open.len(),
    ensures
        gain_of(open, cube, latches, count) > 0 <==> exists|n: int|
            0 <= n < count && #[trigger] open[n] && fits_cube(cube, state_of(n as nat, latches)),
    decreases count,
{
    if count > 0 {
        lemma_gain(open, cube, latches, count - 1);
        if gain_of(open, cube, latches, count - 1) > 0 {
            let n = choose|n: int| 0 <= n < count - 1 && #[trigger] open[n] && fits_cube(cube, state_of(n as nat, latches));
            assert(open[n] && fits_cube(cube, state_of(n as nat, latches)));
        }
        if open[count - 1] && fits_cube(cube, state_of((count - 1) as nat, latches)) {
            assert(0 <= count - 1 < count);
        }
    }
}

/// Chooses prime cubes that cover a region, greedily by how many states
/// they add.
pub fn prime_cover(region: &Vec<bool>, latches: usize) -> (cubes: Vec<Vec<Option<bool>>>)
    requires
        region@.len() == states(latches as nat),
    ensures
        is_cover(region@, cubes@, latches as nat),
        greedy(region@, cubes@, latches as nat),
{
    let ghost width = latches as nat;
    let mut primes: Vec<Vec<Option<bool>>> = Vec::new();
    let mut n: usize = 0;
    while n < region.len()
        invariant
            n <= region@.len(),
            region@.len() == states(width),
            width == latches,
            forall|k: int| 0 <= k < primes@.len() ==> prime(region@, (#[trigger] primes@[k])@, width),
            forall|i: int| 0 <= i < n && #[trigger] region@[i] ==> covered(primes@, state_of(i as nat, width)),
            forall|c: Seq<Option<bool>>| #[trigger] listed(primes@, c) <==> expands_some(region@, c, width, n as int),
        decreases region.len() - n,
    {
        if region[n] {
            let ghost before = primes@;
            let cube = expand(region, n, latches);
            insert_cube(&mut primes, cube, Ghost(region@), Ghost(width));
            proof {
                assert forall|c: Seq<Option<bool>>| #[trigger] listed(primes@, c) <==> expands_some(region@, c, width, n as int + 1) by {
                    assert(listed(before, c) <==> expands_some(region@, c, width, n as int));
                    if expands_some(region@, c, width, n as int + 1) && !expands_some(region@, c, width, n as int) {
                        let i = choose|i: int| 0 <= i < n + 1 && #[trigger] region@[i] && c == expansion(region@, i as nat, width);
                        assert(i == n);
                    }
                    if expands_some(region@, c, width, n as int) {
                        let i = choose|i: int| 0 <= i < n && #[trigger] region@[i] && c == expansion(region@, i as nat, width);
                        assert(region@[i]);
                    }
                    if c == expansion(region@, n as nat, width) {
                        assert(region@[n as int]);
                    }
                }
                assert forall|i: int| 0 <= i < n + 1 && #[trigger] region@[i] implies covered(primes@, state_of(i as nat, width)) by {
                    if i < n {
                        assert(covered(before, state_of(i as nat, width)));
                    }
                }
            }
        } else {
            proof {
                assert forall|c: Seq<Option<bool>>| #[trigger] listed(primes@, c) <==> expands_some(region@, c, width, n as int + 1) by {
                    if expands_some(region@, c, width, n as int + 1) {
                        let i = choose|i: int| 0 <= i < n + 1 && #[trigger] region@[i] && c == expansion(region@, i as nat, width);
                        assert(i < n);
                    }
                    if expands_some(region@, c, width, n as int) {
                        let i = choose|i: int| 0 <= i < n && #[trigger] region@[i] && c == expansion(region@, i as nat, width);
                        assert(region@[i]);
                    }
                }
            }
        }
        n += 1;
    }
    let mut open: Vec<bool> = Vec::new();
    let mut n: usize = 0;
    while n < region.len()
        invariant
            n <= region@.len(),
            open@ == region@.take(n as int),
        decreases region.len() - n,
    {
        open.push(region[n]);
        n += 1;
        assert(open@ =~= region@.take(n as int));
    }
    assert(open@ =~= region@);
    let mut chosen: Vec<Vec<Option<bool>>> = Vec::new();
    assert(chosen@.take(0) =~= chosen@);
    assert(open@ =~= left_open(region@, chosen@, 0, width));
    loop
        invariant
            forall|c: Seq<Option<bool>>| #[trigger] listed(primes@, c) <==> expands_some(region@, c, width, region@.len() as int),
            open@ == left_open(region@, chosen@, chosen@.len() as int, width),
            greedy(region@, chosen@, width),
            region@.len() == states(width),
            width == latches,
            open@.len() == region@.len(),
            forall|k: int| 0 <= k < primes@.len() ==> prime(region@, (#[trigger] primes@[k])@, width),
            forall|i: int| 0 <= i < region@.len() && #[trigger] region@[i] ==> covered(primes@, state_of(i as nat, width)),
            forall|k: int| 0 <= k < chosen@.len() ==> prime(region@, (#[trigger] chosen@[k])@, width),
            forall|i: int| 0 <= i < region@.len() && #[trigger] open@[i] ==> region@[i],
            forall|i: int| 0 <= i < region@.len() && #[trigger] region@[i] && !open@[i] ==> covered(chosen@, state_of(i as nat, width)),
        decreases count_true(open@),
    {
        // the last of the best cubes
        let mut best: usize = 0;
        let mut most: usize = 0;
        let mut k: usize = 0;
        while k < primes.len()
            invariant
                k <= primes@.len(),
                open@.len() == states(width),
                width == latches,
                forall|i: int| 0 <= i < primes@.len() ==> prime(region@, (#[trigger] primes@[i])@, width),
                most > 0 ==> best < k,
                most > 0 ==> most == gain_of(open@, primes@[best as int]@, width, open@.len() as int),
                forall|i: int| 0 <= i < k ==> gain_of(open@, (#[trigger] primes@[i])@, width, open@.len() as int) <= most,
            decreases primes.len() - k,
        {
            proof {
                lemma_prime(region@, primes@[k as int]@, width);
            }
            let count = gain(&open, &primes[k], latches);
            if count > 0 && count >= most {
                best = k;
                most = count;
            }
            k += 1;
        }
        if most == 0 {
            proof {
                assert forall|i: int| 0 <= i < region@.len() && #[trigger] region@[i] implies covered(chosen@, state_of(i as nat, width)) by {
                    if open@[i] {
                        assert(covered(primes@, state_of(i as nat, width)));
                        let p = choose|p: int| 0 <= p < primes@.len() && fits_cube((#[trigger] primes@[p])@, state_of(i as nat, width));
                        lemma_gain(open@, primes@[p]@, width, open@.len() as int);
                        assert(gain_of(open@, primes@[p]@, width, open@.len() as int) <= most);
                    }
                }
            }
            return chosen;
        }
        proof {
            lemma_prime(region@, primes@[best as int]@, width);
            lemma_gain(open@, primes@[best as int]@, width, open@.len() as int);
        }
        let ghost before = open@;
        let ghost cube = primes@[best as int]@;
        let ghost at = choose|i: int| 0 <= i < before.len() && #[trigger] before[i] && fits_cube(cube, state_of(i as nat, width));
        let mut n: usize = 0;
        while n < open.len()
            invariant
                n <= open@.len(),
                best < primes@.len(),
                cube == primes@[best as int]@,
                cube.len() == latches,
                width == latches,
                open@.len() == before.len(),
                before.len() == states(width),
                forall|i: int| n <= i < before.len() ==> #[trigger] open@[i] == before[i],
                forall|i: int| 0 <= i < n ==> #[trigger] open@[i] == (before[i] && !fits_cube(cube, state_of(i as nat, width))),
            decreases open.len() - n,
        {
            if open[n] {
                let state = bits(n, latches);
                proof {
                    lemma_state_of(n as nat, width);
                }
                if fits(&primes[best], &state) {
                    open.set(n, false);
                }
            }
            n += 1;
        }
        let copy = copy_cube(&primes[best]);
        let ghost earlier = chosen@;
        chosen.push(copy);
        proof {
            lemma_left_open(region@, earlier, copy, width);
            assert(before == left_open(region@, earlier, earlier.len() as int, width));
            assert(open@ =~= left_open(region@, chosen@, chosen@.len() as int, width)) by {
                assert(chosen@ == earlier.push(copy));
            }
            assert forall|k: int| 0 <= k < chosen@.len() implies #[trigger] chosen_at(region@, chosen@, k, width) by {
                assert(chosen@.take(k) =~= earlier.take(k));
                assert(left_open(region@, chosen@, k, width) =~= left_open(region@, earlier, k, width));
                if k < earlier.len() {
                    assert(chosen_at(region@, earlier, k, width));
                    assert(chosen@[k] == earlier[k]);
                } else {
                    assert(listed(primes@, primes@[best as int]@));
                    assert forall|n: int| 0 <= n < region@.len() && #[trigger] region@[n] implies added(
                        region@,
                        chosen@,
                        k,
                        expansion(region@, n as nat, width),
                        width,
                    ) <= most by {
                        let c = expansion(region@, n as nat, width);
                        assert(expands_some(region@, c, width, region@.len() as int));
                        assert(listed(primes@, c));
                        let i = choose|i: int| 0 <= i < primes@.len() && (#[trigger] primes@[i])@ == c;
                        assert(gain_of(before, primes@[i]@, width, before.len() as int) <= most);
                    }
                }
            }
            assert forall|i: int| 0 <= i < before.len() && open@[i] implies #[trigger] before[i] by {}
            lemma_count(before, open@, at);
            assert(!open@[at]);
            assert forall|i: int| 0 <= i < region@.len() && #[trigger] region@[i] && !open@[i] implies covered(chosen@, state_of(i as nat, width)) by {
                if before[i] {
                    assert(fits_cube(chosen@[earlier.len() as int]@, state_of(i as nat, width)));
                } else {
                    assert(covered(earlier, state_of(i as nat, width)));
                    let k = choose|k: int| 0 <= k < earlier.len() && fits_cube((#[trigger] earlier[k])@, state_of(i as nat, width));
                    assert(chosen@[k] == earlier[k]);
                }
            }
            assert forall|k: int| 0 <= k < chosen@.len() implies prime(region@, (#[trigger] chosen@[k])@, width) by {
                if k < earlier.len() {
                    assert(chosen@[k] == earlier[k]);
                } else {
                    assert(prime(region@, primes@[best as int]@, width));
                }
            }
        }
    }
}

/// One more cube closes the states that it holds.
proof fn lemma_left_open(region: Seq<bool>, earlier: Seq<Vec<Option<bool>>>, cube: Vec<Option<bool>>, latches: nat)
    ensures
        ({
            let cubes = earlier.push(cube);
            let before = left_open(region, earlier, earlier.len() as int, latches);
            let after = left_open(region, cubes, cubes.len() as int, latches);
            &&& after.len() == before.len()
            &&& forall|n: int| 0 <= n < region.len() ==> #[trigger] after[n] == (before[n] && !fits_cube(cube@, state_of(n as nat, latches)))
        }),
{
    let cubes = earlier.push(cube);
    assert(earlier.take(earlier.len() as int) =~= earlier);
    assert(cubes.take(cubes.len() as int) =~= cubes);
    let before = left_open(region, earlier, earlier.len() as int, latches);
    let after = left_open(region, cubes, cubes.len() as int, latches);
    assert forall|n: int| 0 <= n < region.len() implies #[trigger] after[n] == (before[n] && !fits_cube(
        cube@,
        state_of(n as nat, latches),
    )) by {
        let state = state_of(n as nat, latches);
        if covered(cubes, state) {
            let k = choose|k: int| 0 <= k < cubes.len() && fits_cube((#[trigger] cubes[k])@, state);
            if k < earlier.len() {
                assert(earlier[k] == cubes[k]);
            }
        }
        if covered(earlier, state) {
            let k = choose|k: int| 0 <= k < earlier.len() && fits_cube((#[trigger] earlier[k])@, state);
            assert(cubes[k] == earlier[k]);
        }
        if fits_cube(cube@, state) {
            assert(cubes[earlier.len() as int] == cube);
        }
    }
}

fn copy_cube(cube: &Vec<Option<bool>>) -> (copy: Vec<Option<bool>>)
    ensures
        copy@ == cube@,
{
    let mut copy: Vec<Option<bool>> = Vec::new();
    let mut k: usize = 0;
    while k < cube.len()
        invariant
            k <= cube@.len(),
            copy@ == cube@.take(k as int),
        decreases cube.len() - k,
    {
        copy.push(cube[k]);
        k += 1;
        assert(copy@ =~= cube@.take(k as int));
    }
    assert(copy@ =~= cube@);
    copy
}

/// The size of a near-minimal cube cover of the true losing region,
/// computed without the solver: what the cube count of the refinement loop
/// should be compared against. `None` when the state space is too large to
/// sweep, or the losing states cannot be listed.
pub fn minimal_cover(text: &str, latches: usize) -> (size: Option<usize>)
    ensures
        latches > 20 ==> size is None,
        size matches Some(count) ==> exists|region: Vec<bool>, cubes: Seq<Vec<Option<bool>>>| #[trigger]
            lists_losing(text@, latches, Ok(region)) && #[trigger] is_cover(region@, cubes, latches as nat) && greedy(region@, cubes, latches as nat)
                && cubes.len() == count,
        size is None && latches <= 20 ==> exists|error: crate::aiger::parse::ParseError| #[trigger]
            lists_losing(text@, latches, Err(error)),
{
    if latches > 20 {
        return None;
    }
    match losing_states(text, latches) {
        Ok(region) => {
            let cubes = prime_cover(&region, latches);
            assert(lists_losing(text@, latches, Ok(region)));
            assert(is_cover(region@, cubes@, latches as nat));
            Some(cubes.len())
        },
        Err(error) => {
            assert(lists_losing(text@, latches, Err(error)));
            None
        },
    }
}

} // verus!
