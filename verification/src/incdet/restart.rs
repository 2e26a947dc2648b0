//! Restart schedules.
use vstd::prelude::*;

verus! {

/// Number of conflicts of the base Luby restart interval.
pub const RESTART_INTERVAL: u32 = 100;

/// The largest power of two that is not above a number.
pub open spec fn power_below(i: nat) -> nat
    decreases i,
{
    if i < 2 {
        1
    } else {
        2 * power_below(i / 2)
    }
}

/// The Luby sequence (1, 1, 2, 1, 1, 2, 4, ...), from the first element
/// on: an element one below a power of two is half that power, and the
/// elements up to it repeat the sequence.
pub open spec fn luby_at(i: nat) -> nat
    decreases i,
{
    let p = power_below(i);
    if i < 2 || i + 1 == 2 * p {
        p
    } else if p > 1 && p <= i {
        luby_at((i + 1 - p) as nat)
    } else {
        p
    }
}

proof fn lemma_power(i: nat)
    requires
        i >= 1,
    ensures
        power_below(i) <= i < 2 * power_below(i),
    decreases i,
{
    if i >= 2 {
        lemma_power(i / 2);
    }
}

/// An element of the Luby sequence.
pub fn luby(start: u32) -> (value: u32)
    requires
        start >= 1,
    ensures
        value == luby_at(start as nat),
{
    let mut i: u32 = start;
    loop
        invariant
            i >= 1,
            luby_at(i as nat) == luby_at(start as nat),
        decreases i,
    {
        let mut p: u32 = 1;
        while p <= i / 2
            invariant
                1 <= p <= i,
                power_below(i as nat) == p * power_below((i / p) as nat),
            decreases i - p,
        {
            proof {
                let q = (i / p) as nat;
                assert(q >= 2) by (nonlinear_arith)
                    requires
                        p <= i / 2,
                        q == i / p,
                        p >= 1,
                ;
                assert(q / 2 == (i / (2 * p) as u32)) by (nonlinear_arith)
                    requires
                        q == i / p,
                        p >= 1,
                        2 * p <= u32::MAX,
                ;
                assert(p * (2 * power_below(q / 2)) == (2 * p) * power_below(q / 2)) by (nonlinear_arith);
            }
            p = 2 * p;
        }
        proof {
            lemma_power(i as nat);
            assert(i / p == 1) by (nonlinear_arith)
                requires
                    1 <= p <= i,
                    p > i / 2,
            ;
            assert(power_below(1) == 1);
            assert(p * power_below(1) == p) by (nonlinear_arith)
                requires
                    power_below(1) == 1,
            ;
            assert(power_below(i as nat) == p);
        }
        if i - p == p - 1 {
            return p;
        }
        i = i - (p - 1);
    }
}

/// Number of calls between two restarts.
pub const RESIZE_INTERVAL: usize = 10;

/// A schedule that restarts at every tenth call.
#[derive(Debug, Clone, Copy)]
pub struct Restart {
    counter: usize,
}

impl Restart {
    /// The calls so far.
    pub closed spec fn calls(&self) -> usize {
        self.counter
    }

    /// A schedule before its first call.
    pub fn new() -> (restart: Restart)
        ensures
            restart.calls() == 0,
    {
        Restart { counter: 0 }
    }

    /// Whether to restart now.
    pub fn should_do_restart(&mut self) -> (now: bool)
        requires
            old(self).calls() < usize::MAX,
        ensures
            final(self).calls() == old(self).calls() + 1,
            now == (final(self).calls() % RESIZE_INTERVAL == 0),
    {
        self.counter += 1;
        self.counter % RESIZE_INTERVAL == 0
    }
}

} // verus!
