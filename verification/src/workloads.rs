//! Workloads that change an assertion stack step by step and solve it again
//! after every step.
use crate::incdet::verdict_ok;
use crate::incremental::queries::lemma_clause_of;
use crate::incremental::{clause_of, numbers_in_range, numbers_of, IncrementalSolver};
use crate::parity::CHAIN_LIMIT;
use crate::random::{draw_clause, drawn_clauses, Rng};
use crate::semantics::Matrix;
use crate::SolverResult;
use vstd::prelude::*;

verus! {

/// The clauses of a step of the parity chain: the first link equals the
/// first input, and a later one is the exclusive or of the link before it
/// and its input. Step `i` has the input `2i - 1` and the link `2i`.
pub open spec fn step_clauses(i: int) -> Matrix {
    let (u, x) = (2 * i - 1, 2 * i);
    if i <= 1 {
        seq![clause_of(seq![-u as i32, x as i32]), clause_of(seq![u as i32, -x as i32])]
    } else {
        let last = x - 2;
        seq![
            clause_of(seq![last as i32, u as i32, -x as i32]),
            clause_of(seq![-last as i32, -u as i32, -x as i32]),
            clause_of(seq![-last as i32, u as i32, x as i32]),
            clause_of(seq![last as i32, -u as i32, x as i32]),
        ]
    }
}

/// The clauses of the first steps.
pub open spec fn unrolled(count: int) -> Matrix
    decreases count,
{
    if count <= 0 {
        Seq::empty()
    } else {
        unrolled(count - 1) + step_clauses(count)
    }
}

fn add_one(solver: &mut IncrementalSolver, a: i32)
    requires
        old(solver).wf(),
        numbers_in_range(seq![a]),
    ensures
        final(solver).wf(),
        final(solver).stack().len() == old(solver).stack().len(),
        final(solver).stack().drop_last() == old(solver).stack().drop_last(),
        final(solver).blocks() == old(solver).blocks(),
        final(solver).clauses() == old(solver).clauses().push(clause_of(seq![a])),
{
    let lits: [i32; 1] = [a];
    assert(lits@ =~= seq![a]);
    solver.add_clause(&lits);
}

fn add_two(solver: &mut IncrementalSolver, a: i32, b: i32)
    requires
        old(solver).wf(),
        numbers_in_range(seq![a, b]),
    ensures
        final(solver).wf(),
        final(solver).stack().len() == old(solver).stack().len(),
        final(solver).stack().drop_last() == old(solver).stack().drop_last(),
        final(solver).blocks() == old(solver).blocks(),
        final(solver).clauses() == old(solver).clauses().push(clause_of(seq![a, b])),
{
    let lits: [i32; 2] = [a, b];
    assert(lits@ =~= seq![a, b]);
    solver.add_clause(&lits);
}

fn add_three(solver: &mut IncrementalSolver, a: i32, b: i32, c: i32)
    requires
        old(solver).wf(),
        numbers_in_range(seq![a, b, c]),
    ensures
        final(solver).wf(),
        final(solver).stack().len() == old(solver).stack().len(),
        final(solver).stack().drop_last() == old(solver).stack().drop_last(),
        final(solver).blocks() == old(solver).blocks(),
        final(solver).clauses() == old(solver).clauses().push(clause_of(seq![a, b, c])),
{
    let lits: [i32; 3] = [a, b, c];
    assert(lits@ =~= seq![a, b, c]);
    solver.add_clause(&lits);
}

fn add_step(solver: &mut IncrementalSolver, i: u32)
    requires
        old(solver).wf(),
        1 <= i <= CHAIN_LIMIT,
    ensures
        final(solver).wf(),
        final(solver).stack().len() == old(solver).stack().len(),
        final(solver).clauses() == old(solver).clauses() + step_clauses(i as int),
{
    let (u, x): (i32, i32) = (2 * (i as i32) - 1, 2 * (i as i32));
    let ghost before = solver.clauses();
    solver.declare_universal(u as u32);
    solver.declare_existential(x as u32);
    if i == 1 {
        add_two(solver, -u, x);
        add_two(solver, u, -x);
    } else {
        let last: i32 = x - 2;
        add_three(solver, last, u, -x);
        add_three(solver, -last, -u, -x);
        add_three(solver, -last, u, x);
        add_three(solver, last, -u, x);
    }
    assert(solver.clauses() =~= before + step_clauses(i as int));
}

/// Unrolls the parity chain one step per solve, with a query under an
/// assumption after every step on demand, and forces the last link to be
/// true on demand.
pub fn unroll_parity(solver: &mut IncrementalSolver, steps: u32, unsat: bool, probed: bool) -> (result: SolverResult)
    requires
        old(solver).wf(),
        1 <= steps <= CHAIN_LIMIT,
    ensures
        final(solver).wf(),
        final(solver).stack().len() == old(solver).stack().len(),
        final(solver).clauses() == (if unsat {
            (old(solver).clauses() + unrolled(steps as int)).push(clause_of(seq![(2 * steps) as i32]))
        } else {
            old(solver).clauses() + unrolled(steps as int)
        }),
        verdict_ok(final(solver).blocks(), final(solver).clauses(), result),
{
    let ghost m = solver.clauses();
    let mut result = SolverResult::Unknown;
    let mut i: u32 = 0;
    assert(m + unrolled(0) =~= m);
    while i < steps
        invariant
            i <= steps <= CHAIN_LIMIT,
            solver.wf(),
            solver.stack().len() == old(solver).stack().len(),
            solver.clauses() == m + unrolled(i as int),
            i > 0 ==> verdict_ok(solver.blocks(), solver.clauses(), result),
        decreases steps - i,
    {
        i += 1;
        add_step(solver, i);
        assert(solver.clauses() =~= m + unrolled(i as int));
        result = solver.solve();
        if probed {
            let lits: [i32; 1] = [2 * (i as i32)];
            let probe: SolverResult = solver.solve_with_assumptions(&lits);
        }
    }
    if unsat {
        let last: i32 = 2 * (steps as i32);
        add_one(solver, last);
        result = solver.solve();
    }
    result
}

/// Solves the parity chain once and again under frames with a clause of
/// the chain each, which are popped again.
pub fn scope_parity(solver: &mut IncrementalSolver, steps: u32) -> (result: SolverResult)
    requires
        old(solver).wf(),
        1 <= steps <= CHAIN_LIMIT,
    ensures
        final(solver).wf(),
        final(solver).stack().len() == old(solver).stack().len(),
        final(solver).clauses() == old(solver).clauses() + unrolled(steps as int),
        verdict_ok(final(solver).blocks(), final(solver).clauses().push(step_clauses(steps as int)[0]), result),
{
    let ghost m = solver.clauses();
    let mut result = unroll_parity(solver, steps, false, false);
    let ghost stack = solver.stack();
    let ghost all = m + unrolled(steps as int);
    let mut i: u32 = 0;
    while i < steps
        invariant
            i <= steps <= CHAIN_LIMIT,
            solver.wf(),
            solver.stack() == stack,
            solver.clauses() == all,
            stack.len() == old(solver).stack().len(),
            i > 0 ==> verdict_ok(solver.blocks(), all.push(step_clauses(i as int)[0]), result),
        decreases steps - i,
    {
        i += 1;
        let (u, x): (i32, i32) = (2 * (i as i32) - 1, 2 * (i as i32));
        let ghost before = *solver;
        solver.push();
        if i == 1 {
            add_two(solver, -u, x);
        } else {
            add_three(solver, x - 2, u, -x);
        }
        let ghost filled = *solver;
        result = solver.solve();
        let popped: bool = solver.pop();
        proof {
            before.lemma_has_frame();
            assert(solver.stack() == stack);
            crate::laws::law_pop_undoes_push(before, filled, *solver);
        }
    }
    result
}

/// Declares variables and feeds random clauses in chunks, of which the
/// first takes what does not divide; solves after each.
pub fn feed_chunks(solver: &mut IncrementalSolver, k: u32, m: u32, clauses: u64, chunks: u64, seed: u64) -> (result: SolverResult)
    requires
        old(solver).wf(),
        0 < k,
        0 < m,
        k + m <= 2 * CHAIN_LIMIT,
        0 < chunks,
    ensures
        final(solver).wf(),
        final(solver).stack().len() == old(solver).stack().len(),
        final(solver).clauses() == old(solver).clauses() + drawn_clauses(seed, k as u64, m as u64, clauses as int).1,
        verdict_ok(final(solver).blocks(), final(solver).clauses(), result),
{
    let ghost before = solver.clauses();
    let mut rng = Rng::new(seed);
    let mut v: u32 = 0;
    while v < k + m
        invariant
            v <= k + m <= 2 * CHAIN_LIMIT,
            solver.wf(),
            solver.stack().len() == old(solver).stack().len(),
            solver.clauses() == before,
        decreases k + m - v,
    {
        v += 1;
        if v <= k {
            solver.declare_universal(v);
        } else {
            solver.declare_existential(v);
        }
    }
    let mut result = SolverResult::Unknown;
    let each: u64 = clauses / chunks;
    let mut done: u64 = 0;
    let mut chunk: u64 = 0;
    assert(before + drawn_clauses(seed, k as u64, m as u64, 0).1 =~= before);
    proof {
        assert(each * chunks + clauses % chunks == clauses) by (nonlinear_arith)
            requires
                each == clauses / chunks,
                chunks > 0,
        ;
        assert(each * 0 == 0);
    }
    while chunk < chunks
        invariant
            chunk <= chunks,
            0 < chunks,
            0 < k,
            0 < m,
            k + m <= 2 * CHAIN_LIMIT,
            each == clauses / chunks,
            each * chunks + clauses % chunks == clauses,
            done == each * chunk + if chunk > 0 { (clauses % chunks) as int } else { 0int },
            solver.wf(),
            solver.stack().len() == old(solver).stack().len(),
            (rng.state(), solver.clauses()) == ({
                let drawn = drawn_clauses(seed, k as u64, m as u64, done as int);
                (drawn.0, before + drawn.1)
            }),
            chunk > 0 ==> verdict_ok(solver.blocks(), solver.clauses(), result),
        decreases chunks - chunk,
    {
        proof {
            assert(each * (chunk + 1) <= each * chunks) by (nonlinear_arith)
                requires
                    chunk + 1 <= chunks,
                    each >= 0,
            ;
            assert(each * (chunk + 1) == each * chunk + each) by (nonlinear_arith);
        }
        let extra: u64 = if chunk == 0 {
            clauses % chunks
        } else {
            0
        };
        let end: u64 = done + each + extra;
        while done < end
            invariant
                done <= end,
                0 < k,
                0 < m,
                k + m <= 2 * CHAIN_LIMIT,
                solver.wf(),
                solver.stack().len() == old(solver).stack().len(),
                (rng.state(), solver.clauses()) == ({
                    let drawn = drawn_clauses(seed, k as u64, m as u64, done as int);
                    (drawn.0, before + drawn.1)
                }),
            decreases end - done,
        {
            let clause = draw_clause(&mut rng, k as u64, m as u64);
            let numbers = numbers_of(&clause);
            proof {
                lemma_clause_of(clause@, numbers@);
            }
            let ghost held = solver.clauses();
            solver.add_clause(numbers.as_slice());
            done += 1;
            assert(solver.clauses() =~= before + drawn_clauses(seed, k as u64, m as u64, done as int).1);
        }
        result = solver.solve();
        chunk += 1;
    }
    result
}

} // verus!
