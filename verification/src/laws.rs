//! Properties that span several parts of the library.
use crate::incdet::cegar::lemma_commit;
use crate::incdet::certify::lemma_chain_domain;
use crate::incdet::circuit::{circuit_value, in_region, in_regions};
use crate::incdet::model::{agrees, assigns, chain_values, numbered_as, numbered_values, region_values, Region, SkolemModel};
use crate::incdet::{certifies, circuit_satisfies, refutes, verdict_ok};
use crate::incremental::stack::lemma_refuted;
use crate::incremental::{lemma_concat_true, IncrementalSolver};
use crate::literal::{Lit, Var};
use crate::quantifier::QuantTy;
use crate::sat::consistent;
use crate::semantics::{bound_by, cube_true, formula_true, lemma_mono, matrix_true, prefix_distinct, qbf, Assignment, Matrix, Prefix};
use crate::SolverResult;
use vstd::prelude::*;

verus! {

/// Two verdicts on a formula agree, whatever the options they were found
/// with.
pub proof fn law_options_do_not_matter(p: Prefix, m: Matrix, left: SolverResult, right: SolverResult)
    requires
        verdict_ok(p, m, left),
        verdict_ok(p, m, right),
        left != SolverResult::Unknown,
        right != SolverResult::Unknown,
    ensures
        left == right,
{
}

/// The verdict on a formula of at most two alternating blocks is its truth,
/// as long as its variables are numbered up to 2^28.
pub proof fn law_two_blocks_are_decided(p: Prefix, m: Matrix, verdict: SolverResult)
    requires
        verdict_ok(p, m, verdict),
        crate::normal::shape(p, m).len() <= 2,
        forall|x: Var| #[trigger] crate::semantics::bound(p, x) ==> x.dimacs() <= 268_435_456,
        forall|x: Var| #[trigger] crate::semantics::mentions(m, x) ==> x.dimacs() <= 268_435_456,
    ensures
        verdict == (if formula_true(p, m) {
            SolverResult::Satisfiable
        } else {
            SolverResult::Unsatisfiable
        }),
{
    assert forall|i: int| 0 <= i < m.len() implies crate::sat::lits_ok(#[trigger] m[i]) by {
        assert forall|j: int| 0 <= j < m[i].len() implies crate::sat::lit_ok(#[trigger] m[i][j]) by {
            assert(crate::semantics::clause_mentions(m[i], m[i][j].v()));
            assert(crate::semantics::mentions(m, m[i][j].v()));
        }
    }
    assert(crate::incdet::in_range(p, m));
}

/// Inputs are limited by the numbers of the back end and of the formats
/// only.
pub proof fn law_limits_are_wide()
    ensures
        crate::sat::MAX_NUMBER == 268_435_456,
        crate::literal::MAX_INDEX >= 2_147_483_646,
        crate::incremental::VAR_LIMIT >= 2_147_483_648,
        crate::incdet::aig::MAX_GRAPH >= 1_152_921_504_606_846_976,
        crate::qcir::formula::NAME_LIMIT >= 2_147_483_646,
        crate::aiger::circuit::CIRCUIT_LIMIT >= 2_147_483_647,
        crate::aiger::circuit::ENTRY_LIMIT >= 1_000_000_000,
        crate::aiger::builder::BUILD_LIMIT >= 1_000_000_000,
        crate::aiger::alternating::UNROLL_LIMIT >= 2_147_483_647,
        crate::aiger::explicit::STATE_LIMIT >= 30,
        crate::encodings::WIRE_LIMIT >= 2_147_483_000,
        crate::encodings::words::ADDRESS_LIMIT >= 28,
        crate::parity::CHAIN_LIMIT >= 1_073_741_823,
        crate::random::RANDOM_LIMIT >= 1_073_741_824,
        crate::effort::MAX_ROUNDS >= 4096,
        crate::effort::MAX_LITERALS >= 8_000_000,
        crate::alternation::EXPANSION_BUDGET >= 2_000_000,
        crate::alternation::MAX_EXPANDED_BLOCK >= 8,
{
}

/// Adding clauses keeps an unsatisfiable formula unsatisfiable.
pub proof fn law_more_clauses_stay_unsatisfiable(p: Prefix, m: Matrix, more: Matrix)
    requires
        !formula_true(p, m),
    ensures
        !formula_true(p, m + more),
{
    assert forall|a: Assignment| !#[trigger] qbf(p, m + more, a) by {
        if qbf(p, m + more, a) {
            assert forall|b: Assignment| #[trigger] crate::semantics::reach(p, a, b) && matrix_true(b, m + more) implies matrix_true(b, m) by {
                lemma_concat_true(b, m, more);
            }
            lemma_mono(p, m + more, m, a);
        }
    }
}

/// A winning move of the universal player makes a formula false.
pub proof fn law_witnesses_refute(p: Prefix, m: Matrix, witness: Seq<Lit>)
    requires
        prefix_distinct(p),
        consistent(witness),
        refutes(p, m, witness),
    ensures
        !formula_true(p, m),
{
    lemma_refuted(p, m, witness);
}

/// Popping undoes a push and all that was done to the frame.
pub proof fn law_pop_undoes_push(before: IncrementalSolver, filled: IncrementalSolver, popped: IncrementalSolver)
    requires
        filled.stack().len() > 0,
        filled.stack().drop_last() == before.stack(),
        popped.stack() == filled.stack().drop_last(),
    ensures
        popped.blocks() == before.blocks(),
        popped.clauses() == before.clauses(),
{
}

/// What is solved again after everything pushed was popped has the verdict
/// it had.
pub proof fn law_popped_stacks_keep_their_verdict(before: IncrementalSolver, after: IncrementalSolver, first: SolverResult, second: SolverResult)
    requires
        after.stack() == before.stack(),
        verdict_ok(before.blocks(), before.clauses(), first),
        verdict_ok(after.blocks(), after.clauses(), second),
        first != SolverResult::Unknown,
        second != SolverResult::Unknown,
    ensures
        first == second,
{
}

/// Where a model gives a variable a value, its circuit computes it.
pub proof fn law_circuits_compute_the_model(model: SkolemModel, universal: Map<Var, bool>, x: Var)
    requires
        model.values(universal).contains_key(x),
    ensures
        circuit_value(model, universal, x) == model.values(universal)[x],
{
}

/// A model gives values to universal variables and to those it defines.
pub(crate) proof fn lemma_values_domain(model: SkolemModel, universal: Map<Var, bool>, x: Var)
    requires
        model.values(universal).contains_key(x),
    ensures
        universal.contains_key(x) || model.defines(x),
{
    let last = chain_values(model.final_chain@, universal);
    lemma_chain_domain(model.final_chain@, universal, x);
    lemma_region_domain(model.regions@, 0, universal, last, x);
}

proof fn lemma_region_domain(regions: Seq<Region>, from: int, universal: Map<Var, bool>, last: Map<Var, bool>, x: Var)
    requires
        0 <= from,
        region_values(regions, from, universal, last).contains_key(x),
    ensures
        last.contains_key(x) || universal.contains_key(x) || in_regions(regions, x),
    decreases regions.len() - from,
{
    if from < regions.len() {
        let region = regions[from];
        if cube_true(crate::qcnf::assignment_of(last), region.spec_cube()) {
            match region {
                Region::Response { cube, response } => {
                    lemma_commit(last, response@);
                    if !last.contains_key(x) {
                        assert(in_region(regions[from], x));
                    }
                },
                Region::Closed { cube, chain } => {
                    lemma_chain_domain(chain@, universal, x);
                    if !universal.contains_key(x) {
                        assert(in_region(regions[from], x));
                    }
                },
            }
        } else {
            lemma_region_domain(regions, from + 1, universal, last, x);
        }
    }
}

/// The circuit of a certified model satisfies the clauses: checking it
/// cannot fail but for its size.
pub proof fn law_certified_models_have_winning_circuits(model: SkolemModel, p: Prefix, m: Matrix)
    requires
        certifies(p, m, model),
    ensures
        circuit_satisfies(model, p, m),
{
    assert forall|a: Assignment|
        (forall|x: Var| #[trigger] model.defines(x) ==> a(x) == circuit_value(
            model,
            Map::new(|u: Var| model.spec_universals().contains(u), |u: Var| a(u)),
            x,
        )) implies #[trigger] matrix_true(a, m) by {
        let universal = Map::new(|u: Var| model.spec_universals().contains(u), |u: Var| a(u));
        assert(assigns(universal, model.spec_universals()));
        let values = model.values(universal);
        assert forall|x: Var| #[trigger] values.contains_key(x) implies a(x) == values[x] by {
            lemma_values_domain(model, universal, x);
            if universal.contains_key(x) {
                assert(values[x] == universal[x]);
            } else {
                assert(model.defines(x));
            }
        }
        assert(agrees(a, values));
    }
}

/// The universal player plays the universal variables of the prefix, each
/// one way, and nothing else.
pub open spec fn full_move(universal: Seq<i32>, p: Prefix) -> bool {
    assigns_universals(numbered_values(universal), p)
}

/// The map gives values to the universal variables of the prefix alone.
pub open spec fn assigns_universals(values: Map<Var, bool>, p: Prefix) -> bool {
    forall|x: Var| #[trigger] values.contains_key(x) <==> bound_by(p, QuantTy::Forall, x)
}

/// What a certified model evaluates to under a move of the universal player
/// names no universal variable, and satisfies every clause together with
/// the move, whatever the variables are that it leaves out.
pub proof fn law_evaluation_satisfies(
    model: SkolemModel,
    p: Prefix,
    m: Matrix,
    universal: Seq<i32>,
    values: Map<i32, bool>,
    a: Assignment,
)
    requires
        certifies(p, m, model),
        full_move(universal, p),
        numbered_as(values, model.values(numbered_values(universal)), model.spec_universals()),
        agrees(a, numbered_values(universal)),
        forall|x: Var| #[trigger] values.contains_key(x.dimacs() as i32) && x.dimacs() <= i32::MAX ==> a(x) == values[x.dimacs() as i32],
        forall|x: Var| #[trigger] model.values(numbered_values(universal)).contains_key(x) ==> x.dimacs() <= i32::MAX,
    ensures
        matrix_true(a, m),
        forall|x: Var| #[trigger] bound_by(p, QuantTy::Forall, x) && x.dimacs() <= i32::MAX ==> !values.contains_key(x.dimacs() as i32),
{
    let point = numbered_values(universal);
    let inner = model.values(point);
    assert(assigns(point, model.spec_universals())) by {
        assert forall|x: Var| #[trigger] point.contains_key(x) <==> model.spec_universals().contains(x) by {
            if point.contains_key(x) {
                assert(bound_by(p, QuantTy::Forall, x));
            }
        }
    }
    assert forall|x: Var| #[trigger] inner.contains_key(x) implies a(x) == inner[x] by {
        if model.spec_universals().contains(x) {
            assert(point.contains_key(x));
            assert(model.values(point).contains_key(x) && model.values(point)[x] == point[x]);
        } else {
            assert(values.contains_key(x.dimacs() as i32));
        }
    }
    assert(agrees(a, model.values(point)));
    assert forall|x: Var| #[trigger] bound_by(p, QuantTy::Forall, x) && x.dimacs() <= i32::MAX implies !values.contains_key(x.dimacs() as i32) by {
        if values.contains_key(x.dimacs() as i32) {
            let y = choose|y: Var|
                y.dimacs() == x.dimacs() as i32 && #[trigger] inner.contains_key(y) && !model.spec_universals().contains(y);
            crate::literal::lemma_var_id(x);
            crate::literal::lemma_var_id(y);
            crate::literal::lemma_var_ext(x, y);
            assert(model.spec_universals().contains(x));
        }
    }
}

} // verus!
