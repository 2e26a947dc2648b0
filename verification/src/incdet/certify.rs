//! Certification of proposed verdicts.
//!
//! The functions of a satisfiable state are completed to a piecewise
//! Skolem model that defines every existential variable, and its circuit is
//! checked against the clauses; a move of the universal player is checked
//! by asking for a response to it.
use crate::incdet::cegar::{
    agree_on, answered, disjoint, enumerate_cases, has_response, lemma_cases_keys, lemma_cases_win, lemma_commit,
    lemma_model_answers, load_clauses, response_ok, vars_ok, CaseAnswer,
};
use crate::incdet::circuit::{circuit_value, in_chain, in_region};
use crate::incdet::conflict::check::{
    clauses_below, fires, group_below, grouped, lemma_grouped_push, lits_below, query, query_below, query_true, Answer, Group,
};
use crate::incdet::load::Core;
use crate::incdet::model::{agrees, assigns, chain_values, region_values, Function, Region, SkolemModel};
use crate::incdet::state::{negate_all, unit_clause, State};
use crate::literal::{Lit, Var};
use crate::normal::{copy_clauses, copy_lits, copy_vars};
use crate::qcnf::{matrix_of, QCNF};
use crate::quantifier::QuantTy;
use crate::sat::{clauses_ok, consistent, lits_ok, SatOutcome, SatSolver};
use crate::semantics::{clause_mentions, clause_true, cube_true, lit_true, matrix_true, Assignment, Matrix, Prefix};
use crate::strategy::Strategy;
use crate::strategy_check::{check_strategy, circuit_follows, circuit_wins, leaf_numbered, restricted_to, universals_of};
use crate::strategy_circuit::leaf_inputs;
use crate::SolverResult;
use std::rc::Rc;
use vstd::prelude::*;

verus! {

broadcast use crate::literal::group_literal;

/// The chain defines the listed variables and no others.
pub open spec fn chain_total(chain: Seq<(Lit, Function)>, vars: Seq<Var>) -> bool {
    &&& forall|i: int| 0 <= i < chain.len() ==> vars.contains((#[trigger] chain[i]).0.v())
    &&& forall|x: Var| #[trigger] vars.contains(x) ==> in_chain(chain, x)
}

/// The region defines listed variables only; its chain defines all of
/// them.
pub open spec fn region_total(region: Region, vars: Seq<Var>) -> bool {
    match region {
        Region::Response { cube, response } => forall|i: int| 0 <= i < response@.len() ==> vars.contains((#[trigger] response@[i]).v()),
        Region::Closed { cube, chain } => chain_total(chain@, vars),
    }
}

/// Every part of the model that stands alone defines exactly the listed
/// variables.
pub open spec fn model_total(model: SkolemModel, universals: Seq<Var>, existentials: Seq<Var>) -> bool {
    &&& model.universals@ == universals
    &&& chain_total(model.final_chain@, existentials)
    &&& forall|i: int| 0 <= i < model.regions@.len() ==> region_total(#[trigger] model.regions@[i], existentials)
}

/// A chain adds the variables it defines and leaves the others alone.
pub proof fn lemma_chain_domain(chain: Seq<(Lit, Function)>, values: Map<Var, bool>, x: Var)
    ensures
        chain_values(chain, values).contains_key(x) <==> values.contains_key(x) || in_chain(chain, x),
        !in_chain(chain, x) ==> chain_values(chain, values)[x] == values[x],
    decreases chain.len(),
{
    if chain.len() > 0 {
        let front = chain.drop_last();
        lemma_chain_domain(front, values, x);
        if in_chain(front, x) {
            let i = choose|i: int| 0 <= i < front.len() && (#[trigger] front[i]).0.v() == x;
            assert(chain[i].0.v() == x);
        }
        if in_chain(chain, x) {
            let i = choose|i: int| 0 <= i < chain.len() && (#[trigger] chain[i]).0.v() == x;
            if i < front.len() {
                assert(front[i].0.v() == x);
            }
        }
        assert(chain.last() == chain[chain.len() - 1]);
    }
}

/// A total chain gives values to all variables and keeps the universal
/// ones.
proof fn lemma_total_chain(chain: Seq<(Lit, Function)>, universals: Seq<Var>, existentials: Seq<Var>, universal: Map<Var, bool>, x: Var)
    requires
        chain_total(chain, existentials),
        disjoint(universals, existentials),
        assigns(universal, universals),
    ensures
        chain_values(chain, universal).contains_key(x) <==> universals.contains(x) || existentials.contains(x),
        universals.contains(x) ==> chain_values(chain, universal)[x] == universal[x],
{
    lemma_chain_domain(chain, universal, x);
    if in_chain(chain, x) {
        let i = choose|i: int| 0 <= i < chain.len() && (#[trigger] chain[i]).0.v() == x;
        assert(existentials.contains(chain[i].0.v()));
    }
    assert(universal.contains_key(x) <==> universals.contains(x));
}

proof fn lemma_total_regions(
    regions: Seq<Region>,
    from: int,
    universals: Seq<Var>,
    existentials: Seq<Var>,
    universal: Map<Var, bool>,
    last: Map<Var, bool>,
    x: Var,
)
    requires
        0 <= from <= regions.len(),
        forall|i: int| 0 <= i < regions.len() ==> region_total(#[trigger] regions[i], existentials),
        disjoint(universals, existentials),
        assigns(universal, universals),
        last.contains_key(x) <==> universals.contains(x) || existentials.contains(x),
        universals.contains(x) ==> last[x] == universal[x],
    ensures
        region_values(regions, from, universal, last).contains_key(x) <==> universals.contains(x) || existentials.contains(x),
        universals.contains(x) ==> region_values(regions, from, universal, last)[x] == universal[x],
    decreases regions.len() - from,
{
    if from < regions.len() {
        assert(region_total(regions[from], existentials));
        if cube_true(crate::qcnf::assignment_of(last), regions[from].spec_cube()) {
            match regions[from] {
                Region::Response { cube, response } => {
                    lemma_commit(last, response@);
                    if clause_mentions(response@, x) {
                        let i = choose|i: int| 0 <= i < response@.len() && (#[trigger] response@[i]).v() == x;
                        assert(existentials.contains(response@[i].v()));
                    }
                },
                Region::Closed { cube, chain } => {
                    lemma_total_chain(chain@, universals, existentials, universal, x);
                },
            }
        } else {
            lemma_total_regions(regions, from + 1, universals, existentials, universal, last, x);
        }
    }
}

/// A total model gives values to all variables and keeps the universal
/// ones.
pub proof fn lemma_total_values(model: SkolemModel, universals: Seq<Var>, existentials: Seq<Var>, universal: Map<Var, bool>, x: Var)
    requires
        model_total(model, universals, existentials),
        disjoint(universals, existentials),
        assigns(universal, universals),
    ensures
        model.values(universal).contains_key(x) <==> universals.contains(x) || existentials.contains(x),
        universals.contains(x) ==> model.values(universal)[x] == universal[x],
{
    lemma_total_chain(model.final_chain@, universals, existentials, universal, x);
    lemma_total_regions(
        model.regions@,
        0,
        universals,
        existentials,
        universal,
        chain_values(model.final_chain@, universal),
        x,
    );
}

/// A total model defines existential variables only.
proof fn lemma_total_defines(model: SkolemModel, universals: Seq<Var>, existentials: Seq<Var>, x: Var)
    requires
        model_total(model, universals, existentials),
        model.defines(x),
    ensures
        existentials.contains(x),
{
    if in_chain(model.final_chain@, x) {
        let i = choose|i: int| 0 <= i < model.final_chain@.len() && (#[trigger] model.final_chain@[i]).0.v() == x;
        assert(existentials.contains(model.final_chain@[i].0.v()));
    } else {
        let k = choose|k: int| 0 <= k < model.regions@.len() && in_region(#[trigger] model.regions@[k], x);
        assert(region_total(model.regions@[k], existentials));
        match model.regions@[k] {
            Region::Response { cube, response } => {
                let i = choose|i: int| 0 <= i < response@.len() && (#[trigger] response@[i]).v() == x;
                assert(existentials.contains(response@[i].v()));
            },
            Region::Closed { cube, chain } => {
                let i = choose|i: int| 0 <= i < chain@.len() && (#[trigger] chain@[i]).0.v() == x;
                assert(existentials.contains(chain@[i].0.v()));
            },
        }
    }
}

/// A total model whose circuit satisfies the clauses wins.
pub proof fn lemma_certified(model: Rc<SkolemModel>, p: Prefix, m: Matrix, universals: Seq<Var>, existentials: Seq<Var>)
    requires
        model_total(*model, universals, existentials),
        disjoint(universals, existentials),
        universals_of(p) == universals,
        circuit_wins(Strategy::Leaf(model), p, m),
    ensures
        model.wins(m),
{
    let strategy = Strategy::Leaf(model);
    assert forall|universal: Map<Var, bool>| #[trigger] assigns(universal, universals) implies (forall|x: Var|
        universals.contains(x) ==> #[trigger] model.values(universal).contains_key(x) && model.values(universal)[x] == universal[x]) && (
    forall|a: Assignment| #[trigger] agrees(a, model.values(universal)) ==> matrix_true(a, m)) by {
        let values = model.values(universal);
        assert forall|x: Var| universals.contains(x) implies #[trigger] values.contains_key(x) && values[x] == universal[x] by {
            lemma_total_values(*model, universals, existentials, universal, x);
        }
        assert forall|a: Assignment| #[trigger] agrees(a, values) implies matrix_true(a, m) by {
            let inputs = restricted_to(universals, a);
            let point = leaf_inputs(universals, inputs);
            assert forall|x: Var| point.contains_key(x) == universal.contains_key(x) by {
                assert(universal.contains_key(x) <==> universals.contains(x));
            }
            assert forall|x: Var| point.contains_key(x) implies point[x] == universal[x] by {
                assert(universals.contains(x));
                assert(values.contains_key(x));
                assert(inputs.contains_key(x));
                assert(inputs[x] == a(x));
            }
            assert(point =~= universal);
            let played = strategy.circuit(inputs, Map::empty());
            assert forall|x: Var| #[trigger] played.contains_key(x) implies a(x) == played[x] by {
                assert(model.defines(x));
                lemma_total_defines(*model, universals, existentials, x);
                lemma_total_values(*model, universals, existentials, universal, x);
                assert(values.contains_key(x));
                assert(played[x] == circuit_value(*model, universal, x));
            }
            assert(agrees(a, played));
            assert(circuit_follows(strategy, p, a));
        }
    }
}

/// The functions are the same.
pub open spec fn same_function(left: Function, right: Function) -> bool {
    match (left, right) {
        (Function::Constant, Function::Constant) => true,
        (Function::Implications(l), Function::Implications(r)) => matrix_of(l@) == matrix_of(r@),
        _ => false,
    }
}

/// The literal has the value of its function.
pub(crate) open spec fn follows_function(a: Assignment, lit: Lit, function: Function) -> bool {
    match function {
        Function::Constant => lit_true(a, lit),
        Function::Implications(clauses) => lit_true(a, lit) == exists|k: int|
            0 <= k < clauses@.len() && fires(a, Some(lit.v()), (#[trigger] clauses@[k])@),
    }
}

/// All literals have the values of their functions.
pub(crate) open spec fn follows_functions(a: Assignment, functions: Seq<(Lit, Function)>) -> bool {
    forall|i: int| 0 <= i < functions.len() ==> follows_function(a, (#[trigger] functions[i]).0, functions[i].1)
}

/// A copy of a function.
fn copy_function(function: &Function) -> (copy: Function)
    ensures
        same_function(copy, *function),
{
    match function {
        Function::Constant => Function::Constant,
        Function::Implications(clauses) => Function::Implications(copy_clauses(clauses)),
    }
}

/// The first links of a chain on listed variables.
pub open spec fn listed_links(chain: Seq<(Lit, Function)>, vars: Seq<Var>, count: int) -> Seq<(Lit, Function)>
    decreases count,
{
    if count <= 0 {
        Seq::empty()
    } else if vars.contains(chain[count - 1].0.v()) {
        listed_links(chain, vars, count - 1).push(chain[count - 1])
    } else {
        listed_links(chain, vars, count - 1)
    }
}

/// The second chain has the links of the first on listed variables, in
/// order, and behind them makes variables false that none of them defines.
pub open spec fn completes_chain(chain: Seq<(Lit, Function)>, result: Seq<(Lit, Function)>, vars: Seq<Var>) -> bool {
    let listed = listed_links(chain, vars, chain.len() as int);
    &&& listed.len() <= result.len()
    &&& forall|i: int| 0 <= i < listed.len() ==> (#[trigger] result[i]).0 == listed[i].0 && same_function(result[i].1, listed[i].1)
    &&& forall|i: int|
        listed.len() <= i < result.len() ==> !(#[trigger] result[i]).0.pos() && result[i].1 is Constant && !in_chain(listed, result[i].0.v())
}

/// The second region is the first one, on listed variables.
pub open spec fn completes_region(region: Region, result: Region, vars: Seq<Var>) -> bool {
    match (region, result) {
        (Region::Response { cube, response }, Region::Response { cube: other, response: values }) => {
            &&& other@ == cube@
            &&& forall|l: Lit| #[trigger] values@.contains(l) <==> response@.contains(l) && vars.contains(l.v())
        },
        (Region::Closed { cube, chain }, Region::Closed { cube: other, chain: links }) => {
            &&& other@ == cube@
            &&& completes_chain(chain@, links@, vars)
        },
        _ => false,
    }
}

/// Completes a chain to the listed variables: what it defines beyond them
/// is left out, and what it leaves open is false.
fn complete_chain(chain: &Vec<(Lit, Function)>, vars: &Vec<Var>) -> (result: Vec<(Lit, Function)>)
    ensures
        chain_total(result@, vars@),
        completes_chain(chain@, result@, vars@),
{
    let listed = crate::datastructure::VarSet::from_vars(vars);
    let mut defined = crate::datastructure::VarSet::new();
    let mut result: Vec<(Lit, Function)> = Vec::new();
    let mut k: usize = 0;
    while k < chain.len()
        invariant
            k <= chain@.len(),
            forall|x: Var| #[trigger] listed@.contains(x) <==> vars@.contains(x),
            forall|x: Var| #[trigger] defined@.contains(x) ==> in_chain(result@, x),
            forall|i: int| 0 <= i < result@.len() ==> vars@.contains((#[trigger] result@[i]).0.v()),
            result@.len() == listed_links(chain@, vars@, k as int).len(),
            forall|i: int|
                0 <= i < result@.len() ==> (#[trigger] result@[i]).0 == listed_links(chain@, vars@, k as int)[i].0 && same_function(
                    result@[i].1,
                    listed_links(chain@, vars@, k as int)[i].1,
                ),
            forall|x: Var| in_chain(listed_links(chain@, vars@, k as int), x) ==> #[trigger] defined@.contains(x),
        decreases chain.len() - k,
    {
        let lit = chain[k].0;
        if listed.contains(lit.var()) {
            let ghost before = result@;
            let ghost known = defined@;
            defined.insert(lit.var());
            result.push((lit, copy_function(&chain[k].1)));
            proof {
                lemma_defined_push(before, result@, known, defined@, lit.v());
                let some = listed_links(chain@, vars@, k as int);
                let more = listed_links(chain@, vars@, k as int + 1);
                assert forall|x: Var| in_chain(more, x) implies #[trigger] defined@.contains(x) by {
                    let i = choose|i: int| 0 <= i < more.len() && (#[trigger] more[i]).0.v() == x;
                    if i < some.len() {
                        assert(some[i] == more[i]);
                        assert(in_chain(some, x));
                    }
                }
            }
        }
        k += 1;
    }
    let ghost listed_all = listed_links(chain@, vars@, chain@.len() as int);
    let mut k: usize = 0;
    while k < vars.len()
        invariant
            k <= vars@.len(),
            forall|x: Var| #[trigger] defined@.contains(x) ==> in_chain(result@, x),
            forall|i: int| 0 <= i < result@.len() ==> vars@.contains((#[trigger] result@[i]).0.v()),
            forall|i: int| 0 <= i < k ==> in_chain(result@, #[trigger] vars@[i]),
            completes_chain(chain@, result@, vars@),
            forall|x: Var| in_chain(listed_all, x) ==> #[trigger] defined@.contains(x),
            listed_all == listed_links(chain@, vars@, chain@.len() as int),
        decreases vars.len() - k,
    {
        let var = vars[k];
        assert(vars@.contains(vars@[k as int]));
        if !defined.contains(var) {
            let ghost before = result@;
            let ghost known = defined@;
            defined.insert(var);
            result.push((var.negative(), Function::Constant));
            proof {
                lemma_defined_push(before, result@, known, defined@, var);
                assert forall|i: int| 0 <= i < k + 1 implies in_chain(result@, #[trigger] vars@[i]) by {
                    if i < k {
                        assert(in_chain(before, vars@[i]));
                        let j = choose|j: int| 0 <= j < before.len() && (#[trigger] before[j]).0.v() == vars@[i];
                        assert(result@[j] == before[j]);
                    } else {
                        assert(defined@.contains(var));
                    }
                }
            }
        }
        k += 1;
    }
    assert forall|x: Var| #[trigger] vars@.contains(x) implies in_chain(result@, x) by {
        let i = choose|i: int| 0 <= i < vars@.len() && vars@[i] == x;
        assert(in_chain(result@, vars@[i]));
    }
    result
}

proof fn lemma_defined_push(before: Seq<(Lit, Function)>, after: Seq<(Lit, Function)>, known: Set<Var>, defined: Set<Var>, var: Var)
    requires
        after.len() == before.len() + 1,
        forall|i: int| 0 <= i < before.len() ==> after[i] == before[i],
        after[before.len() as int].0.v() == var,
        defined == known.insert(var),
        forall|x: Var| #[trigger] known.contains(x) ==> in_chain(before, x),
    ensures
        forall|x: Var| #[trigger] defined.contains(x) ==> in_chain(after, x),
{
    assert forall|x: Var| #[trigger] defined.contains(x) implies in_chain(after, x) by {
        if x == var {
            assert(after[before.len() as int].0.v() == x);
        } else {
            assert(known.contains(x));
            let j = choose|j: int| 0 <= j < before.len() && (#[trigger] before[j]).0.v() == x;
            assert(after[j].0.v() == x);
        }
    }
}

/// The literals on listed variables.
fn keep_listed(lits: &Vec<Lit>, vars: &Vec<Var>) -> (result: Vec<Lit>)
    ensures
        forall|i: int| 0 <= i < result@.len() ==> vars@.contains((#[trigger] result@[i]).v()),
        forall|i: int| 0 <= i < lits@.len() && vars@.contains((#[trigger] lits@[i]).v()) ==> result@.contains(lits@[i]),
        forall|i: int| 0 <= i < result@.len() ==> lits@.contains(#[trigger] result@[i]),
{
    let listed = crate::datastructure::VarSet::from_vars(vars);
    let mut result: Vec<Lit> = Vec::new();
    let mut k: usize = 0;
    while k < lits.len()
        invariant
            k <= lits@.len(),
            forall|x: Var| #[trigger] listed@.contains(x) <==> vars@.contains(x),
            forall|i: int| 0 <= i < result@.len() ==> vars@.contains((#[trigger] result@[i]).v()),
            forall|i: int| 0 <= i < k && vars@.contains((#[trigger] lits@[i]).v()) ==> result@.contains(lits@[i]),
            forall|i: int| 0 <= i < result@.len() ==> lits@.contains(#[trigger] result@[i]),
        decreases lits.len() - k,
    {
        let ghost before = result@;
        if listed.contains(lits[k].var()) {
            assert(lits@.contains(lits@[k as int]));
            result.push(lits[k]);
            assert forall|i: int| 0 <= i < k + 1 && vars@.contains((#[trigger] lits@[i]).v()) implies result@.contains(lits@[i]) by {
                crate::datastructure::lemma_push_contains(before, lits@[k as int], lits@[i]);
            }
        }
        k += 1;
    }
    result
}

/// A proposed verdict after its check.
#[derive(Debug)]
pub enum Settled {
    /// A model of the core.
    Model(Rc<SkolemModel>),
    /// Universal literals to which the core has no response.
    Move(Vec<Lit>),
    /// The proposal does not stand.
    Open,
}

/// No assignment in which the literals hold satisfies the clauses.
pub open spec fn no_response(m: Matrix, witness: Seq<Lit>) -> bool {
    forall|a: Assignment| #[trigger] cube_true(a, witness) ==> !matrix_true(a, m)
}

/// What a settled verdict says of a core.
pub open spec fn settled_ok(core: Core, settled: Settled) -> bool {
    match settled {
        Settled::Model(model) => {
            &&& model_total(*model, core.universals@, core.existentials@)
            &&& model.wins(core.clauses())
            &&& answered(core.universals@, core.clauses())
        },
        Settled::Move(witness) => {
            &&& consistent(witness@)
            &&& forall|i: int| 0 <= i < witness@.len() ==> core.universals@.contains((#[trigger] witness@[i]).v())
            &&& no_response(core.clauses(), witness@)
            &&& !answered(core.universals@, core.clauses())
        },
        Settled::Open => true,
    }
}

/// The answer to a core.
#[derive(Debug)]
pub(crate) enum Conclusion {
    Sat(Rc<SkolemModel>),
    Unsat(Vec<Lit>),
    OutOfRange,
}

/// What a conclusion says of a core.
pub(crate) open spec fn conclusion_ok(core: Core, conclusion: Conclusion) -> bool {
    match conclusion {
        Conclusion::Sat(model) => {
            &&& model.spec_universals() == core.universals@
            &&& model.wins(core.clauses())
            &&& answered(core.universals@, core.clauses())
            &&& forall|universal: Map<Var, bool>, x: Var|
                #![trigger model.values(universal).contains_key(x)]
                assigns(universal, model.spec_universals()) && model.values(universal).contains_key(x) ==> core.universals@.contains(x)
                    || core.existentials@.contains(x)
            &&& forall|x: Var| #[trigger] model.defines(x) ==> core.existentials@.contains(x)
        },
        Conclusion::Unsat(witness) => {
            &&& forall|i: int| 0 <= i < witness@.len() ==> core.universals@.contains((#[trigger] witness@[i]).v())
            &&& consistent(witness@)
            &&& no_response(core.clauses(), witness@)
            &&& !answered(core.universals@, core.clauses())
        },
        Conclusion::OutOfRange => !clauses_ok(core.clauses()) || !vars_ok(core.universals@),
    }
}

/// Turns a settled verdict into an answer; where the proposal did not
/// stand, the universal assignments are answered case by case.
pub(crate) fn conclude(core: &Core, settled: Settled) -> (conclusion: Conclusion)
    requires
        core.wf(),
        settled_ok(*core, settled),
    ensures
        conclusion_ok(*core, conclusion),
{
    match settled {
        Settled::Model(model) => {
            proof {
                assert forall|universal: Map<Var, bool>, x: Var|
                    #![trigger model.values(universal).contains_key(x)]
                    assigns(universal, model.spec_universals()) && model.values(universal).contains_key(
                        x,
                    ) implies core.universals@.contains(x) || core.existentials@.contains(x) by {
                    lemma_total_keys(&model, core.universals@, core.existentials@, universal, x);
                }
            }
            proof {
                lemma_total_defined(&model, core.universals@, core.existentials@);
            }
            Conclusion::Sat(model)
        },
        Settled::Move(witness) => Conclusion::Unsat(witness),
        Settled::Open => match enumerate_cases(&core.originals, &core.universals, &core.existentials) {
            CaseAnswer::Covered(regions) => {
                let model = SkolemModel { universals: copy_vars(&core.universals), regions, final_chain: Vec::new() };
                proof {
                    lemma_cases_win(model, core.universals@, core.existentials@, core.clauses());
                    assert forall|universal: Map<Var, bool>, x: Var|
                        #![trigger model.values(universal).contains_key(x)]
                        assigns(universal, model.spec_universals()) && model.values(universal).contains_key(
                            x,
                        ) implies core.universals@.contains(x) || core.existentials@.contains(x) by {
                        lemma_cases_keys(model, core.universals@, core.existentials@, core.clauses(), universal, x);
                    }
                }
                proof {
                    lemma_cases_defines(&model, core.universals@, core.existentials@, core.clauses());
                }
                Conclusion::Sat(Rc::new(model))
            },
            CaseAnswer::Refuted(witness) => {
                proof {
                    assert forall|i: int| 0 <= i < witness@.len() implies core.universals@.contains((#[trigger] witness@[i]).v()) by {
                        assert(core.universals@.contains(core.universals@[i]));
                    }
                }
                Conclusion::Unsat(witness)
            },
            CaseAnswer::OutOfRange => Conclusion::OutOfRange,
        },
    }
}

proof fn lemma_total_defined(model: &SkolemModel, universals: Seq<Var>, existentials: Seq<Var>)
    requires
        model_total(*model, universals, existentials),
    ensures
        forall|x: Var| #[trigger] model.defines(x) ==> existentials.contains(x),
{
    assert forall|x: Var| #[trigger] model.defines(x) implies existentials.contains(x) by {
        lemma_total_defines(*model, universals, existentials, x);
    }
}

proof fn lemma_cases_defines(model: &SkolemModel, universals: Seq<Var>, existentials: Seq<Var>, m: Matrix)
    requires
        model.final_chain@.len() == 0,
        forall|i: int|
            0 <= i < model.regions@.len() ==> response_ok(#[trigger] model.regions@[i], universals, existentials, m),
    ensures
        forall|x: Var| #[trigger] model.defines(x) ==> existentials.contains(x),
{
    assert forall|x: Var| #[trigger] model.defines(x) implies existentials.contains(x) by {
        let i = choose|i: int| 0 <= i < model.regions@.len() && in_region(#[trigger] model.regions@[i], x);
        assert(response_ok(model.regions@[i], universals, existentials, m));
        match &model.regions@[i] {
            Region::Response { cube, response } => {
                let j = choose|j: int| 0 <= j < response@.len() && (#[trigger] response@[j]).v() == x;
                assert(existentials.contains(existentials[j]));
            },
            Region::Closed { cube, chain } => {},
        }
    }
}

proof fn lemma_total_keys(model: &SkolemModel, universals: Seq<Var>, existentials: Seq<Var>, universal: Map<Var, bool>, x: Var)
    requires
        model_total(*model, universals, existentials),
        disjoint(universals, existentials),
        assigns(universal, universals),
        model.values(universal).contains_key(x),
    ensures
        universals.contains(x) || existentials.contains(x),
{
    lemma_total_values(*model, universals, existentials, universal, x);
}

impl State {
    /// The piecewise Skolem model of the state, completed to the given
    /// variables.
    pub(crate) fn skolem_model(&self, universals: &Vec<Var>, existentials: &Vec<Var>) -> (model: SkolemModel)
        requires
            self.wf(),
        ensures
            model_total(model, universals@, existentials@),
            self.completed_to(model, existentials@),
    {
        let mut regions: Vec<Region> = Vec::new();
        let mut k: usize = 0;
        while k < self.handled_cases.len()
            invariant
                k <= self.handled_cases@.len(),
                forall|i: int| 0 <= i < regions@.len() ==> region_total(#[trigger] regions@[i], existentials@),
                regions@.len() == k,
                forall|i: int| 0 <= i < k ==> completes_region(self.handled_cases@[i], #[trigger] regions@[i], existentials@),
            decreases self.handled_cases.len() - k,
        {
            let ghost held = regions@;
            match &self.handled_cases[k] {
                Region::Response { cube, response } => {
                    let ghost given = response@;
                    let response = keep_listed(response, existentials);
                    proof {
                        assert forall|l: Lit| #[trigger] response@.contains(l) <==> given.contains(l) && existentials@.contains(l.v()) by {
                            if response@.contains(l) {
                                let i = choose|i: int| 0 <= i < response@.len() && response@[i] == l;
                                assert(given.contains(response@[i]));
                                assert(existentials@.contains(response@[i].v()));
                            }
                            if given.contains(l) && existentials@.contains(l.v()) {
                                let i = choose|i: int| 0 <= i < given.len() && given[i] == l;
                                assert(response@.contains(given[i]));
                            }
                        }
                    }
                    regions.push(Region::Response { cube: copy_lits(cube), response });
                },
                Region::Closed { cube, chain } => {
                    let chain = complete_chain(chain, existentials);
                    regions.push(Region::Closed { cube: copy_lits(cube), chain });
                },
            }
            k += 1;
        }
        let functions = self.snapshot_functions();
        let final_chain = complete_chain(&functions, existentials);
        assert(self.is_snapshot(functions@));
        SkolemModel { universals: copy_vars(universals), regions, final_chain }
    }

    /// The model has the handled cases as regions and the functions of the
    /// assigned variables as its final chain, on the given variables.
    pub(crate) open spec fn completed_to(&self, model: SkolemModel, existentials: Seq<Var>) -> bool {
        &&& model.regions@.len() == self.handled_cases@.len()
        &&& forall|i: int| 0 <= i < model.regions@.len() ==> completes_region(self.handled_cases@[i], #[trigger] model.regions@[i], existentials)
        &&& exists|functions: Seq<(Lit, Function)>| #[trigger]
            self.is_snapshot(functions) && completes_chain(functions, model.final_chain@, existentials)
    }

    /// The recorded move of the universal player, or the empty one.
    pub(crate) open spec fn recorded_move(&self) -> Seq<Lit> {
        match self.unsat_witness {
            Some(witness) => witness@,
            None => Seq::empty(),
        }
    }

    /// Checks a proposed verdict against a core: the functions of the state
    /// as a model of its clauses, or the recorded move as one without a
    /// response.
    pub(crate) fn settle(&self, core: &Core, proposal: SolverResult) -> (settled: Settled)
        requires
            self.wf(),
            core.wf(),
        ensures
            settled_ok(*core, settled),
            settled is Model ==> proposal == SolverResult::Satisfiable,
            settled is Move ==> proposal == SolverResult::Unsatisfiable,
            proposal == SolverResult::Satisfiable ==> exists|model: SkolemModel| #[trigger]
                self.completed_to(model, core.existentials@) && model_total(model, core.universals@, core.existentials@) && (leaf_numbered(
                    core.prefix(),
                    core.clauses(),
                    model,
                ) ==> (settled is Model <==> model.wins(core.clauses()))),
            proposal == SolverResult::Unsatisfiable && clauses_ok(core.clauses()) && lits_ok(self.recorded_move()) ==> (settled is Move
                <==> is_losing_move(*core, self.recorded_move())),
    {
        match proposal {
            SolverResult::Satisfiable => {
                let model = Rc::new(self.skolem_model(&core.universals, &core.existentials));
                assert(self.completed_to(*model, core.existentials@));
                if verify_model(core, &model) {
                    proof {
                        lemma_model_answers(&model, core.universals@, core.clauses());
                    }
                    Settled::Model(model)
                } else {
                    Settled::Open
                }
            },
            SolverResult::Unsatisfiable => match &self.unsat_witness {
                Some(witness) => check_move(core, witness),
                None => {
                    let none: Vec<Lit> = Vec::new();
                    assert(none@ =~= self.recorded_move());
                    check_move(core, &none)
                },
            },
            SolverResult::Unknown => Settled::Open,
        }
    }

    /// The assignment is in none of the first handled cases.
    pub(crate) open spec fn avoids(&self, a: Assignment, region: int) -> bool {
        forall|k: int| 0 <= k < self.handled_cases@.len() && k < region ==> !cube_true(a, (#[trigger] self.handled_cases@[k]).spec_cube())
    }

    /// An assignment extends `cube`, avoids the cubes of the regions handled
    /// before `region`, and follows `functions`.
    pub(crate) open spec fn reaches(&self, a: Assignment, functions: Seq<(Lit, Function)>, cube: Seq<Lit>, region: int) -> bool {
        cube_true(a, cube) && self.avoids(a, region) && follows_functions(a, functions)
    }

    /// All variables of a region and its functions are below an index.
    pub(crate) open spec fn region_below(&self, functions: Seq<(Lit, Function)>, cube: Seq<Lit>, region: int, m: Matrix, base: int) -> bool {
        &&& lits_below(cube, base)
        &&& forall|k: int| 0 <= k < self.handled_cases@.len() && k < region ==> lits_below((#[trigger] self.handled_cases@[k]).spec_cube(), base)
        &&& forall|k: int| 0 <= k < functions.len() ==> function_below((#[trigger] functions[k]).0, functions[k].1, base)
        &&& clauses_below(m, base)
    }

    /// The SAT solver has numbers for the variables, the implications of
    /// the functions and the clauses.
    pub(crate) open spec fn region_numbered(&self, functions: Seq<(Lit, Function)>, cube: Seq<Lit>, region: int, m: Matrix) -> bool {
        exists|base: int|
            0 <= base && #[trigger] self.region_below(functions, cube, region, m, base) && base + implication_count(
                functions,
                functions.len() as int,
            ) + m.len() <= crate::sat::MAX_NUMBER
    }

    /// Searches for an assignment that extends `cube`, avoids the cubes of
    /// the regions handled before `region`, follows `functions`, and
    /// falsifies one of `clauses`; whether there may be one.
    pub(crate) fn region_counterexample(
        &self,
        functions: &Vec<(Lit, Function)>,
        cube: &Vec<Lit>,
        region: usize,
        clauses: &Vec<Vec<Lit>>,
    ) -> (found: bool)
        requires
            self.wf(),
        ensures
            !found ==> forall|a: Assignment|
                cube_true(a, cube@) && self.avoids(a, region as int) && #[trigger] follows_functions(a, functions@) ==> matrix_true(
                    a,
                    matrix_of(clauses@),
                ),
            found ==> !self.region_numbered(functions@, cube@, region as int, matrix_of(clauses@)) || exists|a: Assignment| #[trigger]
                self.reaches(a, functions@, cube@, region as int) && !matrix_true(a, matrix_of(clauses@)),
    {
        let ghost goal = matrix_of(clauses@);
        let mut constraints: Vec<Vec<Lit>> = Vec::new();
        let mut groups: Vec<Group> = Vec::new();
        let mut k: usize = 0;
        proof {
            assert(matrix_of(constraints@) =~= Matrix::empty());
            assert(cube@.take(0) =~= Seq::<Lit>::empty());
        }
        while k < cube.len()
            invariant
                k <= cube@.len(),
                groups@.len() == 0,
                forall|a: Assignment| cube_true(a, cube@) ==> #[trigger] query_true(a, matrix_of(constraints@), groups@),
                forall|a: Assignment| #[trigger] query_true(a, matrix_of(constraints@), groups@) ==> cube_true(a, cube@.take(k as int)),
                forall|n: int| lits_below(cube@, n) ==> #[trigger] query_below(matrix_of(constraints@), groups@, n),
            decreases cube.len() - k,
        {
            let ghost before = matrix_of(constraints@);
            let unit = unit_clause(cube[k]);
            constraints.push(unit);
            proof {
                assert(matrix_of(constraints@) =~= before.push(unit@));
                assert forall|a: Assignment| cube_true(a, cube@) implies #[trigger] query_true(a, matrix_of(constraints@), groups@) by {
                    assert(query_true(a, before, groups@));
                    crate::simplify::lemma_push_true(a, before, unit@);
                    assert(lit_true(a, cube@[k as int]));
                    assert(lit_true(a, unit@[0]));
                }
                assert forall|a: Assignment| #[trigger] query_true(a, matrix_of(constraints@), groups@) implies cube_true(
                    a,
                    cube@.take(k as int + 1),
                ) by {
                    crate::simplify::lemma_push_true(a, before, unit@);
                    assert(query_true(a, before, groups@));
                    crate::aiger::qaiger::lemma_unit(a, cube@[k as int]);
                    assert forall|i: int| 0 <= i < k + 1 implies lit_true(a, #[trigger] cube@.take(k as int + 1)[i]) by {
                        if i < k {
                            assert(lit_true(a, cube@.take(k as int)[i]));
                        }
                    }
                }
                assert forall|n: int| lits_below(cube@, n) implies #[trigger] query_below(matrix_of(constraints@), groups@, n) by {
                    assert(query_below(before, groups@, n));
                    assert(cube@[k as int].v().id() < n);
                    lemma_below_push(before, unit@, n);
                }
            }
            k += 1;
        }
        assert(cube@.take(cube@.len() as int) =~= cube@);
        let mut k: usize = 0;
        while k < self.handled_cases.len() && k < region
            invariant
                k <= self.handled_cases@.len(),
                k <= region,
                groups@.len() == 0,
                forall|a: Assignment|
                    cube_true(a, cube@) && self.avoids(a, region as int) ==> #[trigger] query_true(a, matrix_of(constraints@), groups@),
                forall|a: Assignment| #[trigger]
                    query_true(a, matrix_of(constraints@), groups@) ==> cube_true(a, cube@) && self.avoids(a, k as int),
                goal == matrix_of(clauses@),
                forall|n: int|
                    self.region_below(functions@, cube@, region as int, goal, n) ==> #[trigger] query_below(
                        matrix_of(constraints@),
                        groups@,
                        n,
                    ),
            decreases self.handled_cases.len() - k,
        {
            let ghost before = matrix_of(constraints@);
            let excluded = negate_all(self.handled_cases[k].cube());
            constraints.push(excluded);
            proof {
                assert(matrix_of(constraints@) =~= before.push(excluded@));
                assert forall|a: Assignment| cube_true(a, cube@) && self.avoids(a, region as int) implies #[trigger] query_true(
                    a,
                    matrix_of(constraints@),
                    groups@,
                ) by {
                    assert(query_true(a, before, groups@));
                    crate::simplify::lemma_push_true(a, before, excluded@);
                    let c = self.handled_cases@[k as int].spec_cube();
                    assert(!cube_true(a, c));
                    let i = choose|i: int| 0 <= i < c.len() && !lit_true(a, #[trigger] c[i]);
                    assert(lit_true(a, excluded@[i]));
                }
                let c = self.handled_cases@[k as int].spec_cube();
                assert forall|a: Assignment| #[trigger] query_true(a, matrix_of(constraints@), groups@) implies cube_true(a, cube@)
                    && self.avoids(a, k as int + 1) by {
                    crate::simplify::lemma_push_true(a, before, excluded@);
                    assert(query_true(a, before, groups@));
                    let i = choose|i: int| 0 <= i < excluded@.len() && lit_true(a, #[trigger] excluded@[i]);
                    assert(!lit_true(a, c[i]));
                }
                assert forall|n: int| self.region_below(functions@, cube@, region as int, goal, n) implies #[trigger] query_below(
                    matrix_of(constraints@),
                    groups@,
                    n,
                ) by {
                    assert(query_below(before, groups@, n));
                    assert(lits_below(c, n));
                    assert forall|j: int| 0 <= j < excluded@.len() implies (#[trigger] excluded@[j]).v().id() < n by {
                        assert(c[j].v().id() < n);
                    }
                    lemma_below_push(before, excluded@, n);
                }
            }
            k += 1;
        }
        let mut k: usize = 0;
        proof {
            assert(functions@.take(0) =~= Seq::<(Lit, Function)>::empty());
        }
        while k < functions.len()
            invariant
                k <= functions@.len(),
                goal == matrix_of(clauses@),
                forall|a: Assignment| #[trigger]
                    query_true(a, matrix_of(constraints@), groups@) ==> cube_true(a, cube@) && self.avoids(a, region as int)
                        && follows_functions(a, functions@.take(k as int)),
                forall|n: int|
                    self.region_below(functions@, cube@, region as int, goal, n) ==> #[trigger] query_below(
                        matrix_of(constraints@),
                        groups@,
                        n,
                    ),
                grouped(groups@, groups@.len() as int) == implication_count(functions@, k as int),
                forall|a: Assignment|
                    cube_true(a, cube@) && self.avoids(a, region as int) && follows_functions(a, functions@.take(k as int))
                        ==> #[trigger] query_true(a, matrix_of(constraints@), groups@),
            decreases functions.len() - k,
        {
            let ghost before = (matrix_of(constraints@), groups@);
            encode_function(functions[k].0, &functions[k].1, &mut constraints, &mut groups);
            proof {
                let now = functions@.take(k as int + 1);
                assert forall|a: Assignment| cube_true(a, cube@) && self.avoids(a, region as int) && follows_functions(a, now)
                    implies #[trigger] query_true(a, matrix_of(constraints@), groups@) by {
                    assert forall|i: int| 0 <= i < k implies follows_function(
                        a,
                        (#[trigger] functions@.take(k as int)[i]).0,
                        functions@.take(k as int)[i].1,
                    ) by {
                        assert(now[i] == functions@[i]);
                    }
                    assert(now[k as int] == functions@[k as int]);
                    assert(query_true(a, before.0, before.1));
                }
                assert forall|a: Assignment| #[trigger] query_true(a, matrix_of(constraints@), groups@) implies cube_true(a, cube@)
                    && self.avoids(a, region as int) && follows_functions(a, now) by {
                    assert(query_true(a, before.0, before.1));
                    assert forall|i: int| 0 <= i < now.len() implies follows_function(a, (#[trigger] now[i]).0, now[i].1) by {
                        if i < k {
                            assert(functions@.take(k as int)[i] == now[i]);
                        }
                    }
                }
                assert forall|n: int| self.region_below(functions@, cube@, region as int, goal, n) implies #[trigger] query_below(
                    matrix_of(constraints@),
                    groups@,
                    n,
                ) by {
                    assert(query_below(before.0, before.1, n));
                    assert(function_below(functions@[k as int].0, functions@[k as int].1, n));
                }
            }
            k += 1;
        }
        let ghost before = groups@;
        let group = Group { guards: Vec::new(), var: None, clauses: copy_clauses(clauses) };
        groups.push(group);
        proof {
            assert(functions@.take(functions@.len() as int) =~= functions@);
            assert forall|a: Assignment|
                cube_true(a, cube@) && self.avoids(a, region as int) && #[trigger] follows_functions(a, functions@) && !matrix_true(
                    a,
                    matrix_of(clauses@),
                ) implies query_true(a, matrix_of(constraints@), groups@) by {
                assert(query_true(a, matrix_of(constraints@), before));
                let m = matrix_of(clauses@);
                let i = choose|i: int| 0 <= i < m.len() && !clause_true(a, #[trigger] m[i]);
                assert(matrix_of(group.clauses@)[i] == m[i]);
                assert(fires(a, None, group.clauses@[i]@)) by {
                    assert forall|j: int| 0 <= j < m[i].len() implies !lit_true(a, #[trigger] m[i][j]) by {}
                }
                assert(group.holds(a));
                assert forall|g: int| 0 <= g < groups@.len() implies (#[trigger] groups@[g]).holds(a) by {
                    if g < before.len() {
                        assert(groups@[g] == before[g]);
                    }
                }
            }
        }
        match query(&constraints, &groups) {
            Answer::Impossible => false,
            Answer::Possible(model) => {
                proof {
                    let a = crate::incdet::determinacy::model_assignment(model@);
                    crate::incdet::determinacy::lemma_model_assignment(model@);
                    assert(query_true(a, matrix_of(constraints@), groups@));
                    assert forall|g: int| 0 <= g < before.len() implies (#[trigger] before[g]).holds(a) by {
                        assert(groups@[g].holds(a));
                    }
                    assert(query_true(a, matrix_of(constraints@), before));
                    assert(groups@[before.len() as int].holds(a));
                    let i = choose|i: int| 0 <= i < group.clauses@.len() && fires(a, group.var, (#[trigger] group.clauses@[i])@);
                    assert(matrix_of(group.clauses@)[i] == goal[i]);
                    assert(!clause_true(a, goal[i]));
                    assert(self.reaches(a, functions@, cube@, region as int));
                }
                true
            },
            Answer::OutOfRange => {
                proof {
                    lemma_grouped_push(before, group);
                    assert(matrix_of(group.clauses@).len() == goal.len());
                    if self.region_numbered(functions@, cube@, region as int, goal) {
                        let base = choose|base: int|
                            0 <= base && #[trigger] self.region_below(functions@, cube@, region as int, goal, base) && base
                                + implication_count(functions@, functions@.len() as int) + goal.len() <= crate::sat::MAX_NUMBER;
                        assert(query_below(matrix_of(constraints@), before, base));
                        assert(matrix_of(group.clauses@) =~= goal);
                        assert forall|g: int| 0 <= g < groups@.len() implies group_below(#[trigger] groups@[g], base) by {
                            if g < before.len() {
                                assert(group_below(before[g], base));
                            }
                        }
                        assert(query_below(matrix_of(constraints@), groups@, base));
                    }
                }
                true
            },
        }
    }

    /// Checks a handled case against added clauses. Variables without a
    /// function in the region are unconstrained in the check, so a pass is
    /// robust against whatever functions they are assigned later.
    pub(crate) fn case_valid_for(&self, region: usize, clauses: &Vec<Vec<Lit>>) -> (valid: bool)
        requires
            self.wf(),
        ensures
            region >= self.handled_cases@.len() ==> valid,
            valid && region < self.handled_cases@.len() ==> match self.handled_cases@[region as int] {
                Region::Closed { cube, chain } => forall|a: Assignment|
                    cube_true(a, cube@) && self.avoids(a, region as int) && #[trigger] follows_functions(a, chain@) ==> matrix_true(
                        a,
                        matrix_of(clauses@),
                    ),
                Region::Response { cube, response } => exists|functions: Seq<(Lit, Function)>| #[trigger]
                    self.root_functions(functions, response@) && forall|a: Assignment|
                        cube_true(a, cube@) && self.avoids(a, region as int) && cube_true(a, response@) && #[trigger] follows_functions(
                            a,
                            functions,
                        ) ==> matrix_true(a, matrix_of(clauses@)),
            },
    {
        if region >= self.handled_cases.len() {
            return true;
        }
        match &self.handled_cases[region] {
            Region::Response { cube, response } => {
                let mut functions = self.snapshot_root_functions(response);
                let ghost roots = functions@;
                let mut k: usize = 0;
                while k < response.len()
                    invariant
                        k <= response@.len(),
                        functions@.len() == roots.len() + k,
                        forall|i: int| 0 <= i < roots.len() ==> #[trigger] functions@[i] == roots[i],
                        forall|i: int|
                            roots.len() <= i < functions@.len() ==> #[trigger] functions@[i] == (response@[i - roots.len()], Function::Constant),
                    decreases response.len() - k,
                {
                    functions.push((response[k], Function::Constant));
                    k += 1;
                }
                let found = self.region_counterexample(&functions, cube, region, clauses);
                proof {
                    if !found {
                        assert(self.root_functions(roots, response@));
                        assert forall|a: Assignment|
                            cube_true(a, cube@) && self.avoids(a, region as int) && cube_true(a, response@) && #[trigger] follows_functions(
                                a,
                                roots,
                            ) implies matrix_true(a, matrix_of(clauses@)) by {
                            assert forall|i: int| 0 <= i < functions@.len() implies follows_function(
                                a,
                                (#[trigger] functions@[i]).0,
                                functions@[i].1,
                            ) by {
                                if i < roots.len() {
                                    assert(functions@[i] == roots[i]);
                                } else {
                                    assert(lit_true(a, response@[i - roots.len()]));
                                }
                            }
                            assert(follows_functions(a, functions@));
                        }
                    }
                }
                !found
            },
            Region::Closed { cube, chain } => !self.region_counterexample(chain, cube, region, clauses),
        }
    }

    /// A function of a literal that was assigned at the root, besides those
    /// of given literals.
    pub(crate) open spec fn root_function(&self, entry: (Lit, Function), besides: Seq<Lit>) -> bool {
        &&& self.levels@.contains_key(entry.0.v()) && self.levels@[entry.0.v()].0 == 0
        &&& !besides.contains(entry.0) && !besides.contains(entry.0.neg())
        &&& self.has_function(entry.0, entry.1)
    }

    /// The literals that were assigned at the root, besides those of given
    /// literals.
    pub(crate) open spec fn root_part(&self, lits: Seq<Lit>, besides: Seq<Lit>) -> Seq<Lit>
        decreases lits.len(),
    {
        if lits.len() == 0 {
            Seq::empty()
        } else {
            let before = self.root_part(lits.drop_last(), besides);
            let l = lits.last();
            if self.levels@.contains_key(l.v()) && self.levels@[l.v()].0 == 0 && !besides.contains(l) && !besides.contains(l.neg()) {
                before.push(l)
            } else {
                before
            }
        }
    }

    pub(crate) open spec fn root_functions(&self, functions: Seq<(Lit, Function)>, besides: Seq<Lit>) -> bool {
        forall|i: int| 0 <= i < functions.len() ==> self.root_function(#[trigger] functions[i], besides)
    }

    proof fn lemma_same_function(&self, lit: Lit, function: Function, copy: Function)
        requires
            self.has_function(lit, function),
            same_function(copy, function),
        ensures
            self.has_function(lit, copy),
    {
        match (copy, function) {
            (Function::Implications(l), Function::Implications(r)) => {
                assert(matrix_of(l@).len() == matrix_of(r@).len());
                assert forall|i: int| 0 <= i < l@.len() implies crate::clause::implied(self.matrix(), (#[trigger] l@[i])@) by {
                    assert(matrix_of(l@)[i] == matrix_of(r@)[i]);
                    assert(crate::clause::implied(self.matrix(), r@[i]@));
                }
            },
            _ => {},
        }
    }

    /// The functions of the root-level assigned existential variables in
    /// trail order, besides those of the given literals.
    fn snapshot_root_functions(&self, besides: &Vec<Lit>) -> (functions: Vec<(Lit, Function)>)
        requires
            self.wf(),
        ensures
            self.root_functions(functions@, besides@),
            Seq::new(functions@.len(), |i: int| functions@[i].0) == self.root_part(
                self.existential_trail(self.trail.lits().len() as int),
                besides@,
            ),
    {
        let excluded = crate::datastructure::LitSet::from_lits(besides);
        let all = self.snapshot_functions();
        let ghost lits = Seq::new(all@.len(), |i: int| all@[i].0);
        let mut functions: Vec<(Lit, Function)> = Vec::new();
        let mut k: usize = 0;
        proof {
            assert(lits.take(0) =~= Seq::<Lit>::empty());
            assert(Seq::new(functions@.len(), |i: int| functions@[i].0) =~= Seq::<Lit>::empty());
        }
        while k < all.len()
            invariant
                k <= all@.len(),
                lits == Seq::new(all@.len(), |i: int| all@[i].0),
                Seq::new(functions@.len(), |i: int| functions@[i].0) == self.root_part(lits.take(k as int), besides@),
                self.wf(),
                forall|l: Lit| #[trigger] excluded@.contains(l) <==> besides@.contains(l),
                forall|i: int| 0 <= i < all@.len() ==> self.has_function((#[trigger] all@[i]).0, all@[i].1),
                self.root_functions(functions@, besides@),
            decreases all.len() - k,
        {
            let lit = all[k].0;
            proof {
                assert(lits.take(k as int + 1).drop_last() =~= lits.take(k as int));
                assert(lits.take(k as int + 1).last() == lit);
            }
            if self.is_root_assigned(lit.var()) && !excluded.contains(lit) && !excluded.contains(lit.negated()) {
                let ghost before = functions@;
                let function = copy_function(&all[k].1);
                functions.push((lit, function));
                proof {
                    assert(self.has_function(all@[k as int].0, all@[k as int].1));
                    self.lemma_same_function(lit, all@[k as int].1, function);
                    assert(Seq::new(functions@.len(), |i: int| functions@[i].0) =~= Seq::new(before.len(), |i: int| before[i].0).push(lit));
                    assert forall|i: int| 0 <= i < functions@.len() implies self.root_function(#[trigger] functions@[i], besides@) by {
                        if i < before.len() {
                            assert(functions@[i] == before[i]);
                        }
                    }
                }
            }
            k += 1;
        }
        assert(lits.take(lits.len() as int) =~= lits);
        functions
    }
}

/// All variables of a function are below an index.
pub(crate) open spec fn function_below(lit: Lit, function: Function, base: int) -> bool {
    lit.v().id() < base && match function {
        Function::Constant => true,
        Function::Implications(clauses) => clauses_below(matrix_of(clauses@), base),
    }
}

/// The number of implication clauses of a function.
pub(crate) open spec fn function_clauses(function: Function) -> nat {
    match function {
        Function::Constant => 0,
        Function::Implications(clauses) => clauses@.len(),
    }
}

/// The number of implication clauses of the first functions.
pub(crate) open spec fn implication_count(functions: Seq<(Lit, Function)>, count: int) -> nat
    decreases count,
{
    if count <= 0 {
        0
    } else {
        implication_count(functions, count - 1) + function_clauses(functions[count - 1].1)
    }
}

proof fn lemma_below_push(m: Matrix, c: Seq<Lit>, n: int)
    requires
        clauses_below(m, n),
        lits_below(c, n),
    ensures
        clauses_below(m.push(c), n),
{
    let all = m.push(c);
    assert forall|i: int| 0 <= i < all.len() implies lits_below(#[trigger] all[i], n) by {
        if i < m.len() {
            assert(all[i] == m[i]);
        }
    }
}

/// Encodes a function: the literal holds iff one of its implication
/// clauses fires, or always, for constants.
fn encode_function(lit: Lit, function: &Function, constraints: &mut Vec<Vec<Lit>>, groups: &mut Vec<Group>)
    ensures
        forall|a: Assignment| #[trigger]
            query_true(a, matrix_of(final(constraints)@), final(groups)@) <==> query_true(a, matrix_of(old(constraints)@), old(groups)@)
                && follows_function(a, lit, *function),
        forall|n: int|
            query_below(matrix_of(old(constraints)@), old(groups)@, n) && function_below(lit, *function, n) ==> #[trigger] query_below(
                matrix_of(final(constraints)@),
                final(groups)@,
                n,
            ),
        grouped(final(groups)@, final(groups)@.len() as int) == grouped(old(groups)@, old(groups)@.len() as int) + function_clauses(*function),
{
    let ghost m = matrix_of(constraints@);
    let ghost gs = groups@;
    match function {
        Function::Constant => {
            let unit = unit_clause(lit);
            constraints.push(unit);
            proof {
                assert(matrix_of(constraints@) =~= m.push(unit@));
                assert forall|a: Assignment| #[trigger] query_true(a, matrix_of(constraints@), groups@) <==> query_true(a, m, gs)
                    && follows_function(a, lit, *function) by {
                    crate::simplify::lemma_push_true(a, m, unit@);
                    assert(unit@ =~= seq![lit]);
                    crate::aiger::qaiger::lemma_unit(a, lit);
                }
                assert forall|n: int| query_below(m, gs, n) && function_below(lit, *function, n) implies #[trigger] query_below(
                    matrix_of(constraints@),
                    groups@,
                    n,
                ) by {
                    lemma_below_push(m, unit@, n);
                }
            }
        },
        Function::Implications(clauses) => {
            let mut k: usize = 0;
            while k < clauses.len()
                invariant
                    k <= clauses@.len(),
                    groups@ == gs,
                    *function == Function::Implications(*clauses),
                    forall|n: int|
                        clauses_below(m, n) && function_below(lit, *function, n) ==> #[trigger] clauses_below(matrix_of(constraints@), n),
                    forall|a: Assignment| #[trigger]
                        matrix_true(a, matrix_of(constraints@)) <==> matrix_true(a, m) && forall|i: int|
                            0 <= i < k && fires(a, Some(lit.v()), (#[trigger] clauses@[i])@) ==> lit_true(a, lit),
                decreases clauses.len() - k,
            {
                let ghost before = matrix_of(constraints@);
                // a clause that fires makes the literal true
                let firing = firing_clause(lit, &clauses[k]);
                constraints.push(firing);
                proof {
                    assert(matrix_of(constraints@) =~= before.push(firing@));
                    assert forall|a: Assignment| #[trigger] matrix_true(a, matrix_of(constraints@)) <==> matrix_true(a, m) && forall|i: int|
                        0 <= i < k + 1 && fires(a, Some(lit.v()), (#[trigger] clauses@[i])@) ==> lit_true(a, lit) by {
                        crate::simplify::lemma_push_true(a, before, firing@);
                        assert(matrix_true(a, before) <==> matrix_true(a, m) && forall|i: int|
                            0 <= i < k && fires(a, Some(lit.v()), (#[trigger] clauses@[i])@) ==> lit_true(a, lit));
                        assert(clause_true(a, firing@) == (lit_true(a, lit) || !fires(a, Some(lit.v()), clauses@[k as int]@)));
                    }
                    assert forall|n: int| clauses_below(m, n) && function_below(lit, *function, n) implies #[trigger] clauses_below(
                        matrix_of(constraints@),
                        n,
                    ) by {
                        assert(clauses_below(before, n));
                        assert(lits_below(matrix_of(clauses@)[k as int], n));
                        assert(matrix_of(clauses@)[k as int] == clauses@[k as int]@);
                        assert(lits_below(firing@, n));
                        lemma_below_push(before, firing@, n);
                    }
                }
                k += 1;
            }
            let group = Group { guards: unit_clause(lit.negated()), var: Some(lit.var()), clauses: copy_clauses(clauses) };
            groups.push(group);
            proof {
                lemma_grouped_push(gs, group);
                assert(matrix_of(group.clauses@).len() == matrix_of(clauses@).len());
                assert forall|n: int| query_below(m, gs, n) && function_below(lit, *function, n) implies #[trigger] query_below(
                    matrix_of(constraints@),
                    groups@,
                    n,
                ) by {
                    assert(clauses_below(matrix_of(constraints@), n));
                    assert forall|g: int| 0 <= g < groups@.len() implies group_below(#[trigger] groups@[g], n) by {
                        if g < gs.len() {
                            assert(group_below(gs[g], n));
                        } else {
                            assert(group.guards@ =~= seq![lit.neg()]);
                            assert(matrix_of(group.clauses@) =~= matrix_of(clauses@));
                        }
                    }
                }
                assert forall|a: Assignment| #[trigger] query_true(a, matrix_of(constraints@), groups@) <==> query_true(a, m, gs)
                    && follows_function(a, lit, *function) by {
                    assert(group.guards@ =~= seq![lit.neg()]);
                    crate::aiger::qaiger::lemma_unit(a, lit.neg());
                    assert(matrix_of(group.clauses@).len() == matrix_of(clauses@).len());
                    assert forall|i: int| 0 <= i < clauses@.len() implies (#[trigger] group.clauses@[i])@ == clauses@[i]@ by {
                        assert(matrix_of(group.clauses@)[i] == matrix_of(clauses@)[i]);
                    }
                    assert(group.holds(a) <==> !lit_true(a, lit) || exists|i: int|
                        0 <= i < clauses@.len() && fires(a, Some(lit.v()), (#[trigger] clauses@[i])@)) by {
                        if exists|i: int| 0 <= i < clauses@.len() && fires(a, Some(lit.v()), (#[trigger] clauses@[i])@) {
                            let i = choose|i: int| 0 <= i < clauses@.len() && fires(a, Some(lit.v()), (#[trigger] clauses@[i])@);
                            assert(fires(a, group.var, group.clauses@[i]@));
                        }
                    }
                    if query_true(a, matrix_of(constraints@), groups@) {
                        assert(groups@[gs.len() as int].holds(a));
                        assert forall|g: int| 0 <= g < gs.len() implies (#[trigger] gs[g]).holds(a) by {
                            assert(groups@[g].holds(a));
                        }
                    }
                    if query_true(a, m, gs) && follows_function(a, lit, *function) {
                        assert forall|g: int| 0 <= g < groups@.len() implies (#[trigger] groups@[g]).holds(a) by {
                            if g < gs.len() {
                                assert(gs[g].holds(a));
                            }
                        }
                    }
                }
            }
        },
    }
}

/// The clause that makes a literal true when an implication clause fires.
fn firing_clause(lit: Lit, clause: &Vec<Lit>) -> (firing: Vec<Lit>)
    ensures
        forall|a: Assignment| #[trigger] clause_true(a, firing@) == (lit_true(a, lit) || !fires(a, Some(lit.v()), clause@)),
        forall|n: int| lit.v().id() < n && lits_below(clause@, n) ==> #[trigger] lits_below(firing@, n),
{
    let mut firing = unit_clause(lit);
    let mut j: usize = 0;
    assert(firing@ =~= seq![lit]);
    proof {
        assert forall|a: Assignment| #[trigger] clause_true(a, firing@) == (lit_true(a, lit) || !fires(a, Some(lit.v()), clause@.take(0))) by {
            crate::aiger::qaiger::lemma_unit(a, lit);
        }
    }
    while j < clause.len()
        invariant
            j <= clause@.len(),
            forall|a: Assignment| #[trigger]
                clause_true(a, firing@) == (lit_true(a, lit) || !fires(a, Some(lit.v()), clause@.take(j as int))),
            forall|n: int| lit.v().id() < n && lits_below(clause@, n) ==> #[trigger] lits_below(firing@, n),
        decreases clause.len() - j,
    {
        let ghost before = firing@;

        let l = clause[j];
        if l.var() != lit.var() {
            firing.push(l);
        }
        proof {
            let now = clause@.take(j as int + 1);
            let earlier = clause@.take(j as int);
            assert forall|a: Assignment| #[trigger] clause_true(a, firing@) == (lit_true(a, lit) || !fires(a, Some(lit.v()), now)) by {
                assert(clause_true(a, before) == (lit_true(a, lit) || !fires(a, Some(lit.v()), earlier)));
                if l.v() != lit.v() {
                    crate::incdet::certify::lemma_clause_pushed(a, before, l);
                }
                assert(fires(a, Some(lit.v()), now) == (fires(a, Some(lit.v()), earlier) && (l.v() == lit.v() || !lit_true(a, l)))) by {
                    if fires(a, Some(lit.v()), now) {
                        assert(now[j as int] == l);
                        assert forall|i: int| 0 <= i < j && Some((#[trigger] earlier[i]).v()) != Some(lit.v()) implies !lit_true(
                            a,
                            earlier[i],
                        ) by {
                            assert(now[i] == earlier[i]);
                        }
                    }
                    if fires(a, Some(lit.v()), earlier) && (l.v() == lit.v() || !lit_true(a, l)) {
                        assert forall|i: int| 0 <= i < now.len() && Some((#[trigger] now[i]).v()) != Some(lit.v()) implies !lit_true(a, now[i]) by {
                            if i < j {
                                assert(now[i] == earlier[i]);
                            }
                        }
                    }
                }
            }
        }
        proof {
            assert forall|n: int| lit.v().id() < n && lits_below(clause@, n) implies #[trigger] lits_below(firing@, n) by {
                assert(lits_below(before, n));
                assert(clause@[j as int].v().id() < n);
                assert forall|i: int| 0 <= i < firing@.len() implies (#[trigger] firing@[i]).v().id() < n by {
                    if i < before.len() {
                        assert(firing@[i] == before[i]);
                    }
                }
            }
        }
        j += 1;
    }
    assert(clause@.take(clause@.len() as int) =~= clause@);
    firing
}

proof fn lemma_clause_pushed(a: Assignment, c: Seq<Lit>, l: Lit)
    ensures
        clause_true(a, c.push(l)) == (clause_true(a, c) || lit_true(a, l)),
{
    let d = c.push(l);
    if clause_true(a, c) {
        let i = choose|i: int| 0 <= i < c.len() && lit_true(a, #[trigger] c[i]);
        assert(lit_true(a, d[i]));
    }
    if lit_true(a, l) {
        assert(lit_true(a, d[c.len() as int]));
    }
    if clause_true(a, d) {
        let i = choose|i: int| 0 <= i < d.len() && lit_true(a, #[trigger] d[i]);
        if i < c.len() {
            assert(lit_true(a, c[i]));
        }
    }
}

/// The circuit of a model that wins does.
proof fn lemma_winning_circuit(model: Rc<SkolemModel>, p: Prefix, m: Matrix)
    requires
        model.wins(m),
        universals_of(p) == model.spec_universals(),
    ensures
        circuit_wins(Strategy::Leaf(model), p, m),
{
    let strategy = Strategy::Leaf(model);
    let us = model.spec_universals();
    assert forall|a: Assignment| #[trigger] circuit_follows(strategy, p, a) implies matrix_true(a, m) by {
        let universal = leaf_inputs(us, restricted_to(us, a));
        assert(assigns(universal, us));
        let played = strategy.circuit(restricted_to(us, a), Map::empty());
        let values = model.values(universal);
        assert forall|x: Var| #[trigger] values.contains_key(x) implies a(x) == values[x] by {
            crate::laws::lemma_values_domain(*model, universal, x);
            if universal.contains_key(x) {
                assert(values[x] == universal[x]);
            } else {
                assert(model.defines(x));
                assert(played.contains_key(x));
                assert(a(x) == played[x]);
            }
        }
        assert(agrees(a, values));
    }
}

/// Checks the circuit of a total model against the clauses of a core.
pub fn verify_model(core: &Core, model: &Rc<SkolemModel>) -> (valid: bool)
    requires
        core.wf(),
        model_total(**model, core.universals@, core.existentials@),
    ensures
        valid ==> model.wins(core.clauses()),
        leaf_numbered(core.prefix(), core.clauses(), **model) ==> valid == model.wins(core.clauses()),
{
    proof {
        let q = core.prefix();
        assert(q.drop_last().drop_last() =~= Prefix::empty());
        assert(q.drop_last().last() == q[0]);
        assert(universals_of(q.drop_last().drop_last()) == Seq::<Var>::empty());
        assert(universals_of(q.drop_last()) =~= core.universals@);
        assert(universals_of(q) == core.universals@);
    }
    if core.universals.len() as u64 >= crate::incdet::aig::MAX_GRAPH {
        return false;
    }
    let mut prefix: Vec<(QuantTy, Vec<Var>)> = Vec::new();
    prefix.push((QuantTy::Forall, copy_vars(&core.universals)));
    prefix.push((QuantTy::Exists, copy_vars(&core.existentials)));
    let goal = QCNF { prefix, matrix: copy_clauses(&core.originals) };
    let ghost p = goal.blocks();
    proof {
        assert(p.len() == 2);
        assert(p[0] == (QuantTy::Forall, core.universals@));
        assert(p[1] == (QuantTy::Exists, core.existentials@));
        assert(p.drop_last().drop_last() =~= Prefix::empty());
        assert(p.last() == p[1]);
        assert(p.drop_last().last() == p[0]);
        assert(universals_of(p.drop_last().drop_last()) == Seq::<Var>::empty());
        assert(universals_of(p.drop_last()) =~= core.universals@);
        assert(universals_of(p) == core.universals@);
    }
    let shared = crate::shared::share(model);
    let strategy = Strategy::Leaf(shared);
    proof {
        assert(p =~= core.prefix());
        if model.wins(core.clauses()) {
            lemma_winning_circuit(*model, p, core.clauses());
        }
        crate::strategy_check::lemma_leaf_numbered(*model, p, core.clauses());
    }
    match check_strategy(&goal, &strategy) {
        Some(true) => {
            proof {
                lemma_certified(shared, p, core.clauses(), core.universals@, core.existentials@);
            }
            true
        },
        _ => false,
    }
}

/// The literals on universal variables.
pub open spec fn universal_part(lits: Seq<Lit>, universals: Seq<Var>, part: Seq<Lit>) -> bool {
    forall|l: Lit| #[trigger] part.contains(l) <==> lits.contains(l) && universals.contains(l.v())
}

/// The universal literals do not contradict each other, and where they
/// hold the clauses do not.
pub open spec fn is_losing_move(core: Core, lits: Seq<Lit>) -> bool {
    &&& forall|l: Lit| #[trigger] lits.contains(l) && core.universals@.contains(l.v()) ==> !lits.contains(l.neg())
    &&& forall|a: Assignment| #[trigger]
        matrix_true(a, core.clauses()) ==> exists|l: Lit| #[trigger] lits.contains(l) && core.universals@.contains(l.v()) && !lit_true(a, l)
}

proof fn lemma_universal_part(core: Core, lits: Seq<Lit>, part: Seq<Lit>)
    requires
        forall|i: int| 0 <= i < part.len() ==> core.universals@.contains((#[trigger] part[i]).v()),
        forall|i: int| 0 <= i < lits.len() && core.universals@.contains((#[trigger] lits[i]).v()) ==> part.contains(lits[i]),
        forall|i: int| 0 <= i < part.len() ==> lits.contains(#[trigger] part[i]),
    ensures
        universal_part(lits, core.universals@, part),
        is_losing_move(core, lits) <==> consistent(part) && forall|a: Assignment| #[trigger]
            cube_true(a, part) ==> !matrix_true(a, core.clauses()),
        lits_ok(lits) ==> lits_ok(part),
{
    assert forall|l: Lit| #[trigger] part.contains(l) <==> lits.contains(l) && core.universals@.contains(l.v()) by {
        if lits.contains(l) {
            let i = choose|i: int| 0 <= i < lits.len() && lits[i] == l;
            assert(core.universals@.contains(lits[i].v()) ==> part.contains(lits[i]));
        }
        if part.contains(l) {
            let i = choose|i: int| 0 <= i < part.len() && part[i] == l;
            assert(core.universals@.contains(part[i].v()) && lits.contains(part[i]));
        }
    }
    if lits_ok(lits) {
        assert forall|i: int| 0 <= i < part.len() implies crate::sat::lit_ok(#[trigger] part[i]) by {
            assert(lits.contains(part[i]));
            let j = choose|j: int| 0 <= j < lits.len() && lits[j] == part[i];
            assert(crate::sat::lit_ok(lits[j]));
        }
    }
    assert forall|a: Assignment| #[trigger] cube_true(a, part) <==> !(exists|l: Lit| #[trigger]
        lits.contains(l) && core.universals@.contains(l.v()) && !lit_true(a, l)) by {
        if cube_true(a, part) {
            assert forall|l: Lit| #[trigger] lits.contains(l) && core.universals@.contains(l.v()) implies lit_true(a, l) by {
                assert(part.contains(l));
                let i = choose|i: int| 0 <= i < part.len() && part[i] == l;
                assert(lit_true(a, part[i]));
            }
        } else {
            let i = choose|i: int| 0 <= i < part.len() && !lit_true(a, #[trigger] part[i]);
            assert(part.contains(part[i]));
        }
    }
    if is_losing_move(core, lits) {
        assert forall|i: int, j: int|
            0 <= i < part.len() && 0 <= j < part.len() && #[trigger] part[i].v() == #[trigger] part[j].v() implies part[i].pos()
            == part[j].pos() by {
            if part[i].pos() != part[j].pos() {
                crate::literal::lemma_lit_ext(part[i].neg(), part[j]);
                assert(part.contains(part[i]) && part.contains(part[j]));
                assert(lits.contains(part[i]));
            }
        }
        assert forall|a: Assignment| #[trigger] cube_true(a, part) implies !matrix_true(a, core.clauses()) by {}
    }
    if consistent(part) && forall|a: Assignment| #[trigger] cube_true(a, part) ==> !matrix_true(a, core.clauses()) {
        assert forall|l: Lit| #[trigger] lits.contains(l) && core.universals@.contains(l.v()) implies !lits.contains(l.neg()) by {
            if lits.contains(l.neg()) {
                assert(part.contains(l) && part.contains(l.neg()));
                let i = choose|i: int| 0 <= i < part.len() && part[i] == l;
                let j = choose|j: int| 0 <= j < part.len() && part[j] == l.neg();
                assert(part[i].v() == part[j].v());
            }
        }
        assert forall|a: Assignment| #[trigger] matrix_true(a, core.clauses()) implies exists|l: Lit| #[trigger]
            lits.contains(l) && core.universals@.contains(l.v()) && !lit_true(a, l) by {
            assert(!cube_true(a, part));
        }
    }
}

/// Checks that a core has no response to the universal literals of a
/// recorded move.
pub fn check_move(core: &Core, recorded: &Vec<Lit>) -> (settled: Settled)
    requires
        core.wf(),
    ensures
        settled_ok(*core, settled),
        !(settled is Model),
        settled matches Settled::Move(witness) ==> universal_part(recorded@, core.universals@, witness@),
        clauses_ok(core.clauses()) && lits_ok(recorded@) ==> (settled is Move <==> is_losing_move(*core, recorded@)),
{
    let witness = keep_listed(recorded, &core.universals);
    proof {
        lemma_universal_part(*core, recorded@, witness@);
    }
    let mut solver = SatSolver::new();
    load_clauses(&mut solver, &core.originals);
    assert(solver.clauses() =~= core.clauses());
    // literals that contradict each other are no move
    let empty = SatSolver::new();
    match empty.solve_with_assumptions(&witness) {
        SatOutcome::Sat(model) => {
            let ghost a = crate::incdet::determinacy::model_assignment(model@);
            proof {
                crate::incdet::determinacy::lemma_model_assignment(model@);
                assert(cube_true(a, witness@));
                assert forall|i: int, j: int|
                    0 <= i < witness@.len() && 0 <= j < witness@.len() && #[trigger] witness@[i].v() == #[trigger] witness@[j].v() implies witness@[i].pos()
                    == witness@[j].pos() by {
                    assert(lit_true(a, witness@[i]));
                    assert(lit_true(a, witness@[j]));
                }
            }
            match solver.solve_with_assumptions(&witness) {
                SatOutcome::Unsat => {
                    proof {
                        let us = core.universals@;
                        assert(!has_response(us, core.clauses(), a)) by {
                            if has_response(us, core.clauses(), a) {
                                let b = choose|b: Assignment| agree_on(a, b, us) && #[trigger] matrix_true(b, core.clauses());
                                assert forall|i: int| 0 <= i < witness@.len() implies lit_true(b, #[trigger] witness@[i]) by {
                                    assert(us.contains(witness@[i].v()));
                                    assert(lit_true(a, witness@[i]));
                                    assert(a(witness@[i].v()) == b(witness@[i].v()));
                                }
                                assert(cube_true(b, witness@));
                            }
                        }
                    }
                    Settled::Move(witness)
                },
                SatOutcome::Sat(model) => {
                    proof {
                        let b = crate::incdet::determinacy::model_assignment(model@);
                        crate::incdet::determinacy::lemma_model_assignment(model@);
                        assert(cube_true(b, witness@) && matrix_true(b, core.clauses()));
                    }
                    Settled::Open
                },
                SatOutcome::OutOfRange => Settled::Open,
            }
        },
        SatOutcome::Unsat => {
            proof {
                if consistent(witness@) {
                    let b = crate::incdet::determinacy::model_assignment(witness@);
                    crate::incdet::determinacy::lemma_model_assignment(witness@);
                    assert(!matrix_true(b, empty.clauses()));
                    assert(empty.clauses().len() == 0);
                }
            }
            Settled::Open
        },
        SatOutcome::OutOfRange => Settled::Open,
    }
}

} // verus!
