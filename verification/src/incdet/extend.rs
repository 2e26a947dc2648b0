//! Monotone extensions and assumption queries on a live search.
use crate::datastructure::LitSet;
use crate::incdet::certify::follows_functions;
use crate::incdet::load::{has_opposites, tautology, Core};
use crate::incdet::model::Function;
use crate::incdet::propagation::assignment::constant_of;
use crate::incdet::propagation::trail::DecLvl;
use crate::incdet::state::{contains, State, SEARCH_STEPS};
use crate::incdet::MAX_REVERIFIED_CASES;
use crate::literal::{Lit, Var};
use crate::normal::{copy_lits, copy_vars};
use crate::qcnf::matrix_of;
use crate::quantifier::QuantTy;
use crate::semantics::{clause_true, matrix_true, Assignment, Matrix};
use crate::simplify::{lemma_push_true, lemma_subclause, same_lits, sort_dedup, sorted};
use vstd::prelude::*;

verus! {

broadcast use crate::literal::group_literal;

/// A clause of the list has the same literals, in order and each once.
pub open spec fn normal_in(n: Matrix, c: Seq<Lit>) -> bool {
    exists|i: int| 0 <= i < n.len() && sorted(#[trigger] n[i]) && same_lits(n[i], c)
}

/// A clause of the list is no tautology and has the same literals.
pub open spec fn normal_of(m: Matrix, d: Seq<Lit>) -> bool {
    exists|i: int| 0 <= i < m.len() && !tautology(#[trigger] m[i]) && same_lits(d, m[i])
}

/// The clauses besides tautologies, with sorted literals.
pub open spec fn normalized(m: Matrix, n: Matrix) -> bool {
    &&& forall|i: int| 0 <= i < m.len() && !tautology(#[trigger] m[i]) ==> normal_in(n, m[i])
    &&& forall|j: int| 0 <= j < n.len() ==> sorted(#[trigger] n[j]) && normal_of(m, n[j])
    &&& n.len() <= m.len()
}

proof fn lemma_same_tautology(c: Seq<Lit>, d: Seq<Lit>)
    requires
        same_lits(c, d),
    ensures
        tautology(c) == tautology(d),
{
    if tautology(c) {
        let i = choose|i: int| 0 <= i < c.len() && c.contains((#[trigger] c[i]).neg());
        assert(c.contains(c[i]));
        assert(d.contains(c[i]) && d.contains(c[i].neg()));
        let j = choose|j: int| 0 <= j < d.len() && d[j] == c[i];
        assert(d.contains(d[j].neg()));
    }
    if tautology(d) {
        let i = choose|i: int| 0 <= i < d.len() && d.contains((#[trigger] d[i]).neg());
        assert(d.contains(d[i]));
        assert(c.contains(d[i]) && c.contains(d[i].neg()));
        let j = choose|j: int| 0 <= j < c.len() && c[j] == d[i];
        assert(c.contains(c[j].neg()));
    }
}

/// Every clause is a tautology.
pub open spec fn all_tautologies(m: Matrix) -> bool {
    forall|i: int| 0 <= i < m.len() ==> tautology(#[trigger] m[i])
}

/// Nothing is left of tautologies alone.
proof fn lemma_all_tautologies(m: Matrix, n: Matrix)
    requires
        normalized(m, n),
    ensures
        all_tautologies(m) == (n.len() == 0),
{
    if n.len() > 0 {
        assert(normal_of(m, n[0]));
        let i = choose|i: int| 0 <= i < m.len() && !tautology(#[trigger] m[i]) && same_lits(n[0], m[i]);
        assert(!tautology(m[i]));
    } else {
        assert forall|i: int| 0 <= i < m.len() implies tautology(#[trigger] m[i]) by {
            if !tautology(m[i]) {
                assert(normal_in(n, m[i]));
            }
        }
    }
}

/// Normalizes clauses for the matrix: sorts and deduplicates the literals
/// and drops tautologies.
fn normalize(clauses: &Vec<Vec<Lit>>) -> (result: Vec<Vec<Lit>>)
    ensures
        forall|b: Assignment| #[trigger] matrix_true(b, matrix_of(clauses@)) ==> matrix_true(b, matrix_of(result@)),
        normalized(matrix_of(clauses@), matrix_of(result@)),
{
    let ghost m = matrix_of(clauses@);
    let mut result: Vec<Vec<Lit>> = Vec::new();
    let mut k: usize = 0;
    while k < clauses.len()
        invariant
            k <= clauses@.len(),
            m == matrix_of(clauses@),
            forall|b: Assignment| #[trigger] matrix_true(b, m) ==> matrix_true(b, matrix_of(result@)),
            result@.len() <= k,
            forall|i: int| 0 <= i < k && !tautology(#[trigger] m[i]) ==> normal_in(matrix_of(result@), m[i]),
            forall|j: int| 0 <= j < result@.len() ==> sorted(#[trigger] matrix_of(result@)[j]) && normal_of(m, matrix_of(result@)[j]),
        decreases clauses.len() - k,
    {
        let lits = sort_dedup(&clauses[k]);
        proof {
            assert(m[k as int] == clauses@[k as int]@);
            lemma_same_tautology(lits@, m[k as int]);
        }
        if !has_opposites(&lits) {
            let ghost n = matrix_of(result@);
            let ghost d = lits@;
            result.push(lits);
            proof {
                assert(matrix_of(result@) =~= n.push(d));
                assert forall|b: Assignment| #[trigger] matrix_true(b, m) implies matrix_true(b, n.push(d)) by {
                    lemma_push_true(b, n, d);
                    assert(clause_true(b, m[k as int]));
                    lemma_subclause(b, m[k as int], d);
                }
                let all = n.push(d);
                assert(all[n.len() as int] == d);
                assert forall|i: int| 0 <= i < k + 1 && !tautology(#[trigger] m[i]) implies normal_in(all, m[i]) by {
                    if i < k {
                        assert(normal_in(n, m[i]));
                        let j = choose|j: int| 0 <= j < n.len() && sorted(#[trigger] n[j]) && same_lits(n[j], m[i]);
                        assert(all[j] == n[j]);
                    }
                }
                assert forall|j: int| 0 <= j < all.len() implies sorted(#[trigger] all[j]) && normal_of(m, all[j]) by {
                    if j < n.len() {
                        assert(all[j] == n[j]);
                    } else {
                        assert(!tautology(m[k as int]) && same_lits(d, m[k as int]));
                    }
                }
            }
        }
        k += 1;
    }
    result
}

impl State {
    /// Returns to the root, with all steps, in no case and under no
    /// assumption.
    fn reset(&mut self)
        requires
            old(self).wf(),
        ensures
            final(self).wf(),
            final(self).matrix() == old(self).matrix(),
            final(self).fresh_start(old(self)),
            final(self).root_pure_lits == old(self).root_pure_lits,
            final(self).kinds == old(self).kinds,
    {
        self.query_assumptions = Vec::new();
        self.backtrack_to(DecLvl::root());
        self.active = Vec::new();
        self.committed = Vec::new();
        self.fuel = SEARCH_STEPS;
    }

    /// The search is idle and under no assumption; handled regions and
    /// learnt clauses are as they were.
    pub(crate) open spec fn fresh_start(&self, before: &State) -> bool {
        &&& self.idle()
        &&& self.query_assumptions@.len() == 0
        &&& self.handled_cases == before.handled_cases
        &&& self.learnts == before.learnts
    }

    /// The universal variables are known as such.
    pub(crate) open spec fn knows_universals(&self, universals: Seq<Var>) -> bool {
        forall|i: int| 0 <= i < universals.len() ==> self.quantified(#[trigger] universals[i], QuantTy::Forall)
    }

    /// Takes over the variables of a core.
    fn declare(&mut self, core: &Core)
        requires
            old(self).wf(),
        ensures
            final(self).wf(),
            final(self).matrix() == old(self).matrix(),
            *final(self) == (State {
                kinds: final(self).kinds,
                universals: final(self).universals,
                existentials: final(self).existentials,
                vsids: final(self).vsids,
                pure_queue: final(self).pure_queue,
                pure_queued: final(self).pure_queued,
                ..*old(self)
            }),
            final(self).universals@ == core.universals@,
            final(self).existentials@ == core.existentials@,
            final(self).knows_universals(core.universals@),
    {
        let mut k: usize = 0;
        while k < core.universals.len()
            invariant
                k <= core.universals@.len(),
                self.wf(),
                *self == (State { kinds: self.kinds, ..*old(self) }),
                forall|i: int| 0 <= i < k ==> self.quantified(#[trigger] core.universals@[i], QuantTy::Forall),
            decreases core.universals.len() - k,
        {
            let ghost before = *self;
            self.kinds.insert(core.universals[k], QuantTy::Forall);
            assert forall|i: int| 0 <= i < k + 1 implies self.quantified(#[trigger] core.universals@[i], QuantTy::Forall) by {
                if i < k {
                    assert(before.quantified(core.universals@[i], QuantTy::Forall));
                }
            }
            k += 1;
        }
        self.universals = copy_vars(&core.universals);
        assert(self.knows_universals(core.universals@));
        let mut k: usize = 0;
        while k < core.existentials.len()
            invariant
                self.wf(),
                *self == (State {
                    kinds: self.kinds,
                    universals: self.universals,
                    vsids: self.vsids,
                    pure_queue: self.pure_queue,
                    pure_queued: self.pure_queued,
                    ..*old(self)
                }),
                self.universals@ == core.universals@,
                self.knows_universals(core.universals@),
            decreases core.existentials.len() - k,
        {
            let var = core.existentials[k];
            if !self.kinds.contains_key(var) {
                let ghost before = *self;
                self.kinds.insert(var, QuantTy::Exists);
                self.vsids.add(var);
                self.queue_pure_check(var);
                assert forall|i: int| 0 <= i < core.universals@.len() implies self.quantified(
                    #[trigger] core.universals@[i],
                    QuantTy::Forall,
                ) by {
                    assert(before.quantified(core.universals@[i], QuantTy::Forall));
                }
            }
            k += 1;
        }
        self.existentials = copy_vars(&core.existentials);
        assert forall|i: int| 0 <= i < core.universals@.len() implies self.quantified(#[trigger] core.universals@[i], QuantTy::Forall) by {}
    }

    /// Integrates clauses.
    fn integrate_all(&mut self, clauses: &Vec<Vec<Lit>>)
        requires
            old(self).wf(),
        ensures
            final(self).wf(),
            final(self).matrix() == old(self).matrix() + matrix_of(clauses@),
            final(self).same_frame(old(self)),
    {
        let ghost m = self.matrix();
        let ghost added = matrix_of(clauses@);
        let mut k: usize = 0;
        proof {
            assert(m + added.take(0) =~= m);
        }
        while k < clauses.len()
            invariant
                k <= clauses@.len(),
                self.wf(),
                added == matrix_of(clauses@),
                self.matrix() == m + added.take(k as int),
                self.same_frame(old(self)),
            decreases clauses.len() - k,
        {
            self.integrate_clause(&clauses[k]);
            assert(m + added.take(k as int + 1) =~= (m + added.take(k as int)).push(clauses@[k as int]@));
            k += 1;
        }
        assert(added.take(added.len() as int) =~= added);
    }

    /// Variables, assignments, cases and learnt clauses are as they were.
    pub(crate) open spec fn same_frame(&self, before: &State) -> bool {
        &&& self.trail == before.trail
        &&& self.active == before.active
        &&& self.committed == before.committed
        &&& self.query_assumptions == before.query_assumptions
        &&& self.handled_cases == before.handled_cases
        &&& self.learnts == before.learnts
        &&& self.universals == before.universals
        &&& self.existentials == before.existentials
        &&& self.kinds == before.kinds
        &&& self.fuel == before.fuel
    }

    /// Integrates new variables and clauses into the root-level state.
    /// Refuses, with the clauses as they were, when retained choices may
    /// not stand with the new clauses: a root-level pure literal that a new
    /// clause contains, unless the root functions entail the clause, and
    /// handled cases that a new clause breaks.
    pub(crate) fn extend(&mut self, core: &Core, clauses: &Vec<Vec<Lit>>) -> (extended: bool)
        requires
            old(self).wf(),
        ensures
            final(self).wf(),
            !extended ==> final(self).matrix() == old(self).matrix(),
            final(self).fresh_start(old(self)),
            extended ==> {
                &&& final(self).universals@ == core.universals@
                &&& final(self).existentials@ == core.existentials@
                &&& final(self).knows_universals(core.universals@)
                &&& exists|n: Matrix| #[trigger] normalized(matrix_of(clauses@), n) && final(self).matrix() == old(self).matrix() + n
            },
            all_tautologies(matrix_of(clauses@)) ==> extended,
            old(self).handled_cases@.len() == 0 && (forall|i: int| 0 <= i < clauses@.len() ==> !old(self).has_pure_choice((#[trigger] clauses@[i])@))
                ==> extended,
            !all_tautologies(matrix_of(clauses@)) && old(self).handled_cases@.len() > MAX_REVERIFIED_CASES ==> !extended,
            forall|b: Assignment| #[trigger]
                matrix_true(b, old(self).matrix()) && matrix_true(b, matrix_of(clauses@)) ==> matrix_true(b, final(self).matrix()),
    {
        self.reset();
        let processed = normalize(clauses);
        proof {
            lemma_all_tautologies(matrix_of(clauses@), matrix_of(processed@));
            let n = matrix_of(processed@);
            if forall|i: int| 0 <= i < clauses@.len() ==> !old(self).has_pure_choice((#[trigger] clauses@[i])@) {
                assert forall|j: int| 0 <= j < n.len() implies !self.has_pure_choice(#[trigger] n[j]) by {
                    let m = matrix_of(clauses@);
                    assert(normal_of(m, n[j]));
                    let i = choose|i: int| 0 <= i < m.len() && !tautology(#[trigger] m[i]) && same_lits(n[j], m[i]);
                    assert(m[i] == clauses@[i]@);
                    if self.has_pure_choice(n[j]) {
                        let q = choose|q: int| 0 <= q < n[j].len() && self.root_pure_lits@.contains(#[trigger] n[j][q]);
                        assert(n[j].contains(n[j][q]));
                        assert(m[i].contains(n[j][q]));
                        let r = choose|r: int| 0 <= r < m[i].len() && m[i][r] == n[j][q];
                        assert(old(self).root_pure_lits@.contains(clauses@[i]@[r]));
                    }
                }
                self.lemma_untouched(n, n.len() as int);
            }
        }
        if processed.len() > 0 && self.handled_cases.len() > MAX_REVERIFIED_CASES {
            return false;
        }
        if self.touches_pure_choice(&processed) {
            return false;
        }
        let ghost begun = *self;
        let mut region: usize = 0;
        while region < self.handled_cases.len() && processed.len() > 0
            invariant
                self.wf(),
                *self == begun,
                begun.fresh_start(old(self)),
                begun.matrix() == old(self).matrix(),
                processed@.len() > 0 ==> !all_tautologies(matrix_of(clauses@)),
                begun.handled_cases == old(self).handled_cases,
            decreases self.handled_cases.len() - region,
        {
            if !self.case_valid_for(region, &processed) {
                assert(*self == begun);
                assert(self.fresh_start(old(self)));
                return false;
            }
            region += 1;
        }
        self.declare(core);
        self.integrate_all(&processed);
        proof {
            let added = matrix_of(processed@);
            let m = old(self).matrix();
            assert forall|i: int| 0 <= i < core.universals@.len() implies self.quantified(#[trigger] core.universals@[i], QuantTy::Forall) by {}
            assert forall|b: Assignment| #[trigger] matrix_true(b, m) && matrix_true(b, matrix_of(clauses@)) implies matrix_true(
                b,
                self.matrix(),
            ) by {
                assert(matrix_true(b, added));
                let all = m + added;
                assert forall|i: int| 0 <= i < all.len() implies clause_true(b, #[trigger] all[i]) by {
                    if i < m.len() {
                        assert(all[i] == m[i]);
                    } else {
                        assert(all[i] == added[i - m.len()]);
                    }
                }
            }
        }
        true
    }

    proof fn lemma_untouched(&self, m: Matrix, count: int)
        requires
            count <= m.len(),
            forall|j: int| 0 <= j < m.len() ==> !self.has_pure_choice(#[trigger] m[j]),
        ensures
            self.touching(m, count).len() == 0,
        decreases count,
    {
        if count > 0 {
            self.lemma_untouched(m, count - 1);
        }
    }

    /// Whether a clause contains a root-level pure literal and is not
    /// entailed by the root functions.
    fn touches_pure_choice(&self, clauses: &Vec<Vec<Lit>>) -> (touches: bool)
        requires
            self.wf(),
        ensures
            self.touching(matrix_of(clauses@), clauses@.len() as int).len() == 0 ==> !touches,
            exists|functions: Seq<(Lit, Function)>| #[trigger]
                self.is_snapshot(functions) && self.breaks_choice(
                    functions,
                    self.touching(matrix_of(clauses@), clauses@.len() as int),
                    touches,
                ),
    {
        let pure = LitSet::from_lits(&self.root_pure_lits);
        let ghost m = matrix_of(clauses@);
        let mut touching: Vec<Vec<Lit>> = Vec::new();
        let mut k: usize = 0;
        assert(matrix_of(touching@) =~= self.touching(m, 0));
        while k < clauses.len()
            invariant
                k <= clauses@.len(),
                m == matrix_of(clauses@),
                forall|l: Lit| #[trigger] pure@.contains(l) <==> self.root_pure_lits@.contains(l),
                matrix_of(touching@) == self.touching(m, k as int),
            decreases clauses.len() - k,
        {
            let mut found = false;
            let mut j: usize = 0;
            while j < clauses[k].len()
                invariant
                    k < clauses@.len(),
                    j <= clauses@[k as int]@.len(),
                    forall|l: Lit| #[trigger] pure@.contains(l) <==> self.root_pure_lits@.contains(l),
                    found == exists|i: int| 0 <= i < j && self.root_pure_lits@.contains(#[trigger] clauses@[k as int]@[i]),
                decreases clauses[k as int]@.len() - j,
            {
                if pure.contains(clauses[k][j]) {
                    found = true;
                    assert(self.root_pure_lits@.contains(clauses@[k as int]@[j as int]));
                }
                j += 1;
            }
            assert(m[k as int] == clauses@[k as int]@);
            assert(found == self.has_pure_choice(m[k as int]));
            if found {
                let ghost before = matrix_of(touching@);
                touching.push(copy_lits(&clauses[k]));
                assert(matrix_of(touching@) =~= before.push(m[k as int]));
            }
            k += 1;
        }
        let functions = self.snapshot_functions();
        let none: Vec<Lit> = Vec::new();
        let touches = touching.len() > 0 && self.region_counterexample(&functions, &none, self.handled_cases.len(), &touching);
        proof {
            assert(self.is_snapshot(functions@));
            assert(none@ =~= Seq::<Lit>::empty());
            assert forall|a: Assignment| !touches && #[trigger] self.reaches(
                a,
                functions@,
                Seq::empty(),
                self.handled_cases@.len() as int,
            ) implies matrix_true(a, matrix_of(touching@)) by {
                assert(follows_functions(a, functions@));
            }
        }
        touches
    }

    /// The search is at the root with all its steps, and in no case.
    pub(crate) open spec fn idle(&self) -> bool {
        &&& self.trail.starts().len() == 0
        &&& self.active@.len() == 0
        &&& self.committed@.len() == 0
        &&& self.fuel == SEARCH_STEPS
    }

    /// The clause contains a root-level pure literal.
    pub(crate) open spec fn has_pure_choice(&self, c: Seq<Lit>) -> bool {
        exists|i: int| 0 <= i < c.len() && self.root_pure_lits@.contains(#[trigger] c[i])
    }

    /// The first clauses that contain a root-level pure literal.
    pub(crate) open spec fn touching(&self, m: Matrix, count: int) -> Matrix
        decreases count,
    {
        if count <= 0 {
            Seq::empty()
        } else if self.has_pure_choice(m[count - 1]) {
            self.touching(m, count - 1).push(m[count - 1])
        } else {
            self.touching(m, count - 1)
        }
    }

    /// The functions of the assigned existential variables in trail order.
    pub(crate) open spec fn is_snapshot(&self, functions: Seq<(Lit, Function)>) -> bool {
        &&& Seq::new(functions.len(), |i: int| functions[i].0) == self.existential_trail(self.trail.lits().len() as int)
        &&& forall|i: int| 0 <= i < functions.len() ==> self.has_function((#[trigger] functions[i]).0, functions[i].1)
    }

    /// The functions leave one of the clauses false outside the handled
    /// regions, or this cannot be told; or they entail all of them.
    pub(crate) open spec fn breaks_choice(&self, functions: Seq<(Lit, Function)>, m: Matrix, touches: bool) -> bool {
        let none = Seq::<Lit>::empty();
        let n = self.handled_cases@.len() as int;
        if touches {
            !self.region_numbered(functions, none, n, m) || exists|a: Assignment| #[trigger]
                self.reaches(a, functions, none, n) && !matrix_true(a, m)
        } else {
            forall|a: Assignment| #[trigger] self.reaches(a, functions, none, n) ==> matrix_true(a, m)
        }
    }

    /// The assumption is on an existential variable, and its opposite is no
    /// choice made at the root.
    pub(crate) open spec fn assumable(&self, lit: Lit) -> bool {
        &&& self.quantified(lit.v(), QuantTy::Exists)
        &&& !(constant_of(self.assignment@, lit) == Some(false) && self.root_pure_lits@.contains(lit))
    }

    /// Starts a query under constant assumptions; whether the search can
    /// run it. An assumption must be on a known existential variable, and
    /// the opposite of it must not be a choice made at the root.
    pub(crate) fn start_query(&mut self, assumptions: &Vec<Lit>) -> (started: bool)
        requires
            old(self).wf(),
        ensures
            final(self).wf(),
            final(self).matrix() == old(self).matrix(),
            final(self).idle(),
            final(self).handled_cases == old(self).handled_cases,
            final(self).learnts == old(self).learnts,
            final(self).root_pure_lits == old(self).root_pure_lits,
            final(self).kinds == old(self).kinds,
            started <==> forall|i: int| 0 <= i < assumptions@.len() ==> final(self).assumable(#[trigger] assumptions@[i]),
            started ==> same_lits(final(self).query_assumptions@, assumptions@),
            !started ==> final(self).query_assumptions@.len() == 0,
    {
        self.reset();
        let ghost rooted = *self;
        let mut to_assume: Vec<Lit> = Vec::new();
        let mut k: usize = 0;
        assert(assumptions@.take(0) =~= Seq::<Lit>::empty());
        while k < assumptions.len()
            invariant
                k <= assumptions@.len(),
                self.wf(),
                *self == rooted,
                self.matrix() == old(self).matrix(),
                self.fresh_start(old(self)),
                same_lits(to_assume@, assumptions@.take(k as int)),
                self.root_pure_lits == old(self).root_pure_lits,
                self.kinds == old(self).kinds,
                forall|i: int| 0 <= i < k ==> self.assumable(#[trigger] assumptions@[i]),
            decreases assumptions.len() - k,
        {
            let lit = assumptions[k];
            if !self.is_existential(lit.var()) {
                assert(!self.assumable(assumptions@[k as int]));
                return false;
            }
            match self.assignment.constant_value(lit) {
                Some(false) => {
                    if contains(&self.root_pure_lits, lit) {
                        assert(!self.assumable(assumptions@[k as int]));
                        return false;
                    }
                },
                _ => {},
            }
            let ghost before = to_assume@;
            if !contains(&to_assume, lit) {
                to_assume.push(lit);
            }
            proof {
                let some = assumptions@.take(k as int);
                let more = assumptions@.take(k as int + 1);
                assert(more =~= some.push(lit));
                assert forall|l: Lit| #[trigger] to_assume@.contains(l) <==> more.contains(l) by {
                    crate::datastructure::lemma_push_contains(some, lit, l);
                    crate::datastructure::lemma_push_contains(before, lit, l);
                    assert(before.contains(l) <==> some.contains(l));
                }
            }
            k += 1;
        }
        assert(assumptions@.take(assumptions@.len() as int) =~= assumptions@);
        self.query_assumptions = to_assume;
        assert forall|i: int| 0 <= i < assumptions@.len() implies self.assumable(#[trigger] assumptions@[i]) by {
            assert(rooted.assumable(assumptions@[i]));
        }
        true
    }

    /// Retracts a query. A satisfiable one is left in the assumed state
    /// until the next solve.
    pub(crate) fn end_query(&mut self, satisfiable: bool)
        requires
            old(self).wf(),
        ensures
            final(self).wf(),
            final(self).matrix() == old(self).matrix(),
            if satisfiable {
                *final(self) == *old(self)
            } else {
                &&& final(self).query_assumptions@.len() == 0
                &&& final(self).undone(&(State { query_assumptions: final(self).query_assumptions, ..*old(self) }), DecLvl(0))
            },
    {
        if !satisfiable {
            self.query_assumptions = Vec::new();
            self.backtrack_to(DecLvl::root());
        }
    }
}

} // verus!
