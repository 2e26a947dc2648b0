//! Clause storage and unit assignments of a search over the prefix.
use crate::clause::allocator::Allocator;
use crate::clause::binary::BinaryClauses;
use crate::clause::db::ClauseDatabase;
use crate::incdet::propagation::assignment::{Assignment, Value};
use crate::incdet::propagation::trail::Trail;
use crate::literal::db::{index_range, VariableData, VariableDatabase};
use crate::literal::{Lit, Var};
use crate::quantifier::{kind_of, QuantTy, ScopeDatabase, ScopeId, ScopeTy};
use crate::reduction::{bound_only_by, lemma_universal_reduction};
use crate::sat::consistent;
use crate::semantics::{bound, clause_mentions, lemma_mono, lit_true, matrix_true, qbf, reach, Matrix, Prefix};
use crate::simplify::lemma_push_true;
use vstd::prelude::*;

verus! {

broadcast use crate::literal::group_literal;

/// A quantified formula under construction: its variables, scopes and
/// clauses, and the literals that unit clauses assign.
#[derive(Debug)]
pub struct Context {
    vars: VariableDatabase,
    quants: ScopeDatabase,
    units: Vec<Lit>,
    binary: BinaryClauses,
    long: ClauseDatabase,
    alloc: Allocator,
    assignment: Assignment,
    trail: Trail,
}

/// What is known of the variable of a literal.
pub open spec fn data_of(vars: Seq<VariableData>, lit: Lit) -> VariableData {
    vars[lit.v().dimacs() - 1]
}

/// The place of a literal's scope in the prefix.
pub open spec fn scope_of(vars: Seq<VariableData>, lit: Lit) -> int {
    match data_of(vars, lit).scope {
        Some(scope) => scope.0 as int,
        None => 0,
    }
}

/// Some literal that is not universal is bound in a scope after the one of
/// the literal.
pub open spec fn blocked(vars: Seq<VariableData>, lits: Seq<Lit>, lit: Lit) -> bool {
    exists|i: int| 0 <= i < lits.len() && data_of(vars, #[trigger] lits[i]).ty != ScopeTy::Universal && scope_of(vars, lits[i]) > scope_of(vars, lit)
}

/// Universal reduction keeps the literal.
pub open spec fn kept(vars: Seq<VariableData>, lits: Seq<Lit>, lit: Lit) -> bool {
    data_of(vars, lit).ty != ScopeTy::Universal || blocked(vars, lits, lit)
}

/// The literals of a clause after universal reduction, up to a position.
pub open spec fn reduced(vars: Seq<VariableData>, lits: Seq<Lit>, count: int) -> Seq<Lit>
    decreases count,
{
    if count <= 0 {
        Seq::empty()
    } else {
        let before = reduced(vars, lits, count - 1);
        if kept(vars, lits, lits[count - 1]) {
            before.push(lits[count - 1])
        } else {
            before
        }
    }
}

/// The function that a unit clause assigns.
pub open spec fn function_value(lit: Lit) -> Value {
    if lit.pos() {
        Value::PositiveImplications
    } else {
        Value::NegativeImplications
    }
}

/// The literals are on known variables.
pub open spec fn known(vars: Seq<VariableData>, lits: Seq<Lit>) -> bool {
    forall|i: int| 0 <= i < lits.len() ==> (#[trigger] lits[i]).v().dimacs() <= vars.len()
}

/// The variables after those of a clause that no scope binds have been
/// bound in the outermost scope.
pub open spec fn with_bound(vars: Seq<VariableData>, lits: Seq<Lit>, count: int) -> Seq<VariableData>
    decreases count,
{
    if count <= 0 {
        vars
    } else {
        let before = with_bound(vars, lits, count - 1);
        let place = lits[count - 1].v().dimacs() - 1;
        if before[place].scope is None {
            before.update(place, (VariableData { scope: Some(ScopeId(0)), ty: ScopeTy::Unbound }))
        } else {
            before
        }
    }
}

/// The scopes after the variables of a clause that no scope binds have
/// been added to the outermost one, in the order of the clause.
pub open spec fn with_free(scopes: Seq<(ScopeTy, Seq<Var>)>, vars: Seq<VariableData>, lits: Seq<Lit>, count: int) -> Seq<(ScopeTy, Seq<Var>)>
    decreases count,
{
    if count <= 0 {
        scopes
    } else {
        let before = with_free(scopes, vars, lits, count - 1);
        let x = lits[count - 1].v();
        if with_bound(vars, lits, count - 1)[x.dimacs() - 1].scope is None {
            before.update(0, (before[0].0, before[0].1.push(x)))
        } else {
            before
        }
    }
}

proof fn lemma_with_bound(vars: Seq<VariableData>, lits: Seq<Lit>, count: int)
    requires
        known(vars, lits),
        count <= lits.len(),
    ensures
        with_bound(vars, lits, count).len() == vars.len(),
    decreases count,
{
    if count > 0 {
        lemma_with_bound(vars, lits, count - 1);
        assert(lits[count - 1].v().dimacs() <= vars.len());
        crate::literal::lemma_var_of(lits[count - 1].v());
    }
}

impl Context {
    /// What is known of the variables.
    pub closed spec fn variables(&self) -> Seq<VariableData> {
        self.vars@
    }

    /// The scopes and the variables they bind.
    pub closed spec fn scopes(&self) -> Seq<(ScopeTy, Seq<Var>)> {
        self.quants.scopes()
    }

    /// The clauses of one literal.
    pub closed spec fn unit_clauses(&self) -> Seq<Lit> {
        self.units@
    }

    /// The clauses of two literals.
    pub closed spec fn binary_clauses(&self) -> Seq<(Lit, Lit)> {
        self.binary.clauses()
    }

    /// The clauses of more literals.
    pub closed spec fn long_clauses(&self) -> Seq<Option<Seq<Lit>>> {
        self.alloc.clauses()
    }

    /// The literals assigned by unit clauses, in order.
    pub closed spec fn assigned(&self) -> Seq<Lit> {
        self.trail.lits()
    }

    /// What the variables are assigned.
    pub closed spec fn values(&self) -> Map<Var, Value> {
        self.assignment@
    }

    /// The parts are well-formed.
    pub closed spec fn wf(&self) -> bool {
        &&& self.quants.wf()
        &&& self.binary.wf()
        &&& self.alloc.wf()
        &&& self.trail.wf()
        &&& self.long@.len() == self.alloc.clauses().len()
    }

    /// Nothing is declared.
    pub fn new() -> (context: Context)
        ensures
            context.wf(),
            context.variables().len() == 0,
            context.scopes() == seq![(ScopeTy::Unbound, Seq::<Var>::empty())],
            context.unit_clauses().len() == 0,
            context.binary_clauses().len() == 0,
            context.long_clauses().len() == 0,
            context.assigned().len() == 0,
            context.values() == Map::<Var, Value>::empty(),
    {
        Context {
            vars: VariableDatabase::new(),
            quants: ScopeDatabase::new(),
            units: Vec::new(),
            binary: BinaryClauses::new(),
            long: ClauseDatabase::new(),
            alloc: Allocator::new(),
            assignment: Assignment::new(),
            trail: Trail::new(),
        }
    }

    /// Adds variables that no scope binds, and returns them.
    pub fn new_variables(&mut self, num_variables: u32) -> (vars: Vec<Var>)
        requires
            old(self).wf(),
            old(self).variables().len() + num_variables < 2_147_483_647,
        ensures
            final(self).wf(),
            vars@ == index_range(old(self).variables().len() as int, num_variables as nat),
            final(self).variables() == old(self).variables() + Seq::new(
                num_variables as nat,
                |i: int| VariableData { scope: None, ty: ScopeTy::Unbound },
            ),
            final(self).scopes() == old(self).scopes(),
            final(self).unit_clauses() == old(self).unit_clauses(),
            final(self).binary_clauses() == old(self).binary_clauses(),
            final(self).long_clauses() == old(self).long_clauses(),
            final(self).assigned() == old(self).assigned(),
            final(self).values() == old(self).values(),
    {
        self.vars.new_variables(num_variables)
    }

    /// Makes room for a number of clauses.
    pub fn set_num_clauses(&mut self, num_clauses: u32)
        requires
            old(self).wf(),
        ensures
            final(self).wf(),
            final(self).variables() == old(self).variables(),
            final(self).scopes() == old(self).scopes(),
            final(self).unit_clauses() == old(self).unit_clauses(),
            final(self).binary_clauses() == old(self).binary_clauses(),
            final(self).long_clauses() == old(self).long_clauses(),
            final(self).assigned() == old(self).assigned(),
            final(self).values() == old(self).values(),
    {
        self.long.set_num_clauses(num_clauses);
    }

    /// The number of clauses.
    pub fn num_clauses(&self) -> (count: u32)
        requires
            self.wf(),
            self.unit_clauses().len() + self.binary_clauses().len() + self.long_clauses().len() <= u32::MAX,
        ensures
            count == self.unit_clauses().len() + self.binary_clauses().len() + self.long_clauses().len(),
    {
        self.units.len() as u32 + self.binary.count() as u32 + self.long.num_clauses() as u32
    }

    /// Opens a new innermost scope.
    pub fn new_quantified_scope(&mut self, quant: QuantTy) -> (scope: ScopeId)
        requires
            old(self).wf(),
            old(self).scopes().len() < u32::MAX,
        ensures
            final(self).wf(),
            scope.0 == old(self).scopes().len(),
            final(self).scopes() == old(self).scopes().push((kind_of(quant), Seq::<Var>::empty())),
            final(self).variables() == old(self).variables(),
            final(self).unit_clauses() == old(self).unit_clauses(),
            final(self).binary_clauses() == old(self).binary_clauses(),
            final(self).long_clauses() == old(self).long_clauses(),
            final(self).assigned() == old(self).assigned(),
            final(self).values() == old(self).values(),
    {
        self.quants.new_quantifier(quant)
    }

    /// Binds a variable in a scope.
    pub fn bind_variable(&mut self, scope: ScopeId, variable: Var)
        requires
            old(self).wf(),
            scope.0 < old(self).scopes().len(),
            variable.dimacs() <= old(self).variables().len(),
        ensures
            final(self).wf(),
            final(self).scopes() == old(self).scopes().update(
                scope.0 as int,
                (old(self).scopes()[scope.0 as int].0, old(self).scopes()[scope.0 as int].1.push(variable)),
            ),
            final(self).variables() == old(self).variables().update(
                variable.dimacs() - 1,
                (VariableData { scope: Some(scope), ty: old(self).scopes()[scope.0 as int].0 }),
            ),
            final(self).unit_clauses() == old(self).unit_clauses(),
            final(self).binary_clauses() == old(self).binary_clauses(),
            final(self).long_clauses() == old(self).long_clauses(),
            final(self).assigned() == old(self).assigned(),
            final(self).values() == old(self).values(),
    {
        self.quants.bind_variable(&mut self.vars, scope, variable);
    }

    /// Binds the variables of a clause that no scope binds.
    fn bind_free(&mut self, lits: &[Lit])
        requires
            old(self).wf(),
            known(old(self).variables(), lits@),
        ensures
            final(self).wf(),
            final(self).variables() == with_bound(old(self).variables(), lits@, lits@.len() as int),
            final(self).scopes() == with_free(old(self).scopes(), old(self).variables(), lits@, lits@.len() as int),
            final(self).unit_clauses() == old(self).unit_clauses(),
            final(self).binary_clauses() == old(self).binary_clauses(),
            final(self).long_clauses() == old(self).long_clauses(),
            final(self).assigned() == old(self).assigned(),
            final(self).values() == old(self).values(),
    {
        let ghost start = *self;
        let mut k: usize = 0;
        while k < lits.len()
            invariant
                k <= lits@.len(),
                start == *old(self),
                known(start.variables(), lits@),
                self.wf(),
                self.variables() == with_bound(start.variables(), lits@, k as int),
                self.scopes().len() == start.scopes().len(),
                self.scopes() == with_free(start.scopes(), start.variables(), lits@, k as int),
                self.unit_clauses() == start.unit_clauses(),
                self.binary_clauses() == start.binary_clauses(),
                self.long_clauses() == start.long_clauses(),
                self.assigned() == start.assigned(),
                self.values() == start.values(),
            decreases lits.len() - k,
        {
            let var = lits[k].var();
            proof {
                lemma_with_bound(start.variables(), lits@, k as int);
                assert(lits@[k as int].v().dimacs() <= start.variables().len());
                crate::literal::lemma_var_of(var);
            }
            if self.vars.get(var).scope.is_none() {
                self.quants.bind_variable(&mut self.vars, ScopeId(0), var);
            }
            k += 1;
        }
    }

    /// The literals that universal reduction keeps.
    fn reduce(&self, lits: &[Lit]) -> (result: Vec<Lit>)
        requires
            self.wf(),
            known(self.variables(), lits@),
        ensures
            result@ == reduced(self.variables(), lits@, lits@.len() as int),
    {
        let ghost vars = self.variables();
        let mut innermost: u32 = 0;
        let mut k: usize = 0;
        while k < lits.len()
            invariant
                k <= lits@.len(),
                known(vars, lits@),
                vars == self.vars@,
                forall|i: int| 0 <= i < k && data_of(vars, #[trigger] lits@[i]).ty != ScopeTy::Universal ==> scope_of(vars, lits@[i]) <= innermost,
                innermost == 0 || exists|i: int|
                    0 <= i < k && data_of(vars, #[trigger] lits@[i]).ty != ScopeTy::Universal && scope_of(vars, lits@[i]) == innermost,
            decreases lits.len() - k,
        {
            assert(lits@[k as int].v().dimacs() <= vars.len());
            let data = self.vars.get(lits[k].var());
            if !data.universal() {
                let place = match data.scope {
                    Some(scope) => scope.0,
                    None => 0,
                };
                if place > innermost {
                    innermost = place;
                    assert(scope_of(vars, lits@[k as int]) == innermost);
                }
            }
            k += 1;
        }
        let mut result: Vec<Lit> = Vec::new();
        let mut k: usize = 0;
        while k < lits.len()
            invariant
                k <= lits@.len(),
                known(vars, lits@),
                vars == self.vars@,
                forall|i: int|
                    0 <= i < lits@.len() && data_of(vars, #[trigger] lits@[i]).ty != ScopeTy::Universal ==> scope_of(vars, lits@[i]) <= innermost,
                innermost == 0 || exists|i: int|
                    0 <= i < lits@.len() && data_of(vars, #[trigger] lits@[i]).ty != ScopeTy::Universal && scope_of(vars, lits@[i]) == innermost,
                result@ == reduced(vars, lits@, k as int),
            decreases lits.len() - k,
        {
            assert(lits@[k as int].v().dimacs() <= vars.len());
            let data = self.vars.get(lits[k].var());
            let place = match data.scope {
                Some(scope) => scope.0,
                None => 0,
            };
            if !data.universal() || place < innermost {
                proof {
                    if data.ty == ScopeTy::Universal {
                        let i = choose|i: int|
                            0 <= i < lits@.len() && data_of(vars, #[trigger] lits@[i]).ty != ScopeTy::Universal && scope_of(vars, lits@[i]) == innermost;
                        assert(scope_of(vars, lits@[i]) > scope_of(vars, lits@[k as int]));
                    }
                    assert(kept(vars, lits@, lits@[k as int]));
                }
                result.push(lits[k]);
            } else {
                assert(!kept(vars, lits@, lits@[k as int]));
            }
            k += 1;
        }
        result
    }

    /// Adds a clause consisting of the provided literals: its free
    /// variables are bound outermost, universal literals that no later
    /// literal blocks are dropped, and a unit clause assigns its literal.
    pub fn add_clause(&mut self, lits: &[Lit])
        requires
            old(self).wf(),
            known(old(self).variables(), lits@),
            reduced(
                with_bound(old(self).variables(), lits@, lits@.len() as int),
                lits@,
                lits@.len() as int,
            ).len() > 0,
        ensures
            final(self).wf(),
            final(self).variables() == with_bound(old(self).variables(), lits@, lits@.len() as int),
            final(self).scopes() == with_free(old(self).scopes(), old(self).variables(), lits@, lits@.len() as int),
            ({
                let clause = reduced(final(self).variables(), lits@, lits@.len() as int);
                &&& final(self).unit_clauses() == (if clause.len() == 1 {
                    old(self).unit_clauses().push(clause[0])
                } else {
                    old(self).unit_clauses()
                })
                &&& final(self).assigned() == (if clause.len() == 1 { old(self).assigned().push(clause[0]) } else { old(self).assigned() })
                &&& final(self).values() == (if clause.len() == 1 {
                    old(self).values().insert(clause[0].v(), function_value(clause[0]))
                } else {
                    old(self).values()
                })
                &&& final(self).binary_clauses() == (if clause.len() == 2 {
                    old(self).binary_clauses().push((clause[0], clause[1]))
                } else {
                    old(self).binary_clauses()
                })
                &&& final(self).long_clauses() == (if clause.len() > 2 {
                    old(self).long_clauses().push(Some(clause))
                } else {
                    old(self).long_clauses()
                })
            }),
    {
        proof {
            lemma_with_bound(self.variables(), lits@, lits@.len() as int);
        }
        self.bind_free(lits);
        let clause = self.reduce(lits);
        if clause.len() == 1 {
            self.enqueue_assignment(clause[0]);
            self.units.push(clause[0]);
        } else if clause.len() == 2 {
            self.binary.insert(clause[0], clause[1]);
        } else {
            let id = self.alloc.insert(clause.as_slice());
            self.long.insert(id);
        }
    }

    fn enqueue_assignment(&mut self, assignment: Lit)
        requires
            old(self).wf(),
        ensures
            final(self).wf(),
            final(self).assigned() == old(self).assigned().push(assignment),
            final(self).values() == old(self).values().insert(assignment.v(), function_value(assignment)),
            final(self).variables() == old(self).variables(),
            final(self).scopes() == old(self).scopes(),
            final(self).unit_clauses() == old(self).unit_clauses(),
            final(self).binary_clauses() == old(self).binary_clauses(),
            final(self).long_clauses() == old(self).long_clauses(),
    {
        self.assignment.assign_function(assignment);
        self.trail.push(assignment);
    }

    /// What a variable is assigned.
    pub fn value(&self, var: Var) -> (value: Option<Value>)
        ensures
            value == (if self.values().contains_key(var) { Some(self.values()[var]) } else { None }),
    {
        self.assignment.get(var)
    }
}

/// The scopes of the variables are the blocks of the prefix: every literal
/// is bound in the block of its scope and in no other, and that block is
/// universal exactly if its variable is.
pub open spec fn placed(vars: Seq<VariableData>, p: Prefix, lits: Seq<Lit>) -> bool {
    forall|i: int, k: int|
        0 <= i < lits.len() && 0 <= k < p.len() ==> (#[trigger] p[k].1.contains((#[trigger] lits[i]).v()) <==> k == scope_of(vars, lits[i])) && (
        k == scope_of(vars, lits[i]) ==> (p[k].0 == QuantTy::Forall <==> data_of(vars, lits[i]).ty == ScopeTy::Universal))
}

/// Universal reduction keeps what a clause says: with the reduced clause in
/// its place, the formula has the same truth.
#[verifier::rlimit(40)]
pub proof fn law_reduction_keeps_the_truth(
    vars: Seq<VariableData>,
    p: Prefix,
    m: Matrix,
    lits: Seq<Lit>,
    a: crate::semantics::Assignment,
)
    requires
        placed(vars, p, lits),
        consistent(lits),
        forall|i: int| 0 <= i < lits.len() ==> 0 <= scope_of(vars, #[trigger] lits[i]) < p.len(),
    ensures
        qbf(p, m.push(lits), a) == qbf(p, m.push(reduced(vars, lits, lits.len() as int)), a),
{
    let d = reduced(vars, lits, lits.len() as int);
    let n = m.push(lits);
    law_reduction_shrinks(vars, lits, lits.len() as int);
    assert forall|i: int| 0 <= i < lits.len() && kept(vars, lits, lits[i]) implies d.contains(#[trigger] lits[i]) by {
        lemma_kept(vars, lits, lits.len() as int, i);
    }
    if qbf(p, n, a) {
        let split = innermost(vars, lits, lits.len() as int) + 1;
        lemma_innermost(vars, lits, lits.len() as int);
        if exists|i: int| 0 <= i < lits.len() && data_of(vars, #[trigger] lits[i]).ty != ScopeTy::Universal {
            let i = choose|i: int| 0 <= i < lits.len() && data_of(vars, #[trigger] lits[i]).ty != ScopeTy::Universal;
            assert(scope_of(vars, lits[i]) < p.len());
        }
        let tail = p.skip(split);
        assert(n[m.len() as int] == lits);
        assert forall|i: int, k: int| 0 <= i < lits.len() && 0 <= k < tail.len() implies (#[trigger] tail[k].1.contains(
            (#[trigger] lits[i]).v(),
        ) <==> k + split == scope_of(vars, lits[i])) by {
            assert(tail[k] == p[k + split]);
            assert(p[k + split].1.contains(lits[i].v()) <==> k + split == scope_of(vars, lits[i]));
        }
        assert forall|i: int| 0 <= i < lits.len() implies d.contains(#[trigger] lits[i]) || bound(tail, lits[i].v()) && bound_only_by(
            tail,
            QuantTy::Forall,
            lits[i].v(),
        ) by {
            if !kept(vars, lits, lits[i]) {
                let s = scope_of(vars, lits[i]);
                assert(p[s].1.contains(lits[i].v()));
                lemma_dropped_behind(vars, p, lits, i);
                assert(tail[s - split] == p[s]);
                assert(tail[s - split].1.contains(lits[i].v()));
                assert forall|k: int| 0 <= k < tail.len() && (#[trigger] tail[k]).1.contains(lits[i].v()) implies tail[k].0 == QuantTy::Forall by {
                    assert(k + split == s);
                }
            }
        }
        assert forall|x: Var| #[trigger] clause_mentions(d, x) implies !bound(tail, x) by {
            let j = choose|j: int| 0 <= j < d.len() && (#[trigger] d[j]).v() == x;
            assert(d.contains(d[j]));
            let i = choose|i: int| 0 <= i < lits.len() && lits[i] == d[j];
            assert(kept(vars, lits, lits[i]));
            assert(scope_of(vars, lits[i]) < split);
            if bound(tail, x) {
                let k = choose|k: int| 0 <= k < tail.len() && (#[trigger] tail[k]).1.contains(x);
                assert(tail[k].1.contains(lits[i].v()));
            }
        }
        lemma_universal_reduction(p, split, n, lits, d, a);
        let more = n.push(d);
        assert forall|b: crate::semantics::Assignment| #[trigger] reach(p, a, b) && matrix_true(b, more) implies matrix_true(b, m.push(d)) by {
            lemma_push_true(b, n, d);
            lemma_push_true(b, m, lits);
            lemma_push_true(b, m, d);
        }
        lemma_mono(p, more, m.push(d), a);
    }
    if qbf(p, m.push(d), a) {
        assert forall|b: crate::semantics::Assignment| #[trigger] reach(p, a, b) && matrix_true(b, m.push(d)) implies matrix_true(b, n) by {
            lemma_push_true(b, m, lits);
            lemma_push_true(b, m, d);
            let j = choose|j: int| 0 <= j < d.len() && lit_true(b, #[trigger] d[j]);
            assert(d.contains(d[j]));
            let i = choose|i: int| 0 <= i < lits.len() && lits[i] == d[j];
            assert(lit_true(b, lits[i]));
        }
        lemma_mono(p, m.push(d), n, a);
    }
}

/// The last scope of a literal among the first that is not universal, or
/// -1.
spec fn innermost(vars: Seq<VariableData>, lits: Seq<Lit>, count: int) -> int
    decreases count,
{
    if count <= 0 {
        -1
    } else {
        let before = innermost(vars, lits, count - 1);
        let l = lits[count - 1];
        if data_of(vars, l).ty != ScopeTy::Universal && scope_of(vars, l) > before {
            scope_of(vars, l)
        } else {
            before
        }
    }
}

proof fn lemma_innermost(vars: Seq<VariableData>, lits: Seq<Lit>, count: int)
    requires
        0 <= count <= lits.len(),
    ensures
        innermost(vars, lits, count) >= -1,
        forall|i: int| 0 <= i < count && data_of(vars, #[trigger] lits[i]).ty != ScopeTy::Universal ==> scope_of(vars, lits[i]) <= innermost(
            vars,
            lits,
            count,
        ),
        innermost(vars, lits, count) >= 0 ==> exists|i: int|
            0 <= i < count && data_of(vars, #[trigger] lits[i]).ty != ScopeTy::Universal && scope_of(vars, lits[i]) == innermost(vars, lits, count),
    decreases count,
{
    if count > 0 {
        lemma_innermost(vars, lits, count - 1);
        let l = lits[count - 1];
        if innermost(vars, lits, count) != innermost(vars, lits, count - 1) {
            assert(data_of(vars, lits[count - 1]).ty != ScopeTy::Universal);
        }
    }
}

proof fn lemma_kept(vars: Seq<VariableData>, lits: Seq<Lit>, count: int, i: int)
    requires
        0 <= i < count <= lits.len(),
        kept(vars, lits, lits[i]),
    ensures
        reduced(vars, lits, count).contains(lits[i]),
    decreases count,
{
    let before = reduced(vars, lits, count - 1);
    crate::datastructure::lemma_push_contains(before, lits[count - 1], lits[i]);
    if i < count - 1 {
        lemma_kept(vars, lits, count - 1, i);
    }
}

/// A literal that is dropped is bound behind all that are kept.
proof fn lemma_dropped_behind(vars: Seq<VariableData>, p: Prefix, lits: Seq<Lit>, i: int)
    requires
        placed(vars, p, lits),
        forall|j: int| 0 <= j < lits.len() ==> 0 <= scope_of(vars, #[trigger] lits[j]) < p.len(),
        0 <= i < lits.len(),
        !kept(vars, lits, lits[i]),
    ensures
        scope_of(vars, lits[i]) > innermost(vars, lits, lits.len() as int),
{
    lemma_innermost(vars, lits, lits.len() as int);
    let top = innermost(vars, lits, lits.len() as int);
    let s = scope_of(vars, lits[i]);
    assert(p[s].1.contains(lits[i].v()));
    if top >= 0 {
        let j = choose|j: int|
            0 <= j < lits.len() && data_of(vars, #[trigger] lits[j]).ty != ScopeTy::Universal && scope_of(vars, lits[j]) == top;
        assert(!blocked(vars, lits, lits[i]));
        assert(s >= top);
        if s == top {
            assert(p[s].1.contains(lits[j].v()));
        }
    }
}

/// Universal reduction keeps only literals of the clause.
pub proof fn law_reduction_shrinks(vars: Seq<VariableData>, lits: Seq<Lit>, count: int)
    requires
        0 <= count <= lits.len(),
    ensures
        reduced(vars, lits, count).len() <= count,
        forall|l: Lit| #[trigger] reduced(vars, lits, count).contains(l) ==> lits.contains(l) && kept(vars, lits, l),
    decreases count,
{
    if count > 0 {
        law_reduction_shrinks(vars, lits, count - 1);
        assert forall|l: Lit| #[trigger] reduced(vars, lits, count).contains(l) implies lits.contains(l) && kept(vars, lits, l) by {
            crate::datastructure::lemma_push_contains(reduced(vars, lits, count - 1), lits[count - 1], l);
            assert(lits.contains(lits[count - 1]));
        }
    }
}

} // verus!
