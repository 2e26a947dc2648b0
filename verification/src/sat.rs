//! The propositional back end: clauses are decided by the `varisat`
//! solver.
use crate::literal::{lemma_var_of, var_of, Lit, Var};
use crate::semantics::{clause_true, cube_true, lit_true, matrix_true, Assignment, Matrix};
use vstd::prelude::*;

verus! {

/// The largest variable number that `varisat` supports.
pub const MAX_NUMBER: i32 = 268_435_456;

/// The number stands for a literal that `varisat` accepts.
pub open spec fn number_ok(l: i32) -> bool {
    l != 0 && -MAX_NUMBER <= l <= MAX_NUMBER
}

/// The literal with the given DIMACS number holds.
pub open spec fn number_true(e: spec_fn(int) -> bool, l: i32) -> bool {
    if l > 0 {
        e(l as int)
    } else {
        !e(-(l as int))
    }
}

/// Some number of the clause holds.
pub open spec fn numbers_any(e: spec_fn(int) -> bool, c: Seq<i32>) -> bool {
    exists|i: int| 0 <= i < c.len() && number_true(e, #[trigger] c[i])
}

/// Every number of the cube holds.
pub open spec fn numbers_all(e: spec_fn(int) -> bool, c: Seq<i32>) -> bool {
    forall|i: int| 0 <= i < c.len() ==> number_true(e, #[trigger] c[i])
}

/// Every clause holds.
pub open spec fn numbers_cnf(e: spec_fn(int) -> bool, m: Seq<Vec<i32>>) -> bool {
    forall|i: int| 0 <= i < m.len() ==> numbers_any(e, #[trigger] m[i]@)
}

/// A model of the clauses and the units, if there is one, by
/// `varisat::Solver`: the clauses are handed to `add_clause` (its
/// `ExtendFormula` impl) one by one, the units as clauses of one literal,
/// then `solve` gives the verdict and `model` the evidence. A model assigns
/// no variable twice, and every total assignment that extends it satisfies
/// clauses and units (it may leave a variable out); without a model no
/// assignment satisfies them. Numbers beyond `varisat::Var::max_var` are
/// outside what the crate supports. `solve` reports an error only where a
/// proof is written, and none is written here.
#[verifier::external_body]
fn varisat_model(clauses: &Vec<Vec<i32>>, units: &Vec<i32>) -> (model: Option<Vec<i32>>)
    requires
        forall|i: int, j: int|
            0 <= i < clauses@.len() && 0 <= j < clauses@[i]@.len() ==> number_ok(#[trigger] clauses@[i]@[j]),
        forall|i: int| 0 <= i < units@.len() ==> number_ok(#[trigger] units@[i]),
    ensures
        model matches Some(model) ==> {
            &&& forall|i: int| 0 <= i < model@.len() ==> number_ok(#[trigger] model@[i])
            &&& forall|i: int, j: int|
                0 <= i < model@.len() && 0 <= j < model@.len() ==> #[trigger] model@[i] + #[trigger] model@[j] != 0
            &&& forall|e: spec_fn(int) -> bool| #[trigger]
                numbers_all(e, model@) ==> numbers_cnf(e, clauses@) && numbers_all(e, units@)
        },
        model is None ==> forall|e: spec_fn(int) -> bool| #[trigger]
            numbers_all(e, units@) ==> !numbers_cnf(e, clauses@),
{
    let mut solver = varisat::Solver::new();
    let lit = |l: &i32| varisat::Lit::from_dimacs(*l as isize);
    for clause in clauses {
        let clause: Vec<varisat::Lit> = clause.iter().map(lit).collect();
        varisat::ExtendFormula::add_clause(&mut solver, &clause);
    }
    for unit in units {
        varisat::ExtendFormula::add_clause(&mut solver, &[lit(unit)]);
    }
    solver.solve().expect("no proof is written");
    let model = solver.model()?;
    Some(model.iter().map(|l| l.to_dimacs() as i32).collect())
}

/// The literal is within the numbering of the back end.
pub open spec fn lit_ok(l: Lit) -> bool {
    l.v().dimacs() <= MAX_NUMBER
}

/// All literals are within the numbering of the back end.
pub open spec fn lits_ok(c: Seq<Lit>) -> bool {
    forall|i: int| 0 <= i < c.len() ==> lit_ok(#[trigger] c[i])
}

/// All clauses are within the numbering of the back end.
pub open spec fn clauses_ok(m: Matrix) -> bool {
    forall|i: int| 0 <= i < m.len() ==> lits_ok(#[trigger] m[i])
}

/// No two literals of the set contradict each other.
pub open spec fn consistent(c: Seq<Lit>) -> bool {
    forall|i: int, j: int|
        0 <= i < c.len() && 0 <= j < c.len() && #[trigger] c[i].v() == #[trigger] c[j].v()
            ==> c[i].pos() == c[j].pos()
}

/// The numbers are the DIMACS numbers of the literals.
pub open spec fn same_clause(c: Seq<Lit>, n: Seq<i32>) -> bool {
    &&& c.len() == n.len()
    &&& forall|i: int| 0 <= i < c.len() ==> (#[trigger] c[i]).dimacs() == #[trigger] n[i]
}

/// The outcome of a query.
#[derive(Debug)]
pub enum SatOutcome {
    /// The literals of a satisfying assignment; variables it leaves out
    /// may take any value.
    Sat(Vec<Lit>),
    /// No assignment satisfies the clauses together with the assumptions.
    Unsat,
    /// A variable is beyond the numbering of the back end.
    OutOfRange,
}

/// What an outcome means for the clauses and the assumptions.
pub open spec fn outcome_ok(m: Matrix, assumptions: Seq<Lit>, outcome: SatOutcome) -> bool {
    match outcome {
        SatOutcome::Sat(model) => {
            &&& consistent(model@)
            &&& forall|a: Assignment| #[trigger]
                cube_true(a, model@) ==> matrix_true(a, m) && cube_true(a, assumptions)
        },
        SatOutcome::Unsat => forall|a: Assignment| #[trigger]
            cube_true(a, assumptions) ==> !matrix_true(a, m),
        SatOutcome::OutOfRange => !clauses_ok(m) || !lits_ok(assumptions),
    }
}

/// A growing set of clauses that can be queried under assumptions.
pub struct SatSolver {
    numbers: Vec<Vec<i32>>,
    out_of_range: bool,
    clauses: Ghost<Matrix>,
}

proof fn lemma_number_true(a: Assignment, e: spec_fn(int) -> bool, l: Lit, n: i32)
    requires
        l.dimacs() == n,
        e(l.v().dimacs()) == a(l.v()),
    ensures
        number_true(e, n) == lit_true(a, l),
{
    lemma_var_of(l.v());
}

proof fn lemma_any(a: Assignment, e: spec_fn(int) -> bool, c: Seq<Lit>, n: Seq<i32>)
    requires
        same_clause(c, n),
        forall|x: Var| e(#[trigger] x.dimacs()) == a(x),
    ensures
        clause_true(a, c) == numbers_any(e, n),
        cube_true(a, c) == numbers_all(e, n),
{
    assert forall|i: int| 0 <= i < c.len() implies lit_true(a, #[trigger] c[i]) == number_true(
        e,
        #[trigger] n[i],
    ) by {
        lemma_number_true(a, e, c[i], n[i]);
    }
    if clause_true(a, c) {
        let i = choose|i: int| 0 <= i < c.len() && lit_true(a, #[trigger] c[i]);
        assert(number_true(e, n[i]));
    }
    if numbers_any(e, n) {
        let i = choose|i: int| 0 <= i < n.len() && number_true(e, #[trigger] n[i]);
        assert(lit_true(a, c[i]));
    }
    if cube_true(a, c) {
        assert forall|i: int| 0 <= i < n.len() implies number_true(e, #[trigger] n[i]) by {
            assert(lit_true(a, c[i]));
        }
    }
    if numbers_all(e, n) {
        assert forall|i: int| 0 <= i < c.len() implies lit_true(a, #[trigger] c[i]) by {
            assert(number_true(e, n[i]));
        }
    }
}

proof fn lemma_cnf(a: Assignment, e: spec_fn(int) -> bool, m: Matrix, n: Seq<Vec<i32>>)
    requires
        m.len() == n.len(),
        forall|i: int| 0 <= i < m.len() ==> same_clause(#[trigger] m[i], n[i]@),
        forall|x: Var| e(#[trigger] x.dimacs()) == a(x),
    ensures
        matrix_true(a, m) == numbers_cnf(e, n),
{
    assert forall|i: int| 0 <= i < m.len() implies clause_true(a, #[trigger] m[i]) == numbers_any(
        e,
        #[trigger] n[i]@,
    ) by {
        lemma_any(a, e, m[i], n[i]@);
    }
    if matrix_true(a, m) {
        assert forall|i: int| 0 <= i < n.len() implies numbers_any(e, #[trigger] n[i]@) by {
            assert(clause_true(a, m[i]));
        }
    }
    if numbers_cnf(e, n) {
        assert forall|i: int| 0 <= i < m.len() implies clause_true(a, #[trigger] m[i]) by {
            assert(numbers_any(e, n[i]@));
        }
    }
}

/// The numbering of an assignment.
pub open spec fn numbering(a: Assignment) -> spec_fn(int) -> bool {
    |k: int| a(var_of(k))
}

impl SatSolver {
    /// The clauses added so far.
    pub closed spec fn clauses(self) -> Matrix {
        self.clauses@
    }

    /// The numbers held are those of the clauses added, and the flag says
    /// whether one is beyond the numbering of the back end.
    pub closed spec fn wf(self) -> bool {
        &&& self.out_of_range == !clauses_ok(self.clauses@)
        &&& self.numbers@.len() == self.clauses@.len()
        &&& forall|i: int|
            0 <= i < self.numbers@.len() ==> same_clause(#[trigger] self.clauses@[i], self.numbers@[i]@)
    }

    /// A solver without clauses.
    pub fn new() -> (solver: SatSolver)
        ensures
            solver.wf(),
            solver.clauses() == Matrix::empty(),
    {
        SatSolver { numbers: Vec::new(), out_of_range: false, clauses: Ghost(Seq::empty()) }
    }

    /// The DIMACS numbers of the literals, and whether the back end
    /// supports all of them.
    fn encode(lits: &Vec<Lit>) -> (result: (Vec<i32>, bool))
        ensures
            same_clause(lits@, result.0@),
            result.1 == lits_ok(lits@),
    {
        let mut numbers: Vec<i32> = Vec::new();
        let mut ok = true;
        let mut k: usize = 0;
        while k < lits.len()
            invariant
                k <= lits.len(),
                numbers.len() == k,
                forall|i: int| 0 <= i < k ==> (#[trigger] lits@[i]).dimacs() == #[trigger] numbers@[i],
                ok == forall|i: int| 0 <= i < k ==> lit_ok(#[trigger] lits@[i]),
            decreases lits.len() - k,
        {
            let lit = lits[k];
            let number = lit.to_dimacs();
            proof {
                lemma_var_of(lit.v());
            }
            if number > MAX_NUMBER || number < -MAX_NUMBER {
                assert(!lit_ok(lits@[k as int]));
                ok = false;
            }
            numbers.push(number);
            k += 1;
        }
        (numbers, ok)
    }

    /// The literals with the given DIMACS numbers.
    fn decode(numbers: &Vec<i32>) -> (lits: Vec<Lit>)
        requires
            forall|i: int| 0 <= i < numbers@.len() ==> number_ok(#[trigger] numbers@[i]),
        ensures
            same_clause(lits@, numbers@),
    {
        let mut lits: Vec<Lit> = Vec::new();
        let mut k: usize = 0;
        while k < numbers.len()
            invariant
                k <= numbers.len(),
                lits.len() == k,
                forall|i: int| 0 <= i < numbers@.len() ==> number_ok(#[trigger] numbers@[i]),
                forall|i: int| 0 <= i < k ==> (#[trigger] lits@[i]).dimacs() == #[trigger] numbers@[i],
            decreases numbers.len() - k,
        {
            lits.push(Lit::from_dimacs(numbers[k]));
            k += 1;
        }
        lits
    }

    /// Adds a clause.
    pub fn add_clause(&mut self, clause: &Vec<Lit>)
        requires
            old(self).wf(),
        ensures
            final(self).wf(),
            final(self).clauses() == old(self).clauses().push(clause@),
    {
        let (numbers, ok) = SatSolver::encode(clause);
        let ghost before = self.clauses@;
        let ghost after = before.push(clause@);
        if !ok {
            self.out_of_range = true;
        }
        self.numbers.push(numbers);
        self.clauses = Ghost(after);
        proof {
            assert(after[before.len() as int] == clause@);
            if clauses_ok(after) {
                assert forall|i: int| 0 <= i < before.len() implies lits_ok(#[trigger] before[i]) by {
                    assert(after[i] == before[i]);
                }
            }
            if clauses_ok(before) && ok {
                assert forall|i: int| 0 <= i < after.len() implies lits_ok(#[trigger] after[i]) by {
                    if i < before.len() {
                        assert(after[i] == before[i]);
                    }
                }
            }
            assert forall|i: int| 0 <= i < self.numbers@.len() implies same_clause(
                #[trigger] after[i],
                self.numbers@[i]@,
            ) by {
                if i < before.len() {
                    assert(after[i] == before[i]);
                }
            }
        }
    }

    /// Whether the clauses can be satisfied together with the assumptions,
    /// with the evidence.
    pub fn solve_with_assumptions(&self, assumptions: &Vec<Lit>) -> (outcome: SatOutcome)
        requires
            self.wf(),
        ensures
            outcome_ok(self.clauses(), assumptions@, outcome),
    {
        let (numbers, ok) = SatSolver::encode(assumptions);
        if self.out_of_range || !ok {
            return SatOutcome::OutOfRange;
        }
        let ghost m = self.clauses@;
        let ghost held = self.numbers@;
        proof {
            broadcast use lemma_var_of;

            assert forall|i: int, j: int|
                0 <= i < held.len() && 0 <= j < held[i]@.len() implies number_ok(
                #[trigger] held[i]@[j],
            ) by {
                assert(same_clause(m[i], held[i]@));
                assert(lits_ok(m[i]));
                assert(lit_ok(m[i][j]));
                assert(m[i][j].dimacs() == held[i]@[j]);
            }
            assert forall|i: int| 0 <= i < numbers@.len() implies number_ok(
                #[trigger] numbers@[i],
            ) by {
                assert(lit_ok(assumptions@[i]));
                assert(assumptions@[i].dimacs() == numbers@[i]);
            }
        }
        match varisat_model(&self.numbers, &numbers) {
            Some(model) => {
                let lits = SatSolver::decode(&model);
                proof {
                    assert forall|a: Assignment| #[trigger] cube_true(a, lits@) implies matrix_true(
                        a,
                        m,
                    ) && cube_true(a, assumptions@) by {
                        broadcast use lemma_var_of;

                        let e = numbering(a);
                        lemma_any(a, e, lits@, model@);
                        assert(numbers_all(e, model@));
                        lemma_cnf(a, e, m, held);
                        lemma_any(a, e, assumptions@, numbers@);
                    }
                    assert forall|i: int, j: int|
                        0 <= i < lits@.len() && 0 <= j < lits@.len() && #[trigger] lits@[i].v()
                            == #[trigger] lits@[j].v() implies lits@[i].pos() == lits@[j].pos() by {
                        assert(lits@[i].dimacs() == model@[i]);
                        assert(lits@[j].dimacs() == model@[j]);
                        assert(model@[i] + model@[j] != 0);
                    }
                }
                SatOutcome::Sat(lits)
            },
            None => {
                proof {
                    assert forall|a: Assignment| #[trigger] cube_true(a, assumptions@) implies !matrix_true(
                        a,
                        m,
                    ) by {
                        broadcast use lemma_var_of;

                        let e = numbering(a);
                        lemma_any(a, e, assumptions@, numbers@);
                        assert(numbers_all(e, numbers@));
                        lemma_cnf(a, e, m, held);
                    }
                }
                SatOutcome::Unsat
            },
        }
    }

    /// Whether the clauses can be satisfied, with the evidence.
    pub fn solve(&self) -> (outcome: SatOutcome)
        requires
            self.wf(),
        ensures
            outcome_ok(self.clauses(), Seq::empty(), outcome),
    {
        let none: Vec<Lit> = Vec::new();
        self.solve_with_assumptions(&none)
    }
}

} // verus!
