//! Prenex formulas with a clausal matrix.
use crate::datastructure::{VarMap, VarSet};
use crate::literal::{Lit, Var};
use crate::quantifier::QuantTy;
use crate::semantics::{
    bound, clause_true, formula_true, lemma_bound_concat, lemma_close_free, lemma_empty_block, lemma_merge_blocks, lemma_single_block,
    lit_true, matrix_true, mentions, clause_mentions, prefix_distinct, qbf, set_var, with_block, Assignment, Matrix, Prefix,
};
use crate::SolverResult;
use vstd::prelude::*;

verus! {

broadcast use crate::literal::group_literal;

/// A prefix of quantifier blocks, outermost first, over a conjunction of
/// clauses. Variables that no block binds are existential and outermost.
#[derive(Debug)]
pub struct QCNF {
    pub prefix: Vec<(QuantTy, Vec<Var>)>,
    pub matrix: Vec<Vec<Lit>>,
}

/// The clauses of a list of vectors.
pub open spec fn matrix_of(clauses: Seq<Vec<Lit>>) -> Matrix {
    Seq::new(clauses.len(), |i: int| clauses[i]@)
}

/// The blocks of a list of vectors.
pub open spec fn prefix_of(blocks: Seq<(QuantTy, Vec<Var>)>) -> Prefix {
    Seq::new(blocks.len(), |i: int| (blocks[i].0, blocks[i].1@))
}

/// The numbers of a block are those of its variables.
pub open spec fn same_block(numbers: Seq<u32>, vars: Seq<Var>) -> bool {
    &&& numbers.len() == vars.len()
    &&& forall|i: int| 0 <= i < vars.len() ==> (#[trigger] vars[i]).dimacs() == numbers[i]
}

/// The values of a partial map as a total assignment; missing variables
/// are false.
pub open spec fn assignment_of(values: Map<Var, bool>) -> Assignment {
    |x: Var| values.contains_key(x) && values[x]
}

impl QCNF {
    /// The quantifier blocks.
    pub open spec fn blocks(self) -> Prefix {
        prefix_of(self.prefix@)
    }

    /// The clauses.
    pub open spec fn clauses(self) -> Matrix {
        matrix_of(self.matrix@)
    }

    /// No variable is bound twice.
    pub open spec fn wf(self) -> bool {
        prefix_distinct(self.blocks())
    }

    /// The formula is true.
    pub open spec fn truth(self) -> bool {
        formula_true(self.blocks(), self.clauses())
    }

    /// The formula with the given blocks and clauses, in DIMACS numbering.
    pub fn new(prefix: &[(QuantTy, &[u32])], matrix: &[&[i32]]) -> (qcnf: QCNF)
        requires
            forall|i: int, j: int|
                0 <= i < prefix@.len() && 0 <= j < prefix@[i].1@.len() ==> 0 < #[trigger] prefix@[i].1@[j]
                    <= i32::MAX,
            forall|i: int, j: int|
                0 <= i < matrix@.len() && 0 <= j < matrix@[i]@.len() ==> (#[trigger] matrix@[i]@[j]) != 0
                    && matrix@[i]@[j] != i32::MIN,
        ensures
            qcnf.prefix@.len() == prefix@.len(),
            forall|i: int|
                0 <= i < prefix@.len() ==> (#[trigger] qcnf.prefix@[i]).0 == prefix@[i].0 && same_block(
                    prefix@[i].1@,
                    qcnf.prefix@[i].1@,
                ),
            qcnf.matrix@.len() == matrix@.len(),
            forall|i: int|
                0 <= i < matrix@.len() ==> crate::sat::same_clause(
                    (#[trigger] qcnf.matrix@[i])@,
                    matrix@[i]@,
                ),
    {
        let mut blocks: Vec<(QuantTy, Vec<Var>)> = Vec::new();
        let mut i: usize = 0;
        while i < prefix.len()
            invariant
                i <= prefix@.len(),
                blocks@.len() == i,
                forall|i: int, j: int|
                    0 <= i < prefix@.len() && 0 <= j < prefix@[i].1@.len() ==> 0 < #[trigger] prefix@[i].1@[j]
                        <= i32::MAX,
                forall|k: int|
                    0 <= k < i ==> (#[trigger] blocks@[k]).0 == prefix@[k].0 && same_block(
                        prefix@[k].1@,
                        blocks@[k].1@,
                    ),
            decreases prefix.len() - i,
        {
            let numbers = prefix[i].1;
            let mut vars: Vec<Var> = Vec::new();
            let mut j: usize = 0;
            while j < numbers.len()
                invariant
                    i < prefix@.len(),
                    numbers@ == prefix@[i as int].1@,
                    j <= numbers@.len(),
                    vars@.len() == j,
                    forall|i: int, j: int|
                        0 <= i < prefix@.len() && 0 <= j < prefix@[i].1@.len() ==> 0 < #[trigger] prefix@[i].1@[j]
                            <= i32::MAX,
                    forall|k: int| 0 <= k < j ==> (#[trigger] vars@[k]).dimacs() == numbers@[k],
                decreases numbers.len() - j,
            {
                assert(0 < prefix@[i as int].1@[j as int] <= i32::MAX);
                vars.push(Var::from_dimacs(numbers[j] as i32));
                j += 1;
            }
            blocks.push((prefix[i].0, vars));
            i += 1;
        }
        let mut clauses: Vec<Vec<Lit>> = Vec::new();
        let mut i: usize = 0;
        while i < matrix.len()
            invariant
                i <= matrix@.len(),
                clauses@.len() == i,
                forall|i: int, j: int|
                    0 <= i < matrix@.len() && 0 <= j < matrix@[i]@.len() ==> (#[trigger] matrix@[i]@[j]) != 0
                        && matrix@[i]@[j] != i32::MIN,
                forall|k: int|
                    0 <= k < i ==> crate::sat::same_clause((#[trigger] clauses@[k])@, matrix@[k]@),
            decreases matrix.len() - i,
        {
            clauses.push(lits_from_dimacs(matrix[i]));
            i += 1;
        }
        QCNF { prefix: blocks, matrix: clauses }
    }

    /// Decides the formula by trying every assignment. Takes time
    /// exponential in the number of variables: a reference to compare the
    /// solvers against.
    pub fn brute_force(&self) -> (result: SolverResult)
        ensures
            result == (if self.truth() {
                SolverResult::Satisfiable
            } else {
                SolverResult::Unsatisfiable
            }),
    {
        let free = self.free_variables();
        let mut point: VarMap<bool> = VarMap::new();
        let ghost a = assignment_of(point@);
        proof {
            lemma_close_free(self.blocks(), self.clauses(), free@, a);
            assert(free@.skip(0) =~= free@);
            assert(self.blocks().skip(0) =~= self.blocks());
        }
        if self.try_block(QuantTy::Exists, &free, 0, 0, &mut point) {
            SolverResult::Satisfiable
        } else {
            SolverResult::Unsatisfiable
        }
    }

    /// Whether no variable is bound twice.
    pub fn is_proper(&self) -> (yes: bool)
        ensures
            yes == self.wf(),
    {
        is_distinct(&self.prefix)
    }

    /// The variables that the matrix mentions and no block binds, each
    /// once, in the order of their indices.
    pub fn free_variables(&self) -> (free: Vec<Var>)
        ensures
            forall|x: Var| #[trigger] free@.contains(x) <==> mentions(self.clauses(), x) && !bound(self.blocks(), x),
            free@.no_duplicates(),
            forall|i: int, j: int| 0 <= i < j < free@.len() ==> (#[trigger] free@[i]).id() < (#[trigger] free@[j]).id(),
    {
        let declared = self.declared();
        let mut seen: VarMap<bool> = VarMap::new();
        let mut i: usize = 0;
        while i < self.matrix.len()
            invariant
                i <= self.matrix@.len(),
                forall|x: Var| #[trigger] declared@.contains(x) <==> bound(self.blocks(), x),
                forall|x: Var| #[trigger] seen@.contains_key(x) <==> mentions(
                    self.clauses().take(i as int),
                    x,
                ) && !bound(self.blocks(), x),
            decreases self.matrix.len() - i,
        {
            let mut j: usize = 0;
            let ghost before = seen@;
            let ghost clause = self.matrix@[i as int]@;
            while j < self.matrix[i].len()
                invariant
                    i < self.matrix@.len(),
                    clause == self.matrix@[i as int]@,
                    j <= clause.len(),
                    forall|x: Var| #[trigger] declared@.contains(x) <==> bound(self.blocks(), x),
                    forall|x: Var| #[trigger] seen@.contains_key(x) <==> before.contains_key(x) || (clause_mentions(
                        clause.take(j as int),
                        x,
                    ) && !bound(self.blocks(), x)),
                decreases clause.len() - j,
            {
                let var = self.matrix[i][j].var();
                let ghost part = clause.take(j as int);
                let ghost next = clause.take(j as int + 1);
                assert(next =~= part.push(clause[j as int]));
                if !declared.contains(var) {
                    seen.insert(var, true);
                }
                proof {
                    assert forall|x: Var| clause_mentions(next, x) <==> clause_mentions(part, x) || x == var by {
                        lemma_clause_push(part, clause[j as int], x);
                    }
                }
                j += 1;
            }
            proof {
                let part = self.clauses().take(i as int);
                let next = self.clauses().take(i as int + 1);
                assert(clause.take(clause.len() as int) =~= clause);
                assert(next =~= part.push(clause));
                assert forall|x: Var| mentions(next, x) <==> mentions(part, x) || clause_mentions(clause, x) by {
                    lemma_matrix_push(part, clause, x);
                }
            }
            i += 1;
        }
        assert(self.clauses().take(self.matrix@.len() as int) =~= self.clauses());
        let free = seen.keys();
        proof {
            assert forall|x: Var| #[trigger] free@.contains(x) <==> mentions(self.clauses(), x) && !bound(self.blocks(), x) by {
                assert(seen@.contains_key(x) <==> free@.contains(x));
            }
        }
        free
    }

    /// The variables that some block binds.
    pub fn declared(&self) -> (declared: VarSet)
        ensures
            forall|x: Var| #[trigger] declared@.contains(x) <==> bound(self.blocks(), x),
    {
        let mut declared = VarSet::new();
        let mut i: usize = 0;
        while i < self.prefix.len()
            invariant
                i <= self.prefix@.len(),
                forall|x: Var| #[trigger] declared@.contains(x) <==> bound(self.blocks().take(i as int), x),
            decreases self.prefix.len() - i,
        {
            let mut j: usize = 0;
            let ghost before = declared@;
            let ghost vars = self.prefix@[i as int].1@;
            while j < self.prefix[i].1.len()
                invariant
                    i < self.prefix@.len(),
                    vars == self.prefix@[i as int].1@,
                    j <= vars.len(),
                    forall|x: Var| #[trigger] declared@.contains(x) <==> before.contains(x) || vars.take(j as int).contains(x),
                decreases vars.len() - j,
            {
                let var = self.prefix[i].1[j];
                assert(vars.take(j as int + 1) =~= vars.take(j as int).push(var));
                declared.insert(var);
                proof {
                    assert forall|x: Var| vars.take(j as int + 1).contains(x) <==> vars.take(j as int).contains(x) || x == var by {
                        crate::datastructure::lemma_push_contains(vars.take(j as int), var, x);
                    }
                }
                j += 1;
            }
            proof {
                let part = self.blocks().take(i as int);
                let block = self.blocks()[i as int];
                assert(vars.take(vars.len() as int) =~= vars);
                assert(self.blocks().take(i as int + 1) =~= part + seq![block]);
                assert forall|x: Var| bound(seq![block], x) <==> block.1.contains(x) by {
                    assert(seq![block][0] == block);
                }
                assert(block.1 == vars);
                assert forall|x: Var| bound(self.blocks().take(i as int + 1), x) <==> bound(part, x) || vars.contains(x) by {
                    lemma_bound_concat(part, seq![block], x);
                }
            }
            i += 1;
        }
        assert(self.blocks().take(self.prefix@.len() as int) =~= self.blocks());
        declared
    }

    /// Plays the game from variable `next` of a block onwards, with the
    /// blocks from `block` on still to come.
    fn try_block(&self, quant: QuantTy, vars: &Vec<Var>, next: usize, block: usize, point: &mut VarMap<bool>) -> (wins: bool)
        requires
            next <= vars@.len(),
            block <= self.prefix@.len(),
        ensures
            wins == qbf(
                with_block(quant, vars@.skip(next as int), self.blocks().skip(block as int)),
                self.clauses(),
                assignment_of(old(point)@),
            ),
        decreases self.prefix@.len() - block, vars@.len() - next,
    {
        let ghost a = assignment_of(point@);
        let ghost rest = self.blocks().skip(block as int);
        let ghost m = self.clauses();
        if next == vars.len() {
            proof {
                assert(vars@.skip(next as int) =~= Seq::<Var>::empty());
                lemma_empty_block(quant, rest, m, a);
            }
            if block == self.prefix.len() {
                assert(rest.len() == 0);
                return self.holds(point);
            }
            proof {
                let inner = self.blocks()[block as int];
                assert(rest =~= with_block(inner.0, inner.1, self.blocks().skip(block as int + 1)));
                assert(inner.1.skip(0) =~= inner.1);
            }
            return self.try_block(self.prefix[block].0, &self.prefix[block].1, 0, block + 1, point);
        }
        let var = vars[next];
        let mut low = point.duplicate();
        low.insert(var, false);
        let mut high = point.duplicate();
        high.insert(var, true);
        proof {
            let tail = vars@.skip(next as int + 1);
            assert(vars@.skip(next as int) =~= seq![var] + tail);
            lemma_merge_blocks(quant, seq![var], tail, rest, m, a);
            lemma_single_block(quant, var, with_block(quant, tail, rest), m, a);
            assert(assignment_of(low@) =~= set_var(a, var, false));
            assert(assignment_of(high@) =~= set_var(a, var, true));
        }
        let first = self.try_block(quant, vars, next + 1, block, &mut low);
        match quant {
            QuantTy::Forall => first && self.try_block(quant, vars, next + 1, block, &mut high),
            QuantTy::Exists => first || self.try_block(quant, vars, next + 1, block, &mut high),
        }
    }

    /// Whether the values satisfy every clause; missing variables are
    /// false.
    pub fn holds(&self, point: &VarMap<bool>) -> (holds: bool)
        ensures
            holds == matrix_true(assignment_of(point@), self.clauses()),
    {
        let ghost a = assignment_of(point@);
        let mut i: usize = 0;
        while i < self.matrix.len()
            invariant
                i <= self.matrix@.len(),
                a == assignment_of(point@),
                forall|k: int| 0 <= k < i ==> clause_true(a, #[trigger] self.matrix@[k]@),
            decreases self.matrix.len() - i,
        {
            let mut satisfied = false;
            let mut j: usize = 0;
            while j < self.matrix[i].len() && !satisfied
                invariant
                    i < self.matrix@.len(),
                    a == assignment_of(point@),
                    j <= self.matrix@[i as int]@.len(),
                    satisfied ==> clause_true(a, self.matrix@[i as int]@),
                    !satisfied ==> forall|k: int| 0 <= k < j ==> !lit_true(a, #[trigger] self.matrix@[i as int]@[k]),
                decreases self.matrix@[i as int]@.len() - j,
            {
                let lit = self.matrix[i][j];
                let value = match point.get(lit.var()) {
                    Some(value) => value,
                    None => false,
                };
                if value == lit.is_positive() {
                    satisfied = true;
                    assert(lit_true(a, self.matrix@[i as int]@[j as int]));
                }
                j += 1;
            }
            if !satisfied {
                assert(!clause_true(a, self.clauses()[i as int]));
                return false;
            }
            i += 1;
        }
        assert(matrix_true(a, self.clauses())) by {
            assert forall|k: int| 0 <= k < self.clauses().len() implies clause_true(a, #[trigger] self.clauses()[k]) by {
                assert(clause_true(a, self.matrix@[k]@));
            }
        }
        true
    }
}

/// The literals with the given DIMACS numbers.
pub fn lits_from_dimacs(numbers: &[i32]) -> (lits: Vec<Lit>)
    requires
        forall|i: int| 0 <= i < numbers@.len() ==> (#[trigger] numbers@[i]) != 0 && numbers@[i] != i32::MIN,
    ensures
        crate::sat::same_clause(lits@, numbers@),
{
    let mut lits: Vec<Lit> = Vec::new();
    let mut k: usize = 0;
    while k < numbers.len()
        invariant
            k <= numbers@.len(),
            lits@.len() == k,
            forall|i: int| 0 <= i < numbers@.len() ==> (#[trigger] numbers@[i]) != 0 && numbers@[i] != i32::MIN,
            forall|i: int| 0 <= i < k ==> (#[trigger] lits@[i]).dimacs() == #[trigger] numbers@[i],
        decreases numbers.len() - k,
    {
        lits.push(Lit::from_dimacs(numbers[k]));
        k += 1;
    }
    lits
}

/// A clause mentions one variable more after a push.
pub proof fn lemma_clause_push(c: Seq<Lit>, l: Lit, x: Var)
    ensures
        clause_mentions(c.push(l), x) <==> clause_mentions(c, x) || x == l.v(),
{
    let d = c.push(l);
    if clause_mentions(c, x) {
        let j = choose|j: int| 0 <= j < c.len() && (#[trigger] c[j]).v() == x;
        assert(d[j] == c[j]);
    }
    if x == l.v() {
        assert(d[c.len() as int] == l);
    }
    if clause_mentions(d, x) {
        let j = choose|j: int| 0 <= j < d.len() && (#[trigger] d[j]).v() == x;
        if j < c.len() {
            assert(c[j] == d[j]);
        }
    }
}

/// A matrix mentions the variables of one clause more after a push.
pub proof fn lemma_matrix_push(m: Matrix, c: Seq<Lit>, x: Var)
    ensures
        mentions(m.push(c), x) <==> mentions(m, x) || clause_mentions(c, x),
{
    let n = m.push(c);
    if mentions(m, x) {
        let i = choose|i: int| 0 <= i < m.len() && clause_mentions(#[trigger] m[i], x);
        assert(n[i] == m[i]);
    }
    if clause_mentions(c, x) {
        assert(n[m.len() as int] == c);
    }
    if mentions(n, x) {
        let i = choose|i: int| 0 <= i < n.len() && clause_mentions(#[trigger] n[i], x);
        if i < m.len() {
            assert(m[i] == n[i]);
        }
    }
}

/// Whether no variable is bound twice.
pub(crate) fn is_distinct(prefix: &Vec<(QuantTy, Vec<Var>)>) -> (distinct: bool)
    ensures
        distinct == prefix_distinct(prefix_of(prefix@)),
{
    let ghost p = prefix_of(prefix@);
    let mut seen = crate::datastructure::VarSet::new();
    let mut i: usize = 0;
    while i < prefix.len()
        invariant
            i <= prefix@.len(),
            p == prefix_of(prefix@),
            forall|x: Var| #[trigger] seen@.contains(x) <==> bound(p.take(i as int), x),
            prefix_distinct(p.take(i as int)),
        decreases prefix.len() - i,
    {
        let vars = &prefix[i].1;
        let ghost before = seen@;
        assert(p[i as int].1 == vars@);
        let mut j: usize = 0;
        while j < vars.len()
            invariant
                i < prefix@.len(),
                j <= vars@.len(),
                p == prefix_of(prefix@),
                p[i as int].1 == vars@,
                forall|x: Var| #[trigger] before.contains(x) <==> bound(p.take(i as int), x),
                forall|x: Var| #[trigger] seen@.contains(x) <==> before.contains(x) || vars@.take(j as int).contains(x),
                forall|k: int| 0 <= k < j ==> !before.contains(#[trigger] vars@[k]),
                forall|k: int, l: int| 0 <= k < l < j ==> vars@[k] != vars@[l],
            decreases vars.len() - j,
        {
            let var = vars[j];
            let ghost last = seen@;
            if !seen.insert(var) {
                proof {
                    if before.contains(var) {
                        let part = p.take(i as int);
                        let k = choose|k: int| 0 <= k < part.len() && (#[trigger] part[k]).1.contains(var);
                        assert(p[k].1.contains(var));
                        assert(vars@[j as int] == var);
                        assert(p[i as int].1.contains(var));
                    } else {
                        assert(vars@.take(j as int).contains(var));
                        let k = choose|k: int| 0 <= k < j && vars@.take(j as int)[k] == var;
                        assert(vars@[k] == vars@[j as int]);
                        if prefix_distinct(p) {
                            assert(p[i as int].1.no_duplicates());
                        }
                    }
                }
                return false;
            }
            proof {
                assert(vars@.take(j as int + 1) =~= vars@.take(j as int).push(var));
                assert forall|x: Var| #[trigger] seen@.contains(x) <==> before.contains(x) || vars@.take(j as int + 1).contains(x) by {
                    crate::datastructure::lemma_push_contains(vars@.take(j as int), var, x);
                    assert(last.contains(x) <==> before.contains(x) || vars@.take(j as int).contains(x));
                }
                assert forall|k: int, l: int| 0 <= k < l < j + 1 implies vars@[k] != vars@[l] by {
                    if l == j {
                        assert(vars@.take(j as int)[k] == vars@[k]);
                        assert(vars@.take(j as int).contains(vars@[k]));
                        assert(last.contains(vars@[k]));
                    }
                }
            }
            j += 1;
        }
        proof {
            assert(vars@.take(vars@.len() as int) =~= vars@);
            let part = p.take(i as int);
            let next = p.take(i as int + 1);
            assert(next =~= part.push(p[i as int]));
            assert forall|x: Var| bound(next, x) <==> bound(part, x) || vars@.contains(x) by {
                if bound(part, x) {
                    let k = choose|k: int| 0 <= k < part.len() && (#[trigger] part[k]).1.contains(x);
                    assert(next[k].1.contains(x));
                }
                if vars@.contains(x) {
                    assert(next[i as int].1.contains(x));
                }
                if bound(next, x) {
                    let k = choose|k: int| 0 <= k < next.len() && (#[trigger] next[k]).1.contains(x);
                    if k < i {
                        assert(part[k].1.contains(x));
                    }
                }
            }
            assert forall|k: int| 0 <= k < next.len() implies (#[trigger] next[k]).1.no_duplicates() by {
                if k < i {
                    assert(part[k].1.no_duplicates());
                }
            }
            assert forall|k: int, l: int, x: Var| 0 <= k < l < next.len() && #[trigger] next[k].1.contains(x) implies !#[trigger] next[l].1.contains(x) by {
                if l < i {
                    assert(part[k].1.contains(x));
                    assert(!part[l].1.contains(x));
                } else {
                    assert(part[k].1.contains(x));
                    assert(bound(part, x));
                    assert(before.contains(x));
                    if vars@.contains(x) {
                        let j = choose|j: int| 0 <= j < vars@.len() && vars@[j] == x;
                        assert(!before.contains(vars@[j]));
                    }
                }
            }
        }
        i += 1;
    }
    assert(p.take(p.len() as int) =~= p);
    true
}

} // verus!
