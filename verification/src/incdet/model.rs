//! The piecewise Skolem model of a satisfiable result.
//!
//! A region covers its cube minus the cubes of the regions before it, and
//! the final chain covers everything outside all cubes. Within a region,
//! a defined variable carries the uniform function "the literal holds iff
//! one of its implication clauses fires"; the chain provides an order in
//! which the functions can be evaluated. A variable that nothing defines
//! reads as false.
use crate::datastructure::{VarMap, VarSet};
use crate::literal::{Lit, Var};
use crate::qcnf::assignment_of;
use crate::semantics::{cube_true, lit_true, matrix_true, Assignment, Matrix};
use std::collections::HashMap;
use vstd::prelude::*;

verus! {

broadcast use {crate::literal::group_literal, vstd::std_specs::hash::group_hash_axioms};

/// The function of one literal.
#[derive(Debug)]
pub enum Function {
    /// The literal holds unconditionally.
    Constant,
    /// The literal holds iff one of the implication clauses fires: all
    /// literals of the clause other than the defined one are false.
    Implications(Vec<Vec<Lit>>),
}

/// A part of the universal assignments and what is played there.
#[derive(Debug)]
pub enum Region {
    /// Constant response literals that override the final chain on the
    /// cube.
    Response { cube: Vec<Lit>, response: Vec<Lit> },
    /// A chain of its own, valid on the cube.
    Closed { cube: Vec<Lit>, chain: Vec<(Lit, Function)> },
}

/// The piecewise Skolem functions of a satisfiable result, detached from
/// the solver.
#[derive(Debug)]
pub struct SkolemModel {
    pub universals: Vec<Var>,
    pub regions: Vec<Region>,
    /// the functions outside all regions, in dependency order
    pub final_chain: Vec<(Lit, Function)>,
}

/// Every literal of the clause whose variable is not the defined one is
/// false.
pub open spec fn clause_fires(a: Assignment, lit: Lit, clause: Seq<Lit>) -> bool {
    forall|j: int| 0 <= j < clause.len() && (#[trigger] clause[j]).v() != lit.v() ==> !lit_true(a, clause[j])
}

/// The function makes its literal true.
pub open spec fn function_fires(a: Assignment, lit: Lit, function: Function) -> bool {
    match function {
        Function::Constant => true,
        Function::Implications(clauses) => exists|i: int|
            0 <= i < clauses@.len() && clause_fires(a, lit, (#[trigger] clauses@[i])@),
    }
}

/// The values after evaluating a chain of functions.
pub open spec fn chain_values(chain: Seq<(Lit, Function)>, values: Map<Var, bool>) -> Map<Var, bool>
    decreases chain.len(),
{
    if chain.len() == 0 {
        values
    } else {
        let before = chain_values(chain.drop_last(), values);
        let (lit, function) = chain.last();
        before.insert(lit.v(), function_fires(assignment_of(before), lit, function) == lit.pos())
    }
}

/// The values after committing to literals one by one.
pub open spec fn commit(values: Map<Var, bool>, lits: Seq<Lit>) -> Map<Var, bool>
    decreases lits.len(),
{
    if lits.len() == 0 {
        values
    } else {
        commit(values, lits.drop_last()).insert(lits.last().v(), lits.last().pos())
    }
}

/// The assignment takes every value of the map.
pub open spec fn agrees(a: Assignment, values: Map<Var, bool>) -> bool {
    forall|x: Var| #[trigger] values.contains_key(x) ==> a(x) == values[x]
}

/// The map assigns exactly the given variables.
pub open spec fn assigns(values: Map<Var, bool>, vars: Seq<Var>) -> bool {
    forall|x: Var| #[trigger] values.contains_key(x) <==> vars.contains(x)
}

impl Region {
    /// The cube of the region.
    pub open spec fn spec_cube(self) -> Seq<Lit> {
        match self {
            Region::Response { cube, response } => cube@,
            Region::Closed { cube, chain } => cube@,
        }
    }

    /// The cube of the region.
    pub fn cube(&self) -> (cube: &Vec<Lit>)
        ensures
            cube@ == self.spec_cube(),
    {
        match self {
            Region::Response { cube, response } => cube,
            Region::Closed { cube, chain } => cube,
        }
    }

    /// The values played in the region: over the values of the final
    /// chain, or from the universal values alone.
    pub open spec fn play(self, universal: Map<Var, bool>, last: Map<Var, bool>) -> Map<Var, bool> {
        match self {
            Region::Response { cube, response } => commit(last, response@),
            Region::Closed { cube, chain } => chain_values(chain@, universal),
        }
    }
}

/// The values that the first region from `from` on whose cube holds plays,
/// or those of the final chain.
pub open spec fn region_values(
    regions: Seq<Region>,
    from: int,
    universal: Map<Var, bool>,
    last: Map<Var, bool>,
) -> Map<Var, bool>
    decreases regions.len() - from,
{
    if from < 0 || from >= regions.len() {
        last
    } else if cube_true(assignment_of(last), regions[from].spec_cube()) {
        regions[from].play(universal, last)
    } else {
        region_values(regions, from + 1, universal, last)
    }
}

/// The values given by literals in DIMACS numbering, later ones first.
pub open spec fn numbered_values(lits: Seq<i32>) -> Map<Var, bool>
    decreases lits.len(),
{
    if lits.len() == 0 {
        Map::empty()
    } else {
        let l = lits.last() as int;
        numbered_values(lits.drop_last()).insert(
            crate::literal::var_of(if l > 0 { l } else { -l }),
            l > 0,
        )
    }
}

/// A map by DIMACS numbers holds exactly the values of the variables that
/// are not left out.
pub open spec fn numbered_as(numbers: Map<i32, bool>, values: Map<Var, bool>, without: Seq<Var>) -> bool {
    &&& forall|x: Var|
        #![trigger values.contains_key(x)]
        values.contains_key(x) && !without.contains(x) ==> numbers.contains_key(x.dimacs() as i32)
            && numbers[x.dimacs() as i32] == values[x]
    &&& forall|k: i32| #[trigger]
        numbers.contains_key(k) ==> exists|x: Var|
            x.dimacs() == k && #[trigger] values.contains_key(x) && !without.contains(x)
}

impl SkolemModel {
    /// The universal variables.
    pub open spec fn spec_universals(&self) -> Seq<Var> {
        self.universals@
    }

    /// The values of all variables that the model defines at a universal
    /// assignment, the universal ones included.
    pub open spec fn values(&self, universal: Map<Var, bool>) -> Map<Var, bool> {
        region_values(self.regions@, 0, universal, chain_values(self.final_chain@, universal))
    }

    /// Whatever the universal player does, the values of the model satisfy
    /// the clauses, with any values for the variables it leaves out.
    pub open spec fn wins(&self, m: Matrix) -> bool {
        forall|universal: Map<Var, bool>| #[trigger]
            assigns(universal, self.spec_universals()) ==> {
                &&& forall|x: Var|
                    self.spec_universals().contains(x) ==> #[trigger] self.values(universal).contains_key(x)
                        && self.values(universal)[x] == universal[x]
                &&& forall|a: Assignment| #[trigger]
                    agrees(a, self.values(universal)) ==> matrix_true(a, m)
            }
    }

    /// The universal variables (the parameters of the Skolem functions),
    /// in DIMACS numbering.
    pub fn universals(&self) -> (numbers: Vec<i32>)
        ensures
            numbers@.len() == self.spec_universals().len(),
            forall|i: int|
                0 <= i < numbers@.len() ==> #[trigger] numbers@[i] == self.spec_universals()[i].dimacs(),
    {
        let mut numbers: Vec<i32> = Vec::new();
        let mut k: usize = 0;
        while k < self.universals.len()
            invariant
                k <= self.universals@.len(),
                numbers@.len() == k,
                forall|i: int| 0 <= i < k ==> #[trigger] numbers@[i] == self.universals@[i].dimacs(),
            decreases self.universals.len() - k,
        {
            numbers.push(self.universals[k].to_dimacs());
            k += 1;
        }
        numbers
    }

    /// Evaluates the model at the given values of the universal variables.
    pub(crate) fn values_at(&self, universal: &VarMap<bool>) -> (values: VarMap<bool>)
        ensures
            values@ == self.values(universal@),
    {
        let mut last = universal.duplicate();
        eval_chain(&self.final_chain, &mut last);
        let mut k: usize = 0;
        while k < self.regions.len()
            invariant
                k <= self.regions@.len(),
                last@ == chain_values(self.final_chain@, universal@),
                self.values(universal@) == region_values(self.regions@, k as int, universal@, last@),
            decreases self.regions.len() - k,
        {
            if cube_holds(self.regions[k].cube(), &last) {
                match &self.regions[k] {
                    Region::Response { cube, response } => {
                        commit_all(&mut last, response);
                        return last;
                    },
                    Region::Closed { cube, chain } => {
                        let mut values = universal.duplicate();
                        eval_chain(chain, &mut values);
                        return values;
                    },
                }
            }
            k += 1;
        }
        last
    }

    /// Evaluates the model at the given universal assignment (DIMACS
    /// literals; a variable that is not covered reads as false). Returns
    /// the values of all existential variables the model defines, by
    /// DIMACS number.
    pub fn evaluate(&self, universal: &[i32]) -> (values: HashMap<i32, bool>)
        requires
            forall|i: int| 0 <= i < universal@.len() ==> (#[trigger] universal@[i]) != 0 && universal@[i] != i32::MIN,
        ensures
            numbered_as(
                values@,
                self.values(numbered_values(universal@)),
                self.spec_universals(),
            ),
    {
        let point = values_from_dimacs(universal);
        let values = self.values_at(&point);
        finish(&self.universals, &values)
    }
}

/// The values given by literals in DIMACS numbering.
pub(crate) fn values_from_dimacs(lits: &[i32]) -> (values: VarMap<bool>)
    requires
        forall|i: int| 0 <= i < lits@.len() ==> (#[trigger] lits@[i]) != 0 && lits@[i] != i32::MIN,
    ensures
        values@ == numbered_values(lits@),
{
    let mut values: VarMap<bool> = VarMap::new();
    let mut k: usize = 0;
    assert(lits@.take(0) =~= Seq::<i32>::empty());
    while k < lits.len()
        invariant
            k <= lits@.len(),
            forall|i: int| 0 <= i < lits@.len() ==> (#[trigger] lits@[i]) != 0 && lits@[i] != i32::MIN,
            values@ == numbered_values(lits@.take(k as int)),
        decreases lits.len() - k,
    {
        let number: i32 = lits[k];
        let lit = Lit::from_dimacs(number);
        let var = lit.var();
        proof {
            let next = lits@.take(k as int + 1);
            assert(next.drop_last() =~= lits@.take(k as int));
            assert(next.last() == number);
            crate::literal::lemma_var_of(var);
        }
        values.insert(var, number > 0);
        k += 1;
    }
    assert(lits@.take(lits@.len() as int) =~= lits@);
    values
}

/// Whether every literal of the cube holds; missing variables are false.
pub(crate) fn cube_holds(cube: &Vec<Lit>, values: &VarMap<bool>) -> (holds: bool)
    ensures
        holds == cube_true(assignment_of(values@), cube@),
{
    let mut k: usize = 0;
    while k < cube.len()
        invariant
            k <= cube@.len(),
            forall|i: int| 0 <= i < k ==> lit_true(assignment_of(values@), #[trigger] cube@[i]),
        decreases cube.len() - k,
    {
        if !truth(cube[k], values) {
            return false;
        }
        k += 1;
    }
    true
}

/// Whether the literal holds; missing variables are false.
pub(crate) fn truth(lit: Lit, values: &VarMap<bool>) -> (holds: bool)
    ensures
        holds == lit_true(assignment_of(values@), lit),
{
    let value = match values.get(lit.var()) {
        Some(value) => value,
        None => false,
    };
    value == lit.is_positive()
}

/// Commits to the literals one by one.
pub(crate) fn commit_all(values: &mut VarMap<bool>, lits: &Vec<Lit>)
    ensures
        final(values)@ == commit(old(values)@, lits@),
{
    let mut k: usize = 0;
    let ghost before = values@;
    assert(lits@.take(0) =~= Seq::<Lit>::empty());
    while k < lits.len()
        invariant
            k <= lits@.len(),
            values@ == commit(before, lits@.take(k as int)),
        decreases lits.len() - k,
    {
        let lit = lits[k];
        proof {
            let next = lits@.take(k as int + 1);
            assert(next.drop_last() =~= lits@.take(k as int));
            assert(next.last() == lit);
        }
        values.insert(lit.var(), lit.is_positive());
        k += 1;
    }
    assert(lits@.take(lits@.len() as int) =~= lits@);
}

/// Whether the clause fires for the defined literal.
fn fires(lit: Lit, clause: &Vec<Lit>, values: &VarMap<bool>) -> (fires: bool)
    ensures
        fires == clause_fires(assignment_of(values@), lit, clause@),
{
    let mut k: usize = 0;
    while k < clause.len()
        invariant
            k <= clause@.len(),
            forall|j: int|
                0 <= j < k && (#[trigger] clause@[j]).v() != lit.v() ==> !lit_true(
                    assignment_of(values@),
                    clause@[j],
                ),
        decreases clause.len() - k,
    {
        let other = clause[k];
        if other.var() != lit.var() && truth(other, values) {
            assert(lit_true(assignment_of(values@), clause@[k as int]));
            return false;
        }
        k += 1;
    }
    true
}

/// Evaluates a chain of functions on top of the given values.
pub(crate) fn eval_chain(chain: &Vec<(Lit, Function)>, values: &mut VarMap<bool>)
    ensures
        final(values)@ == chain_values(chain@, old(values)@),
{
    let ghost before = values@;
    let mut k: usize = 0;
    assert(chain@.take(0) =~= Seq::<(Lit, Function)>::empty());
    while k < chain.len()
        invariant
            k <= chain@.len(),
            values@ == chain_values(chain@.take(k as int), before),
        decreases chain.len() - k,
    {
        let lit = chain[k].0;
        let ghost a = assignment_of(values@);
        let ghost function = chain@[k as int].1;
        let fired = match &chain[k].1 {
            Function::Constant => true,
            Function::Implications(clauses) => {
                let mut fired = false;
                let mut i: usize = 0;
                while i < clauses.len() && !fired
                    invariant
                        i <= clauses@.len(),
                        a == assignment_of(values@),
                        fired ==> exists|j: int| 0 <= j < clauses@.len() && clause_fires(a, lit, (#[trigger] clauses@[j])@),
                        !fired ==> forall|j: int| 0 <= j < i ==> !clause_fires(a, lit, (#[trigger] clauses@[j])@),
                    decreases clauses.len() - i,
                {
                    if fires(lit, &clauses[i], values) {
                        fired = true;
                    }
                    i += 1;
                }
                fired
            },
        };
        proof {
            let next = chain@.take(k as int + 1);
            assert(next.drop_last() =~= chain@.take(k as int));
            assert(next.last() == chain@[k as int]);
            assert(fired == function_fires(a, lit, function));
        }
        values.insert(lit.var(), fired == lit.is_positive());
        k += 1;
    }
    assert(chain@.take(chain@.len() as int) =~= chain@);
}

/// The values without those of the universal variables, by DIMACS number.
pub(crate) fn finish(universals: &Vec<Var>, values: &VarMap<bool>) -> (numbers: HashMap<i32, bool>)
    ensures
        numbered_as(numbers@, values@, universals@),
{
    let left_out = VarSet::from_vars(universals);
    let keys = values.keys();
    let mut numbers: HashMap<i32, bool> = HashMap::new();
    let mut k: usize = 0;
    while k < keys.len()
        invariant
            k <= keys@.len(),
            forall|x: Var| #[trigger] left_out@.contains(x) <==> universals@.contains(x),
            forall|i: int| 0 <= i < keys@.len() ==> values@.contains_key(#[trigger] keys@[i]),
            forall|i: int|
                0 <= i < k && !universals@.contains(#[trigger] keys@[i]) ==> numbers@.contains_key(
                    keys@[i].dimacs() as i32,
                ) && numbers@[keys@[i].dimacs() as i32] == values@[keys@[i]],
            forall|n: i32| #[trigger]
                numbers@.contains_key(n) ==> exists|x: Var|
                    x.dimacs() == n && #[trigger] values@.contains_key(x) && !universals@.contains(x),
            forall|i: int, j: int| 0 <= i < j < keys@.len() ==> (#[trigger] keys@[i]).id() < (#[trigger] keys@[j]).id(),
        decreases keys.len() - k,
    {
        let var = keys[k];
        if !left_out.contains(var) {
            if let Some(value) = values.get(var) {
                let number = var.to_dimacs();
                let ghost before = numbers@;
                numbers.insert(number, value);
                proof {
                    assert forall|n: i32| #[trigger] numbers@.contains_key(n) implies exists|x: Var|
                        x.dimacs() == n && #[trigger] values@.contains_key(x) && !universals@.contains(x) by {
                        if n == number {
                            assert(values@.contains_key(var));
                        } else {
                            assert(before.contains_key(n));
                        }
                    }
                    assert forall|i: int|
                        0 <= i < k + 1 && !universals@.contains(#[trigger] keys@[i]) implies numbers@.contains_key(
                        keys@[i].dimacs() as i32,
                    ) && numbers@[keys@[i].dimacs() as i32] == values@[keys@[i]] by {
                        if i < k {
                            let other = keys@[i];
                            assert(other.id() < var.id());
                        }
                    }
                }
            }
        }
        k += 1;
    }
    proof {
        assert forall|x: Var|
            #![trigger values@.contains_key(x)]
            values@.contains_key(x) && !universals@.contains(x) implies numbers@.contains_key(
            x.dimacs() as i32,
        ) && numbers@[x.dimacs() as i32] == values@[x] by {
            assert(keys@.contains(x));
            let i = choose|i: int| 0 <= i < keys@.len() && keys@[i] == x;
            assert(!universals@.contains(keys@[i]));
        }
    }
    numbers
}

/// The number of literals of the clauses.
pub open spec fn clauses_size(clauses: Seq<Vec<Lit>>) -> nat
    decreases clauses.len(),
{
    if clauses.len() == 0 {
        0
    } else {
        clauses_size(clauses.drop_last()) + clauses.last()@.len()
    }
}

/// The size of a function: one, and the literals of its clauses.
pub open spec fn function_size(function: Function) -> nat {
    match function {
        Function::Constant => 1,
        Function::Implications(clauses) => clauses_size(clauses@) + 1,
    }
}

/// The size of a chain of functions.
pub open spec fn chain_size(chain: Seq<(Lit, Function)>) -> nat
    decreases chain.len(),
{
    if chain.len() == 0 {
        0
    } else {
        chain_size(chain.drop_last()) + function_size(chain.last().1)
    }
}

/// The size of the regions.
pub open spec fn regions_size(regions: Seq<Region>) -> nat
    decreases regions.len(),
{
    if regions.len() == 0 {
        0
    } else {
        regions_size(regions.drop_last()) + match regions.last() {
            Region::Response { cube, response } => cube@.len() + response@.len(),
            Region::Closed { cube, chain } => cube@.len() + chain_size(chain@),
        }
    }
}

/// A number, or the largest one that fits.
pub open spec fn capped(n: nat) -> usize {
    if n <= usize::MAX {
        n as usize
    } else {
        usize::MAX
    }
}

fn size_of_chain(chain: &Vec<(Lit, Function)>) -> (size: usize)
    ensures
        size == capped(chain_size(chain@)),
{
    let mut size: usize = 0;
    let mut k: usize = 0;
    assert(chain@.take(0) =~= Seq::<(Lit, Function)>::empty());
    while k < chain.len()
        invariant
            k <= chain@.len(),
            size == capped(chain_size(chain@.take(k as int))),
        decreases chain.len() - k,
    {
        proof {
            let next = chain@.take(k as int + 1);
            assert(next.drop_last() =~= chain@.take(k as int));
            assert(next.last() == chain@[k as int]);
        }
        let own = match &chain[k].1 {
            Function::Constant => 1,
            Function::Implications(clauses) => {
                let mut own: usize = 0;
                let mut i: usize = 0;
                assert(clauses@.take(0) =~= Seq::<Vec<Lit>>::empty());
                while i < clauses.len()
                    invariant
                        i <= clauses@.len(),
                        own == capped(clauses_size(clauses@.take(i as int))),
                    decreases clauses.len() - i,
                {
                    proof {
                        let next = clauses@.take(i as int + 1);
                        assert(next.drop_last() =~= clauses@.take(i as int));
                        assert(next.last() == clauses@[i as int]);
                    }
                    own = own.saturating_add(clauses[i].len());
                    i += 1;
                }
                assert(clauses@.take(clauses@.len() as int) =~= clauses@);
                own.saturating_add(1)
            },
        };
        size = size.saturating_add(own);
        k += 1;
    }
    assert(chain@.take(chain@.len() as int) =~= chain@);
    size
}

impl SkolemModel {
    /// A rough node count of the functions.
    pub open spec fn spec_size(&self) -> nat {
        chain_size(self.final_chain@) + regions_size(self.regions@)
    }

    /// A rough node count of the functions, capped at the largest number.
    pub fn size(&self) -> (size: usize)
        ensures
            size == capped(self.spec_size()),
    {
        let mut size: usize = 0;
        let mut k: usize = 0;
        assert(self.regions@.take(0) =~= Seq::<Region>::empty());
        while k < self.regions.len()
            invariant
                k <= self.regions@.len(),
                size == capped(regions_size(self.regions@.take(k as int))),
            decreases self.regions.len() - k,
        {
            proof {
                let next = self.regions@.take(k as int + 1);
                assert(next.drop_last() =~= self.regions@.take(k as int));
                assert(next.last() == self.regions@[k as int]);
            }
            let own = match &self.regions[k] {
                Region::Response { cube, response } => cube.len().saturating_add(response.len()),
                Region::Closed { cube, chain } => cube.len().saturating_add(size_of_chain(chain)),
            };
            size = size.saturating_add(own);
            k += 1;
        }
        assert(self.regions@.take(self.regions@.len() as int) =~= self.regions@);
        size_of_chain(&self.final_chain).saturating_add(size)
    }
}

} // verus!
