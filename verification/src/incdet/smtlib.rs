//! Skolem models as SMT-LIB definitions.
//!
//! Every function of a chain becomes a helper definition, numbered in order
//! of emission; each named variable becomes a public definition that picks
//! the value of the first region whose condition holds.
use crate::datastructure::VarMap;
use crate::incdet::model::{Function, Region, SkolemModel};
use crate::literal::{Lit, Var};
use crate::text::{
    call, call_text, decimal, declarations, declare, definition, has_name, join, lookup_name, name_of, nary, negated, parameter,
    parameter_names, parameters, push_decimal, push_definition, push_nary, push_negated, texts,
};
use std::collections::HashMap;
use vstd::prelude::*;
use vstd::string::*;

verus! {

broadcast use crate::literal::group_literal;

/// What the text of a term depends on: the parameters and their names.
pub ghost struct Scope {
    pub names: Map<i32, String>,
    pub universals: Seq<Var>,
}

impl Scope {
    /// A call of a helper.
    pub open spec fn helper(self, number: u64) -> Seq<char> {
        call("_f"@ + decimal(number as nat), parameters(self.names, self.universals))
    }

    /// A literal: a parameter by its name, a defined variable by a call of
    /// its helper, any other variable as false.
    pub open spec fn reference(self, refs: Map<Var, u64>, l: Lit) -> Seq<char> {
        negated(
            l.pos(),
            if self.universals.contains(l.v()) {
                parameter(self.names, l.v())
            } else if refs.contains_key(l.v()) {
                self.helper(refs[l.v()])
            } else {
                "false"@
            },
        )
    }

    /// The references to literals.
    pub open spec fn references(self, refs: Map<Var, u64>, lits: Seq<Lit>) -> Seq<Seq<char>> {
        Seq::new(lits.len(), |i: int| self.reference(refs, lits[i]))
    }

    /// The condition under which a clause fires.
    pub open spec fn firing(self, refs: Map<Var, u64>, lit: Lit, clause: Seq<Lit>) -> Seq<char> {
        nary("and"@, "true"@, self.references(refs, premises(lit, clause)))
    }

    /// The condition under which a function makes its literal true.
    pub open spec fn function(self, refs: Map<Var, u64>, lit: Lit, function: Function) -> Seq<char> {
        match function {
            Function::Constant => "true"@,
            Function::Implications(clauses) => nary(
                "or"@,
                "false"@,
                Seq::new(clauses@.len(), |i: int| self.firing(refs, lit, clauses@[i]@)),
            ),
        }
    }

    /// The definition of a helper.
    pub open spec fn define(self, name: Seq<char>, body: Seq<char>) -> Seq<char> {
        definition(name, join(declarations(self.names, self.universals)), body)
    }

    /// The helper definitions of a chain.
    pub open spec fn chain(self, start: u64, chain: Seq<(Lit, Function)>) -> Seq<char>
        decreases chain.len(),
    {
        if chain.len() == 0 {
            Seq::empty()
        } else {
            let before = chain.drop_last();
            let (lit, function) = chain.last();
            self.chain(start, before) + self.define(
                "_f"@ + decimal((start + before.len()) as nat),
                negated(lit.pos(), self.function(chain_refs(start, before), lit, function)),
            )
        }
    }

    /// The helper definitions of regions.
    pub open spec fn regions(self, start: u64, regions: Seq<Region>) -> Seq<char>
        decreases regions.len(),
    {
        if regions.len() == 0 {
            Seq::empty()
        } else {
            let before = regions.drop_last();
            self.regions(start, before) + match regions.last() {
                Region::Response { cube, response } => Seq::empty(),
                Region::Closed { cube, chain } => self.chain((start + helpers(before)) as u64, chain@),
            }
        }
    }

    /// The value of a variable in a region.
    pub open spec fn region_value(self, start: u64, region: Region, x: Var, base: Seq<char>) -> Seq<char> {
        match region {
            Region::Response { cube, response } => match first_on(response@, x) {
                Some(positive) => if positive {
                    "true"@
                } else {
                    "false"@
                },
                None => base,
            },
            Region::Closed { cube, chain } => {
                let refs = chain_refs(start, chain@);
                if refs.contains_key(x) {
                    self.helper(refs[x])
                } else {
                    base
                }
            },
        }
    }

    /// The value of a variable from a region on.
    pub open spec fn body(self, refs: Map<Var, u64>, start: u64, regions: Seq<Region>, from: int, x: Var) -> Seq<char>
        decreases regions.len() - from,
    {
        let base = if refs.contains_key(x) {
            self.helper(refs[x])
        } else {
            "false"@
        };
        if from < 0 || from >= regions.len() {
            base
        } else {
            "(ite "@ + nary("and"@, "true"@, self.references(refs, regions[from].spec_cube())) + " "@ + self.region_value(
                (start + helpers(regions.take(from))) as u64,
                regions[from],
                x,
                base,
            ) + " "@ + self.body(refs, start, regions, from + 1, x) + ")"@
        }
    }

    /// The public definitions of the named variables.
    pub open spec fn public(self, refs: Map<Var, u64>, start: u64, regions: Seq<Region>, vars: Seq<Var>) -> Seq<char>
        decreases vars.len(),
    {
        if vars.len() == 0 {
            Seq::empty()
        } else {
            let x = vars.last();
            self.public(refs, start, regions, vars.drop_last()) + if has_name(self.names, x) {
                self.define(name_of(self.names, x), self.body(refs, start, regions, 0, x))
            } else {
                Seq::empty()
            }
        }
    }

    /// The whole text of a model.
    pub open spec fn model(self, model: SkolemModel) -> Seq<char> {
        let chain = model.final_chain@;
        let refs = chain_refs(0, chain);
        let start = chain.len() as u64;
        "(\n"@ + self.chain(0, chain) + self.regions(start, model.regions@) + self.public(
            refs,
            start,
            model.regions@,
            model.spec_defined_vars(),
        ) + ")\n"@
    }
}

/// The negations of the literals of a clause on other variables than that
/// of the defined literal.
pub open spec fn premises(lit: Lit, clause: Seq<Lit>) -> Seq<Lit>
    decreases clause.len(),
{
    if clause.len() == 0 {
        Seq::empty()
    } else {
        let before = premises(lit, clause.drop_last());
        if clause.last().v() != lit.v() {
            before.push(clause.last().neg())
        } else {
            before
        }
    }
}

/// The numbers of the helpers of a chain, by variable.
pub open spec fn chain_refs(start: u64, chain: Seq<(Lit, Function)>) -> Map<Var, u64>
    decreases chain.len(),
{
    if chain.len() == 0 {
        Map::empty()
    } else {
        chain_refs(start, chain.drop_last()).insert(chain.last().0.v(), (start + chain.len() - 1) as u64)
    }
}

/// The number of helpers that regions need.
pub open spec fn helpers(regions: Seq<Region>) -> nat
    decreases regions.len(),
{
    if regions.len() == 0 {
        0
    } else {
        helpers(regions.drop_last()) + match regions.last() {
            Region::Response { cube, response } => 0,
            Region::Closed { cube, chain } => chain@.len(),
        }
    }
}

/// The sign of the first literal on a variable.
pub open spec fn first_on(lits: Seq<Lit>, x: Var) -> Option<bool>
    decreases lits.len(),
{
    if lits.len() == 0 {
        None
    } else if lits[0].v() == x {
        Some(lits[0].pos())
    } else {
        first_on(lits.drop_first(), x)
    }
}

proof fn lemma_helpers(regions: Seq<Region>, k: int)
    requires
        0 <= k <= regions.len(),
    ensures
        helpers(regions.take(k)) <= helpers(regions),
        k < regions.len() ==> helpers(regions.take(k + 1)) <= helpers(regions),
    decreases regions.len(),
{
    assert(regions.take(regions.len() as int) =~= regions);
    if k + 1 < regions.len() {
        lemma_helpers(regions.drop_last(), k);
        assert(regions.drop_last().take(k) =~= regions.take(k));
        assert(regions.drop_last().take(k + 1) =~= regions.take(k + 1));
    } else if k < regions.len() {
        assert(regions.drop_last() =~= regions.take(k));
    }
}

/// The parameters of all definitions.
struct Parameters {
    names: Vec<String>,
    decl: String,
}

impl Parameters {
    spec fn ok(&self, scope: Scope) -> bool {
        &&& texts(self.names@) == parameters(scope.names, scope.universals)
        &&& self.decl@ == join(declarations(scope.names, scope.universals))
    }
}

/// The position of a variable in a list.
fn position(vars: &Vec<Var>, x: Var) -> (found: Option<usize>)
    ensures
        match found {
            Some(i) => i < vars@.len() && vars@[i as int] == x,
            None => !vars@.contains(x),
        },
{
    let mut k: usize = 0;
    while k < vars.len()
        invariant
            k <= vars@.len(),
            forall|i: int| 0 <= i < k ==> vars@[i] != x,
        decreases vars.len() - k,
    {
        if vars[k] == x {
            return Some(k);
        }
        k += 1;
    }
    None
}

fn reference_text(params: &Parameters, universals: &Vec<Var>, refs: &VarMap<u64>, l: Lit, Ghost(scope): Ghost<Scope>) -> (text: String)
    requires
        params.ok(scope),
        scope.universals == universals@,
    ensures
        text@ == scope.reference(refs@, l),
{
    let mut text = String::new();
    match position(universals, l.var()) {
        Some(i) => {
            proof {
                assert(texts(params.names@).len() == universals@.len());
                assert(texts(params.names@)[i as int] == params.names@[i as int]@);
                assert(parameters(scope.names, scope.universals)[i as int] == parameter(scope.names, l.v()));
            }
            push_negated(&mut text, l.is_positive(), params.names[i].as_str());
        },
        None => match refs.get(l.var()) {
            Some(number) => {
                let base = call_text("_f", number, &params.names);
                push_negated(&mut text, l.is_positive(), base.as_str());
            },
            None => {
                push_negated(&mut text, l.is_positive(), "false");
            },
        },
    }
    assert(text@ =~= scope.reference(refs@, l));
    text
}

fn reference_texts(params: &Parameters, universals: &Vec<Var>, refs: &VarMap<u64>, lits: &Vec<Lit>, Ghost(scope): Ghost<Scope>) -> (parts: Vec<String>)
    requires
        params.ok(scope),
        scope.universals == universals@,
    ensures
        texts(parts@) == scope.references(refs@, lits@),
{
    let mut parts: Vec<String> = Vec::new();
    let mut k: usize = 0;
    while k < lits.len()
        invariant
            k <= lits@.len(),
            params.ok(scope),
            scope.universals == universals@,
            parts@.len() == k,
            forall|i: int| 0 <= i < k ==> (#[trigger] parts@[i])@ == scope.reference(refs@, lits@[i]),
        decreases lits.len() - k,
    {
        let part = reference_text(params, universals, refs, lits[k], Ghost(scope));
        parts.push(part);
        k += 1;
    }
    assert(texts(parts@) =~= scope.references(refs@, lits@));
    parts
}

fn premises_of(lit: Lit, clause: &Vec<Lit>) -> (others: Vec<Lit>)
    ensures
        others@ == premises(lit, clause@),
{
    let mut others: Vec<Lit> = Vec::new();
    let mut k: usize = 0;
    assert(clause@.take(0) =~= Seq::<Lit>::empty());
    while k < clause.len()
        invariant
            k <= clause@.len(),
            others@ == premises(lit, clause@.take(k as int)),
        decreases clause.len() - k,
    {
        let l = clause[k];
        assert(clause@.take(k as int + 1).drop_last() =~= clause@.take(k as int));
        assert(clause@.take(k as int + 1).last() == l);
        if l.var() != lit.var() {
            others.push(l.negated());
        }
        k += 1;
    }
    assert(clause@.take(clause@.len() as int) =~= clause@);
    others
}

fn function_text(params: &Parameters, universals: &Vec<Var>, refs: &VarMap<u64>, lit: Lit, function: &Function, Ghost(scope): Ghost<Scope>) -> (text: String)
    requires
        params.ok(scope),
        scope.universals == universals@,
    ensures
        text@ == scope.function(refs@, lit, *function),
{
    let mut text = String::new();
    match function {
        Function::Constant => {
            text.append("true");
            assert(text@ =~= "true"@);
        },
        Function::Implications(clauses) => {
            let mut fire: Vec<String> = Vec::new();
            let mut k: usize = 0;
            while k < clauses.len()
                invariant
                    k <= clauses@.len(),
                    params.ok(scope),
                    scope.universals == universals@,
                    fire@.len() == k,
                    forall|i: int| 0 <= i < k ==> (#[trigger] fire@[i])@ == scope.firing(refs@, lit, clauses@[i]@),
                decreases clauses.len() - k,
            {
                let others = premises_of(lit, &clauses[k]);
                let parts = reference_texts(params, universals, refs, &others, Ghost(scope));
                let mut part = String::new();
                push_nary(&mut part, "and", "true", &parts);
                assert(part@ =~= scope.firing(refs@, lit, clauses@[k as int]@));
                fire.push(part);
                k += 1;
            }
            push_nary(&mut text, "or", "false", &fire);
            proof {
                assert(texts(fire@) =~= Seq::new(clauses@.len(), |i: int| scope.firing(refs@, lit, clauses@[i]@)));
                assert(text@ =~= scope.function(refs@, lit, *function));
            }
        },
    }
    text
}

/// Appends the helper definitions of a chain; the numbers of the helpers.
fn push_chain(out: &mut String, params: &Parameters, universals: &Vec<Var>, start: u64, chain: &Vec<(Lit, Function)>, Ghost(scope): Ghost<Scope>) -> (refs: VarMap<u64>)
    requires
        params.ok(scope),
        scope.universals == universals@,
        start + chain@.len() <= u64::MAX,
    ensures
        refs@ == chain_refs(start, chain@),
        final(out)@ == old(out)@ + scope.chain(start, chain@),
{
    let ghost before_all = out@;
    let mut refs: VarMap<u64> = VarMap::new();
    let mut k: usize = 0;
    assert(chain@.take(0) =~= Seq::<(Lit, Function)>::empty());
    assert(refs@ =~= Map::<Var, u64>::empty());
    assert(before_all + scope.chain(start, chain@.take(0)) =~= before_all);
    while k < chain.len()
        invariant
            k <= chain@.len(),
            params.ok(scope),
            scope.universals == universals@,
            start + chain@.len() <= u64::MAX,
            refs@ == chain_refs(start, chain@.take(k as int)),
            out@ == before_all + scope.chain(start, chain@.take(k as int)),
        decreases chain.len() - k,
    {
        let lit = chain[k].0;
        let fires = function_text(params, universals, &refs, lit, &chain[k].1, Ghost(scope));
        let mut body = String::new();
        push_negated(&mut body, lit.is_positive(), fires.as_str());
        let number: u64 = start + k as u64;
        let mut name = String::new();
        name.append("_f");
        push_decimal(&mut name, number);
        push_definition(out, name.as_str(), params.decl.as_str(), body.as_str());
        proof {
            let next = chain@.take(k as int + 1);
            assert(next.drop_last() =~= chain@.take(k as int));
            assert(next.last() == chain@[k as int]);
            assert(name@ =~= "_f"@ + decimal((start + k) as nat));
            assert(body@ =~= negated(lit.pos(), fires@));
            assert(out@ =~= before_all + scope.chain(start, next));
        }
        refs.insert(lit.var(), number);
        k += 1;
    }
    assert(chain@.take(chain@.len() as int) =~= chain@);
    refs
}

fn first_sign(lits: &Vec<Lit>, x: Var) -> (sign: Option<bool>)
    ensures
        sign == first_on(lits@, x),
{
    let mut k: usize = 0;
    assert(lits@.skip(0) =~= lits@);
    while k < lits.len()
        invariant
            k <= lits@.len(),
            first_on(lits@, x) == first_on(lits@.skip(k as int), x),
        decreases lits.len() - k,
    {
        let l = lits[k];
        if l.var() == x {
            return Some(l.is_positive());
        }
        assert(lits@.skip(k as int).drop_first() =~= lits@.skip(k as int + 1));
        k += 1;
    }
    None
}

/// The texts of a region: its condition and the numbers of its helpers.
struct RegionText {
    condition: String,
    refs: VarMap<u64>,
}

spec fn region_texts_ok(scope: Scope, refs: Map<Var, u64>, start: u64, regions: Seq<Region>, data: Seq<RegionText>, k: int) -> bool {
    forall|i: int|
        #![trigger data[i]]
        0 <= i < k ==> {
            &&& data[i].condition@ == nary("and"@, "true"@, scope.references(refs, regions[i].spec_cube()))
            &&& match regions[i] {
                Region::Response { cube, response } => true,
                Region::Closed { cube, chain } => data[i].refs@ == chain_refs((start + helpers(regions.take(i))) as u64, chain@),
            }
        }
}

/// Appends the helper definitions of the regions.
fn push_regions(out: &mut String, params: &Parameters, universals: &Vec<Var>, refs: &VarMap<u64>, start: u64, regions: &Vec<Region>, Ghost(scope): Ghost<Scope>) -> (data: Vec<RegionText>)
    requires
        params.ok(scope),
        scope.universals == universals@,
        start + helpers(regions@) <= u64::MAX,
    ensures
        data@.len() == regions@.len(),
        region_texts_ok(scope, refs@, start, regions@, data@, regions@.len() as int),
        final(out)@ == old(out)@ + scope.regions(start, regions@),
{
    let ghost before_all = out@;
    let mut data: Vec<RegionText> = Vec::new();
    let mut number: u64 = start;
    let mut k: usize = 0;
    assert(regions@.take(0) =~= Seq::<Region>::empty());
    assert(before_all + scope.regions(start, regions@.take(0)) =~= before_all);
    while k < regions.len()
        invariant
            k <= regions@.len(),
            params.ok(scope),
            scope.universals == universals@,
            start + helpers(regions@) <= u64::MAX,
            number == start + helpers(regions@.take(k as int)),
            data@.len() == k,
            region_texts_ok(scope, refs@, start, regions@, data@, k as int),
            out@ == before_all + scope.regions(start, regions@.take(k as int)),
        decreases regions.len() - k,
    {
        let ghost old_data = data@;
        let ghost old_out = out@;
        let parts = reference_texts(params, universals, refs, regions[k].cube(), Ghost(scope));
        let mut condition = String::new();
        push_nary(&mut condition, "and", "true", &parts);
        assert(condition@ =~= nary("and"@, "true"@, scope.references(refs@, regions@[k as int].spec_cube())));
        proof {
            lemma_helpers(regions@, k as int);
            let next = regions@.take(k as int + 1);
            assert(next.drop_last() =~= regions@.take(k as int));
            assert(next.last() == regions@[k as int]);
        }
        match &regions[k] {
            Region::Response { cube, response } => {
                let none: VarMap<u64> = VarMap::new();
                data.push(RegionText { condition, refs: none });
                assert(out@ =~= before_all + scope.regions(start, regions@.take(k as int + 1)));
            },
            Region::Closed { cube, chain } => {
                let own = push_chain(out, params, universals, number, chain, Ghost(scope));
                number = number + chain.len() as u64;
                data.push(RegionText { condition, refs: own });
                assert(out@ =~= before_all + scope.regions(start, regions@.take(k as int + 1)));
            },
        }
        proof {
            assert forall|i: int|
                #![trigger data@[i]]
                0 <= i < k + 1 implies {
                &&& data@[i].condition@ == nary("and"@, "true"@, scope.references(refs@, regions@[i].spec_cube()))
                &&& match regions@[i] {
                    Region::Response { cube, response } => true,
                    Region::Closed { cube, chain } => data@[i].refs@ == chain_refs(
                        (start + helpers(regions@.take(i))) as u64,
                        chain@,
                    ),
                }
            } by {
                if i < k {
                    assert(data@[i] == old_data[i]);
                }
            }
        }
        k += 1;
    }
    assert(regions@.take(regions@.len() as int) =~= regions@);
    data
}

/// The body of the public definition of a variable.
fn body_text(params: &Parameters, refs: &VarMap<u64>, start: u64, regions: &Vec<Region>, data: &Vec<RegionText>, x: Var, Ghost(scope): Ghost<Scope>) -> (text: String)
    requires
        params.ok(scope),
        data@.len() == regions@.len(),
        region_texts_ok(scope, refs@, start, regions@, data@, regions@.len() as int),
    ensures
        text@ == scope.body(refs@, start, regions@, 0, x),
{
    let base = match refs.get(x) {
        Some(number) => call_text("_f", number, &params.names),
        None => {
            let mut text = String::new();
            text.append("false");
            assert(text@ =~= "false"@);
            text
        },
    };
    let mut body = String::new();
    body.append(base.as_str());
    let mut k: usize = regions.len();
    assert(body@ =~= scope.body(refs@, start, regions@, regions@.len() as int, x));
    while k > 0
        invariant
            k <= regions@.len(),
            params.ok(scope),
            data@.len() == regions@.len(),
            region_texts_ok(scope, refs@, start, regions@, data@, regions@.len() as int),
            base@ == (if refs@.contains_key(x) {
                scope.helper(refs@[x])
            } else {
                "false"@
            }),
            body@ == scope.body(refs@, start, regions@, k as int, x),
        decreases k,
    {
        k -= 1;
        let mut text = String::new();
        text.append("(ite ");
        text.append(data[k].condition.as_str());
        text.append(" ");
        let ghost head = text@;
        match &regions[k] {
            Region::Response { cube, response } => match first_sign(response, x) {
                Some(true) => {
                    text.append("true");
                },
                Some(false) => {
                    text.append("false");
                },
                None => {
                    text.append(base.as_str());
                },
            },
            Region::Closed { cube, chain } => match data[k].refs.get(x) {
                Some(number) => {
                    let value = call_text("_f", number, &params.names);
                    text.append(value.as_str());
                },
                None => {
                    text.append(base.as_str());
                },
            },
        }
        assert(text@ =~= head + scope.region_value(
            (start + helpers(regions@.take(k as int))) as u64,
            regions@[k as int],
            x,
            base@,
        ));
        text.append(" ");
        text.append(body.as_str());
        text.append(")");
        assert(text@ =~= scope.body(refs@, start, regions@, k as int, x));
        body = text;
    }
    body
}

impl SkolemModel {
    /// The text that `names` gives the model in SMT-LIB.
    pub open spec fn smtlib(&self, names: Map<i32, String>) -> Seq<char> {
        (Scope { names, universals: self.spec_universals() }).model(*self)
    }

    /// Renders the model as SMT-LIB `define-fun`s over the universal
    /// variables, one per defined variable with a name. Helper functions
    /// for internal variables and regions use an `_f` prefix. `names` maps
    /// DIMACS variables to their surface names.
    pub fn to_smtlib(&self, names: &HashMap<i32, String>) -> (text: String)
        requires
            self.final_chain@.len() + helpers(self.regions@) <= u64::MAX,
        ensures
            text@ == self.smtlib(names@),
    {
        let ghost scope = Scope { names: names@, universals: self.universals@ };
        let param_names = parameter_names(names, &self.universals);
        let decl = declare(&param_names, names, &self.universals);
        let params = Parameters { names: param_names, decl };
        let mut out = String::new();
        out.append("(\n");
        let refs = push_chain(&mut out, &params, &self.universals, 0, &self.final_chain, Ghost(scope));
        let start: u64 = self.final_chain.len() as u64;
        let data = push_regions(&mut out, &params, &self.universals, &refs, start, &self.regions, Ghost(scope));
        let ghost head = out@;
        let vars = self.defined_vars();
        let mut k: usize = 0;
        assert(vars@.take(0) =~= Seq::<Var>::empty());
        assert(head + scope.public(refs@, start, self.regions@, vars@.take(0)) =~= head);
        while k < vars.len()
            invariant
                k <= vars@.len(),
                scope == (Scope { names: names@, universals: self.universals@ }),
                params.ok(scope),
                data@.len() == self.regions@.len(),
                region_texts_ok(scope, refs@, start, self.regions@, data@, self.regions@.len() as int),
                out@ == head + scope.public(refs@, start, self.regions@, vars@.take(k as int)),
            decreases vars.len() - k,
        {
            let x = vars[k];
            proof {
                let next = vars@.take(k as int + 1);
                assert(next.drop_last() =~= vars@.take(k as int));
                assert(next.last() == x);
            }
            match lookup_name(names, x) {
                Some(public) => {
                    let body = body_text(&params, &refs, start, &self.regions, &data, x, Ghost(scope));
                    push_definition(&mut out, public.as_str(), params.decl.as_str(), body.as_str());
                },
                None => {},
            }
            assert(out@ =~= head + scope.public(refs@, start, self.regions@, vars@.take(k as int + 1)));
            k += 1;
        }
        assert(vars@.take(vars@.len() as int) =~= vars@);
        out.append(")\n");
        assert(out@ =~= self.smtlib(names@));
        out
    }
}

} // verus!
