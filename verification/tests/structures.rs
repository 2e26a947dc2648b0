use booleanium::bdd::{Bdd, FALSE, TRUE};
use booleanium::datastructure::heap::VarHeap;
use booleanium::incdet::determinacy::{dpll, solve_with_sat_solver};
use booleanium::incdet::propagation::assignment::{Assignment, Value};
use booleanium::incdet::restart::luby;
use booleanium::incdet::vsids::Vsids;
use booleanium::literal::{Lit, Var};

fn lit(l: i32) -> Lit {
    Lit::from_dimacs(l)
}

#[test]
fn heap_heap() {
    let mut heap = VarHeap::new();
    heap.set_var_count(4);
    let vars: Vec<_> = (0..4).map(Var::from_index).collect();
    for &var in &vars {
        heap.add(var);
    }

    heap.update_value(vars[2], |_| 2);
    heap.update_value(vars[1], |_| 6);

    assert_eq!(heap.peek(), Some(vars[1]));
    heap.remove(vars[1]);

    assert_eq!(heap.peek(), Some(vars[2]));

    heap.add(vars[1]);
    assert_eq!(heap.peek(), Some(vars[1]));
}

#[test]
fn heap_pops_in_order_of_value() {
    let mut heap = VarHeap::new();
    heap.set_var_count(5);
    let vars: Vec<_> = (0..5).map(Var::from_index).collect();
    for (k, &var) in vars.iter().enumerate() {
        heap.add_and_set(var, [3, 9, 1, 7, 5][k]);
    }
    heap.remove(vars[3]);
    assert!(!heap.contained(vars[3]));
    assert_eq!(heap.get_value(vars[3]), 7);
    let order: Vec<_> = (0..4).map(|_| heap.pop()).collect();
    assert_eq!(order, vec![Some(vars[1]), Some(vars[4]), Some(vars[0]), Some(vars[2])]);
    assert_eq!(heap.pop(), None);
}

#[test]
fn vsids_heap() {
    let mut vsids = Vsids::new();
    vsids.set_var_count(4);
    let vars: Vec<_> = (0..4).map(Var::from_index).collect();
    for &var in &vars {
        vsids.add(var);
    }

    vsids.bump(vars[2]);
    vsids.bump(vars[1]);
    vsids.bump(vars[1]);

    assert_eq!(vsids.peek(), Some(vars[1]));
    vsids.remove(vars[1]);

    assert_eq!(vsids.peek(), Some(vars[2]));

    vsids.add(vars[1]);
    assert_eq!(vsids.peek(), Some(vars[1]));
}

#[test]
fn decay() {
    let mut vsids = Vsids::new();
    vsids.set_var_count(4);
    let vars: Vec<_> = (0..4).map(Var::from_index).collect();
    for &var in &vars {
        vsids.add(var);
    }

    for &var in &vars {
        vsids.bump(var);
        vsids.decay();
    }

    for (&left, &right) in vars.iter().zip(vars.iter().skip(1)) {
        assert!(vsids.get_activity(left) < vsids.get_activity(right));
    }

    vsids.bump(vars[0]);
    assert_eq!(vsids.peek(), Some(vars[0]));
}

#[test]
fn dpll_basic() {
    let mut budget = u32::MAX;
    // (1) and (not 1) is unsatisfiable
    assert_eq!(dpll(vec![vec![lit(1)], vec![lit(-1)]], &mut budget), Some(false));
    // (1 or 2) and (not 1 or 2) and (not 2 or 3) is satisfiable
    assert_eq!(
        dpll(vec![vec![lit(1), lit(2)], vec![lit(-1), lit(2)], vec![lit(-2), lit(3)]], &mut budget),
        Some(true)
    );
    // xor-style covering set: every assignment fires some clause
    assert_eq!(
        dpll(
            vec![
                vec![lit(1), lit(2)],
                vec![lit(-1), lit(2)],
                vec![lit(1), lit(-2)],
                vec![lit(-1), lit(-2)],
            ],
            &mut budget
        ),
        Some(false)
    );
}

#[test]
fn dpll_budget_exhaustion() {
    let mut budget = 1;
    let clauses = vec![
        vec![lit(1), lit(2)],
        vec![lit(-1), lit(2)],
        vec![lit(1), lit(-2)],
        vec![lit(-1), lit(-2)],
    ];
    assert_eq!(dpll(clauses.clone(), &mut budget), None);
    assert_eq!(solve_with_sat_solver(&clauses), Some(false));
}

#[test]
fn the_sat_solver_answers_satisfiable_sets() {
    assert_eq!(solve_with_sat_solver(&vec![vec![lit(1), lit(2)], vec![lit(-1)]]), Some(true));
    assert_eq!(solve_with_sat_solver(&vec![]), Some(true));
    assert_eq!(solve_with_sat_solver(&vec![vec![]]), Some(false));
}

#[test]
fn negation() {
    let a = Var::from_dimacs(1);
    let l = Lit::positive(a);
    let neg_l = l.negated();
    assert_ne!(l, neg_l);
    assert_eq!(neg_l, Lit::negative(a));
    assert_eq!(l, neg_l.negated());
}

#[test]
fn max_var() {
    let index = u32::try_from(Var::max_var().as_index()).unwrap();
    let max = Var::from_index(index);
    assert_eq!(max, Var::max_var());
}

#[test]
fn dimacs_numbers_round_trip() {
    for n in [1, -1, 7, -42] {
        assert_eq!(lit(n).to_dimacs(), n);
    }
}

#[test]
fn assignment() {
    let mut assignment = Assignment::new();
    let var1 = Var::from_dimacs(1);
    let lit1 = Lit::positive(var1);
    assert_eq!(assignment.get(var1), None);
    assignment.assign_constant(lit1);
    assert_eq!(assignment.get(var1), Some(Value::True));
}

#[test]
fn assignments_are_constants_or_functions() {
    let mut assignment = Assignment::new();
    assignment.assign_function(lit(-2));
    assignment.assign_constant(lit(-1));
    assert_eq!(assignment.get(Var::from_dimacs(2)), Some(Value::NegativeImplications));
    assert_eq!(assignment.constant_value(lit(1)), Some(false));
    assert_eq!(assignment.constant_value(lit(2)), None);
    assignment.unassign(Var::from_dimacs(1));
    assert!(!assignment.is_assigned(Var::from_dimacs(1)));
}

#[test]
fn reduction_and_sharing_make_it_canonical() {
    let mut bdd = Bdd::new();
    let (x, y) = (bdd.variable(0), bdd.variable(1));
    // x & y and !(!x | !y) must be the same node
    let conj = bdd.and(x, y);
    let (nx, ny) = (bdd.not(x), bdd.not(y));
    let disj = bdd.or(nx, ny);
    let de_morgan = bdd.not(disj);
    assert_eq!(conj, de_morgan);
    // a tautology reduces to the terminal
    let tautology = bdd.or(x, nx);
    assert_eq!(tautology, TRUE);
    let contradiction = bdd.and(x, nx);
    assert_eq!(contradiction, FALSE);
}

#[test]
fn a_truth_table_round_trips() {
    let mut bdd = Bdd::new();
    // xor of three variables, the classic linear-size / hard-to-CNF
    // function
    let table: Vec<bool> = (0..8).map(|i: usize| i.count_ones() % 2 == 1).collect();
    let root = bdd.from_truth_table(&table, 3);
    let built = {
        let vars: Vec<u32> = (0..3).map(|v| bdd.variable(v)).collect();
        let mut acc = FALSE;
        for v in vars {
            // acc xor v
            let (na, nv) = (bdd.not(acc), bdd.not(v));
            let left = bdd.and(acc, nv);
            let right = bdd.and(na, v);
            acc = bdd.or(left, right);
        }
        acc
    };
    assert_eq!(root, built);
    // parity is the standard small-BDD/large-CNF function: one node
    // at the top level, two at each level below it, two terminals
    assert_eq!(bdd.size(root), 2 * 3 + 1);
}

#[test]
fn size_counts_the_function_not_the_package() {
    let mut bdd = Bdd::new();
    let x = bdd.variable(0);
    let y = bdd.variable(3);
    let _unrelated = bdd.and(x, y);
    assert_eq!(bdd.size(x), 3, "one decision node and both terminals");
    assert!(bdd.allocated() > 3);
}

#[test]
fn a_limited_package_gives_up() {
    let mut bdd = Bdd::with_limit(3);
    let _x = bdd.variable(0);
    assert!(!bdd.exceeded());
    let _y = bdd.variable(1);
    assert!(bdd.exceeded());
    assert_eq!(bdd.allocated(), 3);
}

#[test]
fn the_luby_sequence() {
    let sequence: Vec<u32> = (1..=15).map(luby).collect();
    assert_eq!(sequence, vec![1, 1, 2, 1, 1, 2, 4, 1, 1, 2, 1, 1, 2, 4, 8]);
}
