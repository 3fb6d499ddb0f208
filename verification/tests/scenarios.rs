use cnf_cardinality::{add_at_most_one, add_exactly_one, exactly_k, make_sorting_network, Lit};
use varisat::{CnfFormula, ExtendFormula, Solver};

fn new_lits(formula: &mut CnfFormula, count: usize) -> Vec<Lit> {
    formula
        .new_lit_iter(count)
        .map(|lit| Lit { var: lit.index(), positive: lit.is_positive() })
        .collect()
}

fn add_unit(formula: &mut CnfFormula, lit: Lit) {
    formula.add_clause(&[varisat::Lit::from_index(lit.var, lit.positive)]);
}

fn solve_print(formula: &CnfFormula) -> bool {
    let mut solver = Solver::new();
    solver.add_formula(formula);
    let res = solver.solve().unwrap();
    if res {
        println!("{:?}", solver.model().unwrap());
    }
    res
}

#[test]
fn basic_test() {
    let mut formula = CnfFormula::new();
    let lits = new_lits(&mut formula, 4);
    let (a, b, c, d) = (lits[0], lits[1], lits[2], lits[3]);
    add_exactly_one(&mut formula, &[a, b, c, d]).unwrap();
    assert!(solve_print(&formula));
}

#[test]
fn exact_k_test() {
    let mut formula = CnfFormula::new();
    let lits = new_lits(&mut formula, 10);
    exactly_k(&mut formula, &lits, 9).unwrap();
    let res = solve_print(&formula);
    println!("solution is {}", res);
    assert!(res)
}

#[test]
fn small_sort_test() {
    let mut formula = CnfFormula::new();
    let lits = new_lits(&mut formula, 20);
    let sorted_lits = make_sorting_network(&mut formula, &lits).unwrap();
    println!("output lits are {:?}", sorted_lits);
    add_unit(&mut formula, sorted_lits[3]);
    add_unit(&mut formula, sorted_lits[2].negate());
    let res = solve_print(&formula);
    println!("solution is {}", res);
    assert!(res)
}

#[test]
fn sort_test_unsat() {
    let mut formula = CnfFormula::new();
    let lits = new_lits(&mut formula, 20);
    add_unit(&mut formula, lits[2]);
    add_unit(&mut formula, lits[7]);
    add_unit(&mut formula, lits[19]);
    add_unit(&mut formula, lits[4]);
    let sorted_lits = make_sorting_network(&mut formula, &lits).unwrap();
    println!("output lits are {:?}", sorted_lits);
    add_unit(&mut formula, sorted_lits[16].negate());
    let res = solve_print(&formula);
    println!("solution is {}", res);
    assert!(!res);
}

#[test]
fn big_test() {
    let mut formula = CnfFormula::new();
    let lits = new_lits(&mut formula, 10);
    add_exactly_one(&mut formula, &lits).unwrap();
    add_exactly_one(&mut formula, &lits[5..7]).unwrap();
    assert!(solve_print(&formula));
}

#[test]
fn working_overlap() {
    let mut formula = CnfFormula::new();
    let lits = new_lits(&mut formula, 20);
    add_exactly_one(&mut formula, &lits).unwrap();
    add_exactly_one(&mut formula, &lits[5..8]).unwrap();
    add_exactly_one(&mut formula, &lits[7..12]).unwrap();
    assert!(solve_print(&formula));
}

#[test]
fn huge() {
    let mut formula = CnfFormula::new();
    let lits = new_lits(&mut formula, 5000);
    add_exactly_one(&mut formula, &lits).unwrap();
    add_exactly_one(&mut formula, &lits[9..20]).unwrap();
    add_exactly_one(&mut formula, &lits[19..222]).unwrap();
    assert!(solve_print(&formula));
}

#[test]
fn big_unsat_test() {
    let mut formula = CnfFormula::new();
    let lits = new_lits(&mut formula, 10);
    add_exactly_one(&mut formula, &lits).unwrap();
    add_exactly_one(&mut formula, &lits[5..7]).unwrap();
    add_exactly_one(&mut formula, &lits[2..4]).unwrap();
    assert!(!solve_print(&formula));
}

#[test]
fn unsat_test() {
    let mut formula = CnfFormula::new();
    let lits = new_lits(&mut formula, 4);
    let (a, b, c, d) = (lits[0], lits[1], lits[2], lits[3]);
    add_exactly_one(&mut formula, &[a, b, c, d]).unwrap();
    add_exactly_one(&mut formula, &[a, b]).unwrap();
    add_exactly_one(&mut formula, &[c, d]).unwrap();
    assert!(!solve_print(&formula));
}

#[test]
fn empty_soln() {
    let mut formula = CnfFormula::new();
    let lits = new_lits(&mut formula, 4);
    let (a, b, c, d) = (lits[0], lits[1], lits[2], lits[3]);
    add_at_most_one(&mut formula, &[a, b, c, d]).unwrap();
    add_at_most_one(&mut formula, &[a, b]).unwrap();
    add_at_most_one(&mut formula, &[c, d]).unwrap();
    assert!(solve_print(&formula));
}

#[test]
fn med_at_most_one() {
    let mut formula = CnfFormula::new();
    let lits = new_lits(&mut formula, 10);
    add_at_most_one(&mut formula, &lits).unwrap();
    add_unit(&mut formula, lits[4]);
    assert!(solve_print(&formula));
}

#[test]
fn unsat_at_most_one() {
    let mut formula = CnfFormula::new();
    let lits = new_lits(&mut formula, 1000);
    add_at_most_one(&mut formula, &lits).unwrap();
    add_unit(&mut formula, lits[55]);
    add_unit(&mut formula, lits[337]);
    assert!(!solve_print(&formula));
}
