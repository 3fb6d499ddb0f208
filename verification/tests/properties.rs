use cnf_cardinality::commander::commander_var_count;
use cnf_cardinality::network::{network_var_count, small_network_swaps};
use cnf_cardinality::{
    add_at_most_one, add_exactly_one, commander_exactly_one, exactly_k, make_sorting_network,
    EncodeError, Lit, MAX_VAR_COUNT,
};
use varisat::{CnfFormula, ExtendFormula, Solver};

fn new_lits(formula: &mut CnfFormula, count: usize) -> Vec<Lit> {
    formula
        .new_lit_iter(count)
        .map(|lit| Lit { var: lit.index(), positive: lit.is_positive() })
        .collect()
}

fn outside(lit: Lit) -> varisat::Lit {
    varisat::Lit::from_index(lit.var, lit.positive)
}

/// The clauses of the formula in the signed one-based notation.
fn clauses(formula: &CnfFormula) -> Vec<Vec<isize>> {
    formula.iter().map(|clause| clause.iter().map(|lit| lit.to_dimacs()).collect()).collect()
}

/// The literals that give `lits[i]` the value of bit `i` of `bits`.
fn fixing(lits: &[Lit], bits: u32) -> Vec<varisat::Lit> {
    lits.iter()
        .enumerate()
        .map(|(i, lit)| if bits >> i & 1 == 1 { outside(*lit) } else { outside(lit.negate()) })
        .collect()
}

/// A model of the formula in which `lits` have the values given by `bits`,
/// if there is one.
fn model_with(formula: &CnfFormula, lits: &[Lit], bits: u32) -> Option<Vec<varisat::Lit>> {
    let mut solver = Solver::new();
    solver.add_formula(formula);
    for lit in fixing(lits, bits) {
        solver.add_clause(&[lit]);
    }
    if solver.solve().unwrap() {
        solver.model()
    } else {
        None
    }
}

fn a_model(formula: &CnfFormula) -> Option<Vec<varisat::Lit>> {
    let mut solver = Solver::new();
    solver.add_formula(formula);
    if solver.solve().unwrap() {
        solver.model()
    } else {
        None
    }
}

fn true_in(model: &[varisat::Lit], lit: Lit) -> bool {
    model.contains(&outside(lit))
}

fn count_in(model: &[varisat::Lit], lits: &[Lit]) -> usize {
    lits.iter().filter(|lit| true_in(model, **lit)).count()
}

#[test]
fn variable_limit_is_that_of_the_solver() {
    assert_eq!(MAX_VAR_COUNT, varisat::Var::max_count());
    assert_eq!(MAX_VAR_COUNT - 1, varisat::Var::max_var().index());
}

#[test]
fn negation_is_an_involution() {
    let lit = Lit { var: 7, positive: true };
    assert_eq!(lit.negate(), Lit { var: 7, positive: false });
    assert_eq!(lit.negate().negate(), lit);
}

#[test]
fn commander_of_two_adds_these_clauses() {
    let mut formula = CnfFormula::new();
    let lits = new_lits(&mut formula, 2);
    let commander = commander_exactly_one(&mut formula, &lits).unwrap();
    assert_eq!(commander, Lit { var: 2, positive: true });
    assert_eq!(formula.var_count(), 3);
    assert_eq!(clauses(&formula), vec![vec![-2, -1], vec![1, 2, -3], vec![3, -1], vec![3, -2]]);
}

#[test]
fn commander_of_three_excludes_row_by_row() {
    let mut formula = CnfFormula::new();
    let lits = new_lits(&mut formula, 3);
    commander_exactly_one(&mut formula, &lits).unwrap();
    assert_eq!(
        clauses(&formula),
        vec![
            vec![-2, -1],
            vec![-3, -1],
            vec![-3, -2],
            vec![1, 2, 3, -4],
            vec![4, -1],
            vec![4, -2],
            vec![4, -3],
        ]
    );
}

#[test]
fn commander_of_seven_splits_in_three() {
    let mut formula = CnfFormula::new();
    let lits = new_lits(&mut formula, 7);
    let commander = commander_exactly_one(&mut formula, &lits).unwrap();
    // parts of 3, 3 and 1 literals, then the three heads
    assert_eq!(formula.var_count(), 7 + 4);
    assert_eq!(commander, Lit { var: 10, positive: true });
    assert_eq!(formula.len(), 7 + 7 + 2 + 7);
    let all = clauses(&formula);
    assert_eq!(all[3], vec![1, 2, 3, -8]);
    assert_eq!(all[10], vec![4, 5, 6, -9]);
    assert_eq!(all[14], vec![7, -10]);
    assert_eq!(all[19], vec![8, 9, 10, -11]);
}

#[test]
fn commander_variable_counts() {
    assert_eq!(commander_var_count(0), 1);
    assert_eq!(commander_var_count(5), 1);
    assert_eq!(commander_var_count(6), 4);
    assert_eq!(commander_var_count(7), 4);
    assert_eq!(commander_var_count(18), 13);
}

#[test]
fn exactly_one_adds_the_unit_clause() {
    let mut formula = CnfFormula::new();
    let lits = new_lits(&mut formula, 2);
    add_exactly_one(&mut formula, &lits).unwrap();
    assert_eq!(
        clauses(&formula),
        vec![vec![-2, -1], vec![1, 2, -3], vec![3, -1], vec![3, -2], vec![3]]
    );
}

#[test]
fn at_most_one_adds_the_leaf_implications() {
    let mut formula = CnfFormula::new();
    let lits = new_lits(&mut formula, 2);
    add_at_most_one(&mut formula, &lits).unwrap();
    assert_eq!(
        clauses(&formula),
        vec![vec![-2, -1], vec![1, 2, -3], vec![3, -1], vec![3, -2], vec![3, -1], vec![3, -2]]
    );
}

#[test]
fn gate_has_eight_clauses() {
    let mut formula = CnfFormula::new();
    let lits = new_lits(&mut formula, 2);
    let sorted = make_sorting_network(&mut formula, &lits).unwrap();
    assert_eq!(sorted, vec![Lit { var: 2, positive: true }, Lit { var: 3, positive: true }]);
    assert_eq!(
        clauses(&formula),
        vec![
            vec![1, 2, -3],
            vec![1, 2, -4],
            vec![1, -2, -3],
            vec![1, -2, 4],
            vec![-1, 2, -3],
            vec![-1, 2, 4],
            vec![-1, -2, 3],
            vec![-1, -2, 4],
        ]
    );
}

#[test]
fn network_of_none_or_one_is_the_identity() {
    let mut formula = CnfFormula::new();
    let lits = new_lits(&mut formula, 1);
    assert_eq!(make_sorting_network(&mut formula, &[]).unwrap(), vec![]);
    assert_eq!(make_sorting_network(&mut formula, &lits).unwrap(), lits);
    assert_eq!(formula.var_count(), 1);
    assert_eq!(formula.len(), 0);
}

#[test]
fn small_network_tables() {
    assert_eq!(small_network_swaps(0), vec![]);
    assert_eq!(small_network_swaps(1), vec![]);
    assert_eq!(small_network_swaps(2), vec![(0, 1)]);
    assert_eq!(small_network_swaps(3), vec![(0, 2), (0, 1), (1, 2)]);
    assert_eq!(small_network_swaps(4), vec![(0, 2), (1, 3), (0, 1), (2, 3), (1, 2)]);
    assert_eq!(small_network_swaps(5).len(), 9);
    assert_eq!(small_network_swaps(6).len(), 12);
    assert_eq!(small_network_swaps(7).len(), 16);
    assert_eq!(small_network_swaps(7)[15], (5, 6));
    assert_eq!(small_network_swaps(8), vec![]);
}

#[test]
fn network_variable_counts() {
    assert_eq!(network_var_count(1), Some(0));
    assert_eq!(network_var_count(2), Some(2));
    assert_eq!(network_var_count(4), Some(10));
    assert_eq!(network_var_count(7), Some(32));
    assert_eq!(network_var_count(8), Some(46));
    assert_eq!(network_var_count(9), Some(109));
    assert_eq!(network_var_count(10), Some(108));
    assert_eq!(network_var_count(11), Some(107));
    assert_eq!(network_var_count(13), Some(201));
    assert_eq!(network_var_count(20), Some(450));
    assert_eq!(network_var_count(MAX_VAR_COUNT), None);
    assert_eq!(network_var_count(usize::MAX), None);
}

#[test]
fn network_allocates_what_it_counts() {
    for n in [8usize, 9, 10, 11, 13, 20, 1001] {
        let mut formula = CnfFormula::new();
        let lits = new_lits(&mut formula, n);
        let sorted = make_sorting_network(&mut formula, &lits).unwrap();
        assert_eq!(sorted.len(), n);
        assert_eq!(formula.var_count(), n + network_var_count(n).unwrap());
    }
}

#[test]
fn padding_literals_are_forced_true() {
    let mut formula = CnfFormula::new();
    let lits = new_lits(&mut formula, 10);
    make_sorting_network(&mut formula, &lits).unwrap();
    let all = clauses(&formula);
    assert_eq!(all[0], vec![11]);
    assert_eq!(all[1], vec![12]);
    assert_eq!(all[2].len(), 3);
}

#[test]
fn padding_fills_up_to_a_multiple_of_four() {
    for (n, padding) in [(8usize, 0usize), (9, 3), (10, 2), (11, 1), (12, 0)] {
        let mut formula = CnfFormula::new();
        let lits = new_lits(&mut formula, n);
        make_sorting_network(&mut formula, &lits).unwrap();
        let all = clauses(&formula);
        for i in 0..padding {
            assert_eq!(all[i], vec![(n + i + 1) as isize]);
        }
        assert_eq!(all[padding].len(), 3);
    }
}

#[test]
fn exactly_k_of_four_pins_two_outputs() {
    let mut formula = CnfFormula::new();
    let lits = new_lits(&mut formula, 4);
    exactly_k(&mut formula, &lits, 2).unwrap();
    assert_eq!(formula.var_count(), 14);
    let all = clauses(&formula);
    assert_eq!(all.len(), 42);
    assert_eq!(all[40], vec![-13]);
    assert_eq!(all[41], vec![14]);
}

#[test]
fn exactly_none_and_exactly_all_are_unit_clauses() {
    let mut formula = CnfFormula::new();
    let lits = new_lits(&mut formula, 3);
    exactly_k(&mut formula, &lits, 0).unwrap();
    assert_eq!(clauses(&formula), vec![vec![-1], vec![-2], vec![-3]]);
    let mut formula = CnfFormula::new();
    let lits = new_lits(&mut formula, 3);
    exactly_k(&mut formula, &lits, 3).unwrap();
    assert_eq!(clauses(&formula), vec![vec![1], vec![2], vec![3]]);
    assert_eq!(formula.var_count(), 3);
}

#[test]
fn exactly_one_of_one_is_a_unit_clause() {
    let mut formula = CnfFormula::new();
    let lits = new_lits(&mut formula, 1);
    exactly_k(&mut formula, &lits, 1).unwrap();
    assert_eq!(clauses(&formula), vec![vec![1]]);
}

#[test]
fn exactly_k_with_k_one_is_exactly_one() {
    let mut first = CnfFormula::new();
    let lits = new_lits(&mut first, 9);
    exactly_k(&mut first, &lits, 1).unwrap();
    let mut second = CnfFormula::new();
    let lits = new_lits(&mut second, 9);
    add_exactly_one(&mut second, &lits).unwrap();
    assert!(first == second);
}

#[test]
fn empty_input_is_refused() {
    let mut formula = CnfFormula::new();
    new_lits(&mut formula, 3);
    assert_eq!(add_exactly_one(&mut formula, &[]), Err(EncodeError::EmptyInput));
    assert_eq!(exactly_k(&mut formula, &[], 0), Err(EncodeError::EmptyInput));
    assert_eq!(exactly_k(&mut formula, &[], 1), Err(EncodeError::EmptyInput));
    assert_eq!(formula.var_count(), 3);
    assert_eq!(formula.len(), 0);
}

#[test]
fn count_above_the_length_is_refused() {
    let mut formula = CnfFormula::new();
    let lits = new_lits(&mut formula, 3);
    assert_eq!(exactly_k(&mut formula, &lits, 4), Err(EncodeError::CountOutOfRange));
    assert_eq!(formula.var_count(), 3);
    assert_eq!(formula.len(), 0);
}

#[test]
fn unknown_variable_is_refused() {
    let mut formula = CnfFormula::new();
    let mut lits = new_lits(&mut formula, 3);
    lits.push(Lit { var: 3, positive: true });
    assert_eq!(add_exactly_one(&mut formula, &lits), Err(EncodeError::UnknownVariable));
    assert_eq!(add_at_most_one(&mut formula, &lits), Err(EncodeError::UnknownVariable));
    assert_eq!(commander_exactly_one(&mut formula, &lits), Err(EncodeError::UnknownVariable));
    assert_eq!(make_sorting_network(&mut formula, &lits), Err(EncodeError::UnknownVariable));
    assert_eq!(exactly_k(&mut formula, &lits, 1), Err(EncodeError::UnknownVariable));
    assert_eq!(exactly_k(&mut formula, &lits, 2), Err(EncodeError::UnknownVariable));
    assert_eq!(formula.var_count(), 3);
    assert_eq!(formula.len(), 0);
}

#[test]
fn unit_clauses_take_literals_the_formula_has_not_allocated() {
    let lits = vec![
        Lit { var: 0, positive: true },
        Lit { var: 6, positive: false },
        Lit { var: 2, positive: true },
    ];
    let mut formula = CnfFormula::new();
    assert_eq!(exactly_k(&mut formula, &lits, 0), Ok(()));
    assert_eq!(formula.var_count(), 7);
    assert_eq!(clauses(&formula), vec![vec![-1], vec![7], vec![-3]]);
    let mut formula = CnfFormula::new();
    formula.set_var_count(2);
    assert_eq!(exactly_k(&mut formula, &lits, 3), Ok(()));
    assert_eq!(formula.var_count(), 7);
    assert_eq!(clauses(&formula), vec![vec![1], vec![-7], vec![3]]);
    let mut formula = CnfFormula::new();
    formula.set_var_count(20);
    assert_eq!(exactly_k(&mut formula, &lits, 0), Ok(()));
    assert_eq!(formula.var_count(), 20);
    let model = a_model(&formula).unwrap();
    assert_eq!(count_in(&model, &lits), 0);
}

#[test]
fn literal_beyond_every_formula_is_refused() {
    let lits = vec![Lit { var: 0, positive: true }, Lit { var: MAX_VAR_COUNT, positive: true }];
    let mut formula = CnfFormula::new();
    assert_eq!(exactly_k(&mut formula, &lits, 0), Err(EncodeError::UnknownVariable));
    assert_eq!(exactly_k(&mut formula, &lits, 2), Err(EncodeError::UnknownVariable));
    assert_eq!(formula.var_count(), 0);
    assert_eq!(formula.len(), 0);
    let last = vec![Lit { var: MAX_VAR_COUNT - 1, positive: true }];
    assert_eq!(exactly_k(&mut formula, &last, 1), Ok(()));
    assert_eq!(formula.var_count(), MAX_VAR_COUNT);
}

#[test]
fn full_formula_is_refused() {
    let mut formula = CnfFormula::new();
    let lits = new_lits(&mut formula, 4);
    formula.set_var_count(MAX_VAR_COUNT - 1);
    assert_eq!(commander_exactly_one(&mut formula, &lits[0..2]), Ok(Lit {
        var: MAX_VAR_COUNT - 1,
        positive: true
    }));
    assert_eq!(formula.var_count(), MAX_VAR_COUNT);
    assert_eq!(add_exactly_one(&mut formula, &lits), Err(EncodeError::TooManyVariables));
    assert_eq!(add_at_most_one(&mut formula, &lits), Err(EncodeError::TooManyVariables));
    assert_eq!(make_sorting_network(&mut formula, &lits), Err(EncodeError::TooManyVariables));
    assert_eq!(exactly_k(&mut formula, &lits, 2), Err(EncodeError::TooManyVariables));
    assert_eq!(exactly_k(&mut formula, &lits, 1), Err(EncodeError::TooManyVariables));
    assert_eq!(formula.len(), 4);
    assert_eq!(exactly_k(&mut formula, &lits, 0), Ok(()));
    assert_eq!(formula.len(), 8);
    formula.set_var_count(MAX_VAR_COUNT + 1);
    assert_eq!(exactly_k(&mut formula, &lits, 2), Err(EncodeError::TooManyVariables));
    assert_eq!(formula.len(), 8);
    assert_eq!(exactly_k(&mut formula, &lits, 4), Ok(()));
    assert_eq!(formula.len(), 12);
    assert_eq!(formula.var_count(), MAX_VAR_COUNT + 1);
}

#[test]
fn exactly_one_accepts_just_the_assignments_with_one_true() {
    for n in 1..=8usize {
        let mut formula = CnfFormula::new();
        let lits = new_lits(&mut formula, n);
        add_exactly_one(&mut formula, &lits).unwrap();
        for bits in 0..(1u32 << n) {
            let found = model_with(&formula, &lits, bits);
            assert_eq!(found.is_some(), bits.count_ones() == 1, "n = {}, bits = {:b}", n, bits);
        }
    }
}

#[test]
fn at_most_one_accepts_just_the_assignments_with_none_or_one_true() {
    for n in 0..=8usize {
        let mut formula = CnfFormula::new();
        let lits = new_lits(&mut formula, n);
        add_at_most_one(&mut formula, &lits).unwrap();
        for bits in 0..(1u32 << n) {
            let found = model_with(&formula, &lits, bits);
            assert_eq!(found.is_some(), bits.count_ones() <= 1, "n = {}, bits = {:b}", n, bits);
        }
    }
}

#[test]
fn commander_tells_whether_an_input_is_true() {
    for n in [0usize, 1, 3, 7] {
        let mut formula = CnfFormula::new();
        let lits = new_lits(&mut formula, n);
        let commander = commander_exactly_one(&mut formula, &lits).unwrap();
        for bits in 0..(1u32 << n) {
            match model_with(&formula, &lits, bits) {
                Some(model) => {
                    assert!(bits.count_ones() <= 1);
                    assert_eq!(true_in(&model, commander), bits.count_ones() == 1);
                }
                None => assert!(bits.count_ones() >= 2),
            }
        }
    }
}

#[test]
fn exactly_k_accepts_just_the_assignments_with_k_true() {
    for n in [4usize, 5, 6, 8, 9] {
        for k in 0..=n {
            let mut formula = CnfFormula::new();
            let lits = new_lits(&mut formula, n);
            exactly_k(&mut formula, &lits, k).unwrap();
            for bits in 0..(1u32 << n) {
                let found = model_with(&formula, &lits, bits);
                assert_eq!(
                    found.is_some(),
                    bits.count_ones() as usize == k,
                    "n = {}, k = {}, bits = {:b}",
                    n,
                    k,
                    bits
                );
            }
        }
    }
}

#[test]
fn exactly_k_of_a_thousand() {
    let mut formula = CnfFormula::new();
    let lits = new_lits(&mut formula, 1000);
    exactly_k(&mut formula, &lits, 3).unwrap();
    assert_eq!(network_var_count(1000), Some(872814));
    assert_eq!(formula.var_count(), 1000 + 872814);
    // 160 of the new variables pad lists of 250 and of 126 literals and have
    // one clause each; the others are outputs of gates, four clauses to one
    let padding = 16 * 2 + 64 * 2;
    assert_eq!(formula.len(), 4 * (872814 - padding) + padding + 2);
}

fn contradicting_clause_on(n: usize) {
    let mut formula = CnfFormula::new();
    let lits = new_lits(&mut formula, n);
    exactly_k(&mut formula, &lits, 3).unwrap();
    let model = a_model(&formula).unwrap();
    assert_eq!(count_in(&model, &lits), 3);
    for lit in &lits[0..4] {
        formula.add_clause(&[outside(*lit)]);
    }
    assert!(a_model(&formula).is_none());
}

#[test]
fn exactly_k_and_a_contradicting_clause() {
    contradicting_clause_on(128);
}

#[test]
fn exactly_k_of_an_odd_number_and_a_contradicting_clause() {
    contradicting_clause_on(45);
    contradicting_clause_on(67);
}

#[test]
fn models_have_the_declared_count() {
    for (n, k) in [(10usize, 4usize), (12, 11), (16, 2), (22, 7), (9, 7), (13, 5), (21, 20), (35, 2)] {
        let mut formula = CnfFormula::new();
        let lits = new_lits(&mut formula, n);
        exactly_k(&mut formula, &lits, k).unwrap();
        let model = a_model(&formula).unwrap();
        assert_eq!(count_in(&model, &lits), k);
    }
    let mut formula = CnfFormula::new();
    let lits = new_lits(&mut formula, 30);
    add_exactly_one(&mut formula, &lits).unwrap();
    assert_eq!(count_in(&a_model(&formula).unwrap(), &lits), 1);
    let mut formula = CnfFormula::new();
    let lits = new_lits(&mut formula, 30);
    add_at_most_one(&mut formula, &lits).unwrap();
    assert!(count_in(&a_model(&formula).unwrap(), &lits) <= 1);
}

#[test]
fn network_outputs_are_the_sorted_inputs() {
    for n in [2usize, 3, 5, 7, 8, 9, 10, 11] {
        let mut formula = CnfFormula::new();
        let lits = new_lits(&mut formula, n);
        let sorted = make_sorting_network(&mut formula, &lits).unwrap();
        for bits in 0..(1u32 << n) {
            let model = model_with(&formula, &lits, bits).unwrap();
            let count = bits.count_ones() as usize;
            for i in 0..n {
                assert_eq!(true_in(&model, sorted[i]), i >= n - count, "n = {}, bits = {:b}", n, bits);
            }
        }
    }
}

#[test]
fn forced_inputs_force_the_outputs() {
    for n in [20usize, 21] {
        forced_inputs_force_the_outputs_of(n);
    }
}

fn forced_inputs_force_the_outputs_of(n: usize) {
    for count in 0..=n {
        let mut formula = CnfFormula::new();
        let lits = new_lits(&mut formula, n);
        let sorted = make_sorting_network(&mut formula, &lits).unwrap();
        for (i, lit) in lits.iter().enumerate() {
            formula.add_clause(&[outside(if i < count { *lit } else { lit.negate() })]);
        }
        let model = a_model(&formula).unwrap();
        for i in 0..n {
            assert_eq!(true_in(&model, sorted[i]), i >= n - count);
        }
        if count < n {
            formula.add_clause(&[outside(sorted[n - count - 1])]);
            assert!(a_model(&formula).is_none());
        }
    }
}

#[test]
fn overlapping_constraints_leave_one_shape() {
    let mut formula = CnfFormula::new();
    let lits = new_lits(&mut formula, 5000);
    add_exactly_one(&mut formula, &lits).unwrap();
    add_exactly_one(&mut formula, &lits[9..20]).unwrap();
    add_exactly_one(&mut formula, &lits[19..222]).unwrap();
    let model = a_model(&formula).unwrap();
    assert_eq!(count_in(&model, &lits), 1);
    assert!(true_in(&model, lits[19]));
    formula.add_clause(&[outside(lits[19].negate())]);
    assert!(a_model(&formula).is_none());
}

#[test]
fn network_of_nine_sorts_a_single_false_input() {
    let n = 9usize;
    let mut formula = CnfFormula::new();
    let lits = new_lits(&mut formula, n);
    for (i, lit) in lits.iter().enumerate() {
        formula.add_clause(&[outside(if i == 5 { lit.negate() } else { *lit })]);
    }
    let sorted = make_sorting_network(&mut formula, &lits).unwrap();
    assert_eq!(sorted.len(), 9);
    let model = a_model(&formula).unwrap();
    let outputs: Vec<bool> = sorted.iter().map(|lit| true_in(&model, *lit)).collect();
    assert_eq!(outputs, vec![false, true, true, true, true, true, true, true, true]);
    formula.add_clause(&[outside(sorted[0])]);
    assert!(a_model(&formula).is_none());
}

#[test]
fn exactly_seven_of_nine_rejects_six() {
    let mut formula = CnfFormula::new();
    let lits = new_lits(&mut formula, 9);
    for (i, lit) in lits.iter().enumerate() {
        let forced_true = [0usize, 1, 2, 3, 4, 8].contains(&i);
        formula.add_clause(&[outside(if forced_true { *lit } else { lit.negate() })]);
    }
    exactly_k(&mut formula, &lits, 7).unwrap();
    assert!(a_model(&formula).is_none());
    let mut formula = CnfFormula::new();
    let lits = new_lits(&mut formula, 9);
    exactly_k(&mut formula, &lits, 3).unwrap();
    assert!(model_with(&formula, &lits, 0b1_0001_0000u32).is_none());
    assert!(model_with(&formula, &lits, 0b1_0001_0001u32).is_some());
}

#[test]
fn commander_clause_counts() {
    for (n, expected) in [(1usize, 2usize), (5, 16), (6, 4 + 4 + 4 + 7), (7, 7 + 7 + 2 + 7)] {
        let mut formula = CnfFormula::new();
        let lits = new_lits(&mut formula, n);
        commander_exactly_one(&mut formula, &lits).unwrap();
        assert_eq!(formula.len(), expected);
    }
    let mut formula = CnfFormula::new();
    let lits = new_lits(&mut formula, 5000);
    commander_exactly_one(&mut formula, &lits).unwrap();
    assert!(formula.len() <= 6 * 5000 - 4);
    assert!(formula.var_count() - 5000 <= 5000);
}
