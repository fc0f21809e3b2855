use knapsack::greedy::construction_greedy_inner;
use knapsack::ioutils::{parse_problem_line, parse_solution_line};
use knapsack::model::{Item, Problem, Solution};
use knapsack::pruning::pruning;
use knapsack::solver::{decide_from, Methods, Opts, Solver};
use knapsack::utils::{
    best_valued_item_fit, calc_remaining_cost, calc_remaining_weight, max_cost, max_cost_from_rem,
    sort_by_cost_weight_ratio,
};

fn items(v: &[(u32, u32)]) -> Vec<Item> {
    // (weight, cost)
    v.iter().map(|&(weight, cost)| Item { cost, weight }).collect()
}

#[test]
fn sort_orders_by_ratio_and_drops_heavy_items() {
    let v = items(&[(4, 5), (2, 3), (10, 100), (3, 4), (5, 6)]);
    let (sorted, map) = sort_by_cost_weight_ratio(&v, 5);
    assert_eq!(map, vec![1, 3, 0, 4]);
    assert_eq!(sorted, vec![v[1], v[3], v[0], v[4]]);
}

#[test]
fn sort_breaks_ratio_ties_by_weight_then_position() {
    let v = items(&[(1, 2), (2, 4), (2, 4), (0, 0), (0, 7)]);
    let (_, map) = sort_by_cost_weight_ratio(&v, 10);
    assert_eq!(map, vec![4, 1, 2, 0, 3]);
}

#[test]
fn cost_weight_ratio_is_exact() {
    assert_eq!(Item { cost: 6, weight: 4 }.cost_weight_ratio(), (6, 4));
    assert_eq!(Item { cost: 6, weight: 0 }.cost_weight_ratio(), (1, 0));
    assert_eq!(Item { cost: 0, weight: 0 }.cost_weight_ratio(), (0, 1));
}

#[test]
fn remaining_sums() {
    let v = items(&[(2, 3), (3, 4), (4, 5)]);
    assert_eq!(calc_remaining_weight(&v), vec![9, 7, 4, 0]);
    assert_eq!(calc_remaining_cost(&v), vec![12, 9, 5, 0]);
    assert_eq!(calc_remaining_cost(&[]), vec![0]);
}

#[test]
fn fractional_bound() {
    // ratio-sorted: (2,3) (3,4) (4,5)
    let v = items(&[(2, 3), (3, 4), (4, 5)]);
    let rc = calc_remaining_cost(&v);
    let rw = calc_remaining_weight(&v);
    // whole first two (weight 5, cost 7), then 2 of 4 weight of the third: 5 * 2 / 4 = 2
    assert_eq!(max_cost_from_rem(&rc, &rw, 7), 9);
    assert_eq!(max_cost_from_rem(&rc, &rw, 9), 12);
    assert_eq!(max_cost_from_rem(&rc, &rw, 100), 12);
    // one of two weight units of the first item: 3 * 1 / 2 = 1
    assert_eq!(max_cost_from_rem(&rc, &rw, 1), 1);
    assert_eq!(max_cost_from_rem(&rc, &rw, 0), 0);
    assert_eq!(max_cost(&v, 7), 9);
}

#[test]
fn best_single_item() {
    let v = items(&[(5, 6), (9, 50), (2, 6), (1, 2)]);
    assert_eq!(best_valued_item_fit(&v, 5), (6, 0));
    assert_eq!(best_valued_item_fit(&v, 9), (50, 1));
    assert_eq!(best_valued_item_fit(&v, 0), (0, 0));
}

#[test]
fn greedy_pass_marks_input_positions() {
    let v = items(&[(2, 3), (3, 4), (4, 5)]);
    let (sel, cost) = construction_greedy_inner(&v, &[2, 0, 1], 3, 6);
    // takes (2,3) and (3,4), skips (4,5); positions 2 and 0
    assert_eq!(sel, vec![true, false, true]);
    assert_eq!(cost, 7);
}

#[test]
fn pruning_keeps_a_better_injected_solution() {
    let p = Problem { id: 4, max_weight: 5, size: 2, min_cost: None, items: items(&[(5, 6), (3, 4)]) };
    let inject = Solution { id: 4, size: 2, cost: 6, items: Some(vec![true, false]) };
    let s = pruning(&p, inject);
    assert_eq!(s.cost, 6);
    assert_eq!(s.items, Some(vec![true, false]));
    let s = pruning(&p, Solution::none(4, 2));
    assert_eq!(s.cost, 6);
}

#[test]
fn decision_from_construction() {
    let p = Problem { id: 2, max_weight: 5, size: 1, min_cost: Some(4), items: items(&[(3, 4)]) };
    let c = Solution { id: 2, size: 1, cost: 4, items: Some(vec![true]) };
    assert_eq!(decide_from(&p, c.clone()), c);
    let p2 = Problem { min_cost: Some(5), ..p.clone() };
    assert_eq!(decide_from(&p2, c), Solution::none(2, 1));
}

fn opts(method: Methods) -> Opts {
    Opts { method, precision: None, force_construction: false, memory_size: None, iterations: None }
}

#[test]
fn selector_requires_parameters() {
    assert!(matches!(Solver::from_opts(&opts(Methods::Naive)), Ok(Solver::Naive(_))));
    assert!(Solver::from_opts(&opts(Methods::FTPAS)).is_err());
    assert!(Solver::from_opts(&opts(Methods::ApproxPruning)).is_err());
    assert!(Solver::from_opts(&opts(Methods::TabuSearch)).is_err());
    let mut o = opts(Methods::TabuSearch);
    o.memory_size = Some(3);
    assert!(Solver::from_opts(&o).is_err());
    o.iterations = Some(10);
    assert!(matches!(Solver::from_opts(&o), Ok(Solver::TabuSearch(_))));
    o.memory_size = Some(0);
    assert!(matches!(Solver::from_opts(&o), Ok(Solver::TabuSearch(_))));
    let mut o = opts(Methods::FTPAS);
    o.precision = Some(0);
    assert!(Solver::from_opts(&o).is_err());
    o.precision = Some(4);
    match Solver::from_opts(&o) {
        Ok(Solver::FTPAS(s)) => assert_eq!(s.gcd, 4),
        _ => panic!("expected the scaling solver"),
    }
}

#[test]
fn exactness_of_strategies() {
    assert!(Solver::from_opts(&opts(Methods::DynamicCost)).unwrap().is_exact());
    assert!(Solver::from_opts(&opts(Methods::Pruning)).unwrap().is_exact());
    assert!(!Solver::from_opts(&opts(Methods::Redux)).unwrap().is_exact());
    assert!(!Solver::from_opts(&opts(Methods::Greedy)).unwrap().is_exact());
}

#[test]
fn parse_construction_problem_line() {
    let p = parse_problem_line("9000 4 100  18 114 42 136 88 192 3 223").unwrap();
    assert_eq!(p.id, 9000);
    assert_eq!(p.size, 4);
    assert_eq!(p.max_weight, 100);
    assert_eq!(p.min_cost, None);
    assert_eq!(p.items, items(&[(18, 114), (42, 136), (88, 192), (3, 223)]));
}

#[test]
fn parse_decision_problem_line() {
    let p = parse_problem_line("-7 2 10 50 1 2 3 4").unwrap();
    assert_eq!(p.id, 7);
    assert_eq!(p.min_cost, Some(50));
    assert_eq!(p.items, items(&[(1, 2), (3, 4)]));
}

#[test]
fn parse_problem_line_errors() {
    assert!(parse_problem_line("0 1 10 1 1").is_err());
    assert!(parse_problem_line("1 2 10 1 1").is_err());
    assert!(parse_problem_line("1 1 10 1 1 5").is_err());
    assert!(parse_problem_line("1 1 10 x 1").is_err());
    assert!(parse_problem_line("1 1 4294967296 1 1").is_err());
    assert!(parse_problem_line("").is_err());
}

#[test]
fn parse_solution_lines() {
    let s = parse_solution_line("9000 4 473 1 0 0 1").unwrap();
    assert_eq!(s, Solution { id: 9000, size: 4, cost: 473, items: Some(vec![true, false, false, true]) });
    assert!(parse_solution_line("1 2 3 1").is_err());
    assert!(parse_solution_line("1 1 3 2").is_err());
    assert!(parse_solution_line("1 1 3 1 1").is_err());
}

#[test]
fn next_number_moves_past_the_token() {
    let line = b"  12 abc 7";
    let mut pos = 0usize;
    assert_eq!(knapsack::ioutils::next_parse_with_err(line, &mut pos, 100), Ok(12));
    assert_eq!(pos, 4);
    assert!(knapsack::ioutils::next_parse_with_err(line, &mut pos, 100).is_err());
    assert_eq!(knapsack::ioutils::next_parse_with_err(line, &mut pos, 5).is_err(), true);
    assert!(knapsack::ioutils::next_parse_with_err(line, &mut pos, 100).is_err());
}

#[test]
fn method_names() {
    assert!(matches!(Methods::from_name("tabu-search"), Ok(Methods::TabuSearch)));
    assert!(matches!(Methods::from_name("dynamic-cost"), Ok(Methods::DynamicCost)));
    assert!(Methods::from_name("nope").is_err());
}

#[test]
fn well_formed_problems() {
    let p = Problem { id: 1, max_weight: 5, size: 2, min_cost: None, items: items(&[(1, 2), (3, 4)]) };
    assert!(p.is_wf());
    let q = Problem { size: 3, ..p.clone() };
    assert!(!q.is_wf());
    let r = Problem { id: 1, max_weight: 5, size: 2, min_cost: None, items: items(&[(u32::MAX, 1), (1, 1)]) };
    assert!(!r.is_wf());
}

#[test]
fn parse_decision_line_example() {
    let p = parse_problem_line("-7 2 10 9 3 5 4 6").unwrap();
    assert_eq!(p.id, 7);
    assert_eq!(p.max_weight, 10);
    assert_eq!(p.size, 2);
    assert_eq!(p.min_cost, Some(9));
    assert_eq!(p.items, items(&[(3, 5), (4, 6)]));
}

#[test]
fn parse_solution_line_example() {
    let s = parse_solution_line("3 4 7 1 1 0 0").unwrap();
    assert_eq!(s, Solution { id: 3, size: 4, cost: 7, items: Some(vec![true, true, false, false]) });
}

#[test]
fn numbers_may_carry_a_plus_sign() {
    let p = parse_problem_line("+3 1 +10 2 +4").unwrap();
    assert_eq!(p.id, 3);
    assert_eq!(p.max_weight, 10);
    assert_eq!(p.items, items(&[(2, 4)]));
    assert!(parse_problem_line("-+3 1 10 5 2 4").is_err());
    assert!(parse_problem_line("+ 1 10 2 4").is_err());
    let s = parse_solution_line("+1 +1 +4 1").unwrap();
    assert_eq!(s, Solution { id: 1, size: 1, cost: 4, items: Some(vec![true]) });
}
