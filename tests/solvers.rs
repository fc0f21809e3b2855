use knapsack::approx_pruning::ApproxPruningSolver;
use knapsack::dynamic_cost::DynamicCostSolver;
use knapsack::dynamic_weight::DynamicWeightSolver;
use knapsack::ftpas::FTPASSolver;
use knapsack::greedy::GreedySolver;
use knapsack::model::{Item, Problem, Solution};
use knapsack::naive::NaiveSolver;
use knapsack::pruning::PruningSolver;
use knapsack::redux::ReduxSolver;
use knapsack::solver::SolverTrait;
use knapsack::tabusearch::TabuSearchSolver;

fn problem(max_weight: u32, items: &[(u32, u32)]) -> Problem {
    // items as (weight, cost)
    Problem {
        id: 1,
        max_weight,
        size: items.len(),
        min_cost: None,
        items: items.iter().map(|&(weight, cost)| Item { cost, weight }).collect(),
    }
}

fn check_answer(p: &Problem, s: &Solution) {
    assert_eq!(s.id, p.id);
    assert_eq!(s.size, p.size);
    match &s.items {
        Some(sel) => {
            assert_eq!(sel.len(), p.items.len());
            let w: u64 = p.items.iter().zip(sel).filter(|(_, &b)| b).map(|(i, _)| i.weight as u64).sum();
            let c: u64 = p.items.iter().zip(sel).filter(|(_, &b)| b).map(|(i, _)| i.cost as u64).sum();
            assert!(w <= p.max_weight as u64, "selection too heavy");
            assert_eq!(c, s.cost as u64, "cost differs from selection");
        }
        None => assert_eq!(s.cost, 0),
    }
}

fn brute_force(p: &Problem) -> u32 {
    brute_force_with_count(p).0
}

/// The optimum and the number of items of one selection that reaches it.
fn brute_force_with_count(p: &Problem) -> (u32, u32) {
    let n = p.items.len();
    let mut best = 0u64;
    let mut best_count = 0u32;
    for mask in 0u32..(1u32 << n) {
        let (mut w, mut c) = (0u64, 0u64);
        for i in 0..n {
            if mask & (1 << i) != 0 {
                w += p.items[i].weight as u64;
                c += p.items[i].cost as u64;
            }
        }
        if w <= p.max_weight as u64 && c > best {
            best = c;
            best_count = mask.count_ones();
        }
    }
    (best as u32, best_count)
}

fn all_solutions(p: &Problem) -> Vec<(&'static str, Solution)> {
    vec![
        ("naive", NaiveSolver().construction(p)),
        ("pruning", PruningSolver().construction(p)),
        ("dynamic-weight", DynamicWeightSolver().construction(p)),
        ("dynamic-cost", DynamicCostSolver().construction(p)),
        ("greedy", GreedySolver().construction(p)),
        ("redux", ReduxSolver().construction(p)),
        ("ftpas", FTPASSolver { gcd: 3 }.construction(p)),
        ("approx-pruning", ApproxPruningSolver { precision: 10 }.construction(p)),
        ("tabu-search", TabuSearchSolver { memory_size: 5, iterations: 50 }.construction(p)),
    ]
}

/// A small deterministic generator of instances.
fn instances() -> Vec<Problem> {
    let mut seed: u64 = 12345;
    let mut next = move |m: u64| {
        seed = seed.wrapping_mul(6364136223846793005).wrapping_add(1442695040888963407);
        (seed >> 33) % m
    };
    let mut out = Vec::new();
    for k in 0..40 {
        let n = (k % 12) as usize + 1;
        let items: Vec<(u32, u32)> = (0..n).map(|_| (next(30) as u32, next(50) as u32)).collect();
        let cap = next(80) as u32;
        out.push(problem(cap, &items));
    }
    out
}

#[test]
fn concrete_scenario_exact_solvers() {
    let p = problem(5, &[(2, 3), (3, 4), (4, 5), (5, 6)]);
    for s in [
        NaiveSolver().construction(&p),
        PruningSolver().construction(&p),
        DynamicWeightSolver().construction(&p),
        DynamicCostSolver().construction(&p),
    ] {
        check_answer(&p, &s);
        assert_eq!(s.cost, 7);
        assert_eq!(s.items, Some(vec![true, true, false, false]));
    }
}

#[test]
fn concrete_scenario_heuristics() {
    let p = problem(5, &[(2, 3), (3, 4), (4, 5), (5, 6)]);
    // in ratio order the first two items fit together
    let g = GreedySolver().construction(&p);
    check_answer(&p, &g);
    assert_eq!(g.cost, 7);
    let r = ReduxSolver().construction(&p);
    check_answer(&p, &r);
    assert_eq!(r.cost, 7);
}

#[test]
fn every_solution_fits_and_is_consistent() {
    for p in instances() {
        for (name, s) in all_solutions(&p) {
            check_answer(&p, &s);
            assert!(s.cost <= brute_force(&p), "{} beats the optimum", name);
        }
    }
}

#[test]
fn exact_solvers_agree() {
    for p in instances() {
        let opt = brute_force(&p);
        assert_eq!(NaiveSolver().construction(&p).cost, opt);
        assert_eq!(PruningSolver().construction(&p).cost, opt);
        assert_eq!(DynamicWeightSolver().construction(&p).cost, opt);
        assert_eq!(DynamicCostSolver().construction(&p).cost, opt);
    }
}

#[test]
fn redux_bound() {
    for p in instances() {
        let g = GreedySolver().construction(&p);
        let r = ReduxSolver().construction(&p);
        let best_single = p.items.iter().filter(|i| i.weight <= p.max_weight).map(|i| i.cost).max().unwrap_or(0);
        assert!(r.cost >= g.cost);
        assert!(r.cost >= best_single);
        assert!(2 * r.cost >= brute_force(&p));
    }
}

#[test]
fn redux_two_approximation_adversarial() {
    let mut items = vec![(100, 100)];
    items.extend(std::iter::repeat((1, 2)).take(1));
    let p = problem(100, &items);
    let g = GreedySolver().construction(&p);
    assert_eq!(g.cost, 2);
    let r = ReduxSolver().construction(&p);
    assert_eq!(r.cost, 100);
    assert!(2 * r.cost >= NaiveSolver().construction(&p).cost);
}

#[test]
fn ftpas_error_bound() {
    for p in instances() {
        for k in [1u32, 2, 5, 10] {
            let s = FTPASSolver { gcd: k }.construction(&p);
            check_answer(&p, &s);
            let (opt, taken) = brute_force_with_count(&p);
            assert!(opt - s.cost <= k * taken, "k={} opt={} got={}", k, opt, s.cost);
        }
    }
}

#[test]
fn ftpas_error_counts_the_optimal_selection() {
    // one heavy item and ten light ones; the light ones are optimal together
    let mut items = vec![(10, 19)];
    items.extend(std::iter::repeat((1, 9)).take(10));
    let p = problem(10, &items);
    let s = FTPASSolver { gcd: 10 }.construction(&p);
    check_answer(&p, &s);
    assert!(90 - s.cost <= 10 * 10);
}

#[test]
fn ftpas_with_divisor_one_is_exact() {
    for p in instances() {
        assert_eq!(FTPASSolver { gcd: 1 }.construction(&p).cost, brute_force(&p));
    }
}

#[test]
fn decision_mode() {
    let mut p = problem(5, &[(2, 3), (3, 4), (4, 5), (5, 6)]);
    p.min_cost = Some(7);
    let s = NaiveSolver().decision(&p);
    assert_eq!(s.cost, 7);
    assert!(s.items.is_some());
    p.min_cost = Some(8);
    let s = NaiveSolver().decision(&p);
    assert_eq!(s.cost, 0);
    assert!(s.items.is_none());
}

#[test]
fn degenerate_zero_capacity() {
    let p = problem(0, &[(2, 3), (3, 4)]);
    for (_, s) in all_solutions(&p) {
        check_answer(&p, &s);
        assert_eq!(s.cost, 0);
        if let Some(sel) = &s.items {
            assert!(sel.iter().all(|&b| !b));
        }
    }
}

#[test]
fn degenerate_no_items() {
    let p = problem(10, &[]);
    for (_, s) in all_solutions(&p) {
        check_answer(&p, &s);
        assert_eq!(s.cost, 0);
    }
}

#[test]
fn zero_weight_items_are_taken() {
    let p = problem(0, &[(0, 5), (1, 3)]);
    assert_eq!(NaiveSolver().construction(&p).cost, 5);
    assert_eq!(DynamicWeightSolver().construction(&p).cost, 5);
    assert_eq!(PruningSolver().construction(&p).cost, 5);
    assert_eq!(DynamicCostSolver().construction(&p).cost, 5);
}

#[test]
fn weight_dp_divides_by_common_weight() {
    // weights share the divisor 2; capacity 9 holds only one of them
    let p = problem(9, &[(4, 5), (6, 7)]);
    let s = DynamicWeightSolver().construction(&p);
    check_answer(&p, &s);
    assert_eq!(s.cost, 7);
}

#[test]
fn cost_dp_divides_by_common_cost() {
    let p = problem(10, &[(4, 6), (6, 9), (5, 12)]);
    let s = DynamicCostSolver().construction(&p);
    check_answer(&p, &s);
    assert_eq!(s.cost, 18);
}

#[test]
fn tabu_search_feasible() {
    for p in instances() {
        for (m, it) in [(1usize, 0usize), (1, 10), (3, 30), (10, 100)] {
            let s = TabuSearchSolver { memory_size: m, iterations: it }.construction(&p);
            check_answer(&p, &s);
            if it == 0 {
                assert!(s.items.is_none());
            }
        }
    }
}

#[test]
fn tabu_search_without_a_fitting_state() {
    let p = problem(1, &[(5, 3), (5, 4)]);
    let s = TabuSearchSolver { memory_size: 2, iterations: 1 }.construction(&p);
    assert_eq!(s.cost, 0);
    assert!(s.items.is_none());
    let s = TabuSearchSolver { memory_size: 2, iterations: 2 }.construction(&p);
    check_answer(&p, &s);
    assert_eq!(s.items, Some(vec![false, false]));
}

#[test]
fn tabu_search_observes_its_start_state() {
    // no items: the empty start state fits
    let p = problem(10, &[]);
    let s = TabuSearchSolver { memory_size: 2, iterations: 1 }.construction(&p);
    assert_eq!(s.cost, 0);
    assert_eq!(s.items, Some(vec![]));
    // everything fits: the start state takes everything
    let p = problem(10, &[(2, 3), (3, 4)]);
    let s = TabuSearchSolver { memory_size: 2, iterations: 1 }.construction(&p);
    check_answer(&p, &s);
    assert_eq!(s.cost, 7);
}

#[test]
fn tabu_search_without_memory() {
    for p in instances() {
        let s = TabuSearchSolver { memory_size: 0, iterations: 20 }.construction(&p);
        check_answer(&p, &s);
    }
}

#[test]
fn tabu_search_finds_the_optimum_of_the_scenario() {
    let p = problem(5, &[(2, 3), (3, 4), (4, 5), (5, 6)]);
    let s = TabuSearchSolver { memory_size: 3, iterations: 20 }.construction(&p);
    check_answer(&p, &s);
    assert!(s.cost >= 6);
}

#[test]
fn approx_pruning_within_precision() {
    for p in instances() {
        let s = ApproxPruningSolver { precision: 100 }.construction(&p);
        check_answer(&p, &s);
        let opt = brute_force(&p) as u64;
        assert!((s.cost as u64) * 101 >= opt * 100);
        let s = ApproxPruningSolver { precision: 1 }.construction(&p);
        assert!((s.cost as u64) * 2 >= opt);
    }
}

#[test]
fn solution_builders() {
    let e = Solution::empty(3, 2);
    assert_eq!(e, Solution { id: 3, size: 2, cost: 0, items: Some(vec![false, false]) });
    let n = Solution::none(3, 2);
    assert_eq!(n, Solution { id: 3, size: 2, cost: 0, items: None });
}
