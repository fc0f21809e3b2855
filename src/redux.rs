//! The better of the greedy pass and the best single item.
use vstd::prelude::*;
use crate::greedy::{greedy_taken, greedy_value, GreedySolver};
use crate::model::carries;
use crate::utils::ratio_sorted;
use crate::model::{lemma_range_none, range_cost, range_weight, Problem, Solution};
use crate::solver::SolverTrait;
use crate::utils::{best_single, best_valued_item_fit};

verus! {

/// Greedy, overruled by the best single item where that is worth more.
#[derive(Debug, Clone)]
pub struct ReduxSolver();

/// The cost that Redux reaches: the larger of the greedy cost and the best
/// single fitting item.
pub open spec fn redux_value(p: &Problem) -> int {
    let g = greedy_value(p.items@, p.max_weight as int);
    let b = best_single(p.items@, p.max_weight as int, p.items@.len() as int);
    if b > g { b } else { g }
}

/// Only position `index` is selected.
pub(crate) fn single_selection(size: usize, index: usize) -> (r: Vec<bool>)
    ensures
        r@.len() == size,
        forall|i: int| 0 <= i < size ==> r@[i] == (i == index),
{
    let mut r: Vec<bool> = Vec::new();
    let mut i: usize = 0;
    while i < size
        invariant
            i <= size,
            r@.len() == i,
            forall|k: int| 0 <= k < i ==> r@[k] == (k == index),
        decreases size - i,
    {
        r.push(i == index);
        i = i + 1;
    }
    r
}

impl SolverTrait for ReduxSolver {
    open spec fn valid(&self) -> bool {
        true
    }

    fn construction(&self, problem: &Problem) -> (r: Solution)
        ensures
            r.items is Some,
            r.cost == redux_value(problem),
            ({
                let items = problem.items@;
                let cap = problem.max_weight as int;
                let (s, m) = ratio_sorted(items, cap, items.len() as int);
                if best_single(items, cap, items.len() as int) > greedy_value(items, cap) {
                    // the first item of the highest cost that fits, alone
                    exists|j: int| {
                        &&& 0 <= j < items.len()
                        &&& items[j].weight <= cap
                        &&& items[j].cost == best_single(items, cap, items.len() as int)
                        &&& (forall|i: int| 0 <= i < j && items[i].weight <= cap ==> items[i].cost < items[j].cost)
                        &&& (forall|i: int| 0 <= i < items.len() ==> r.items->0@[i] == (i == j))
                    }
                } else {
                    carries(m, greedy_taken(s, cap), r.items->0@, s.len() as int)
                }
            }),
    {
        let biggest_item_which_fit = best_valued_item_fit(&problem.items, problem.max_weight);
        let greedy = GreedySolver().construction(problem);
        if biggest_item_which_fit.0 > greedy.cost {
            let idx = biggest_item_which_fit.1;
            let sel = single_selection(problem.size, idx);
            proof {
                let items = problem.items@;
                let n = items.len() as int;
                let rest = sel@.update(idx as int, false);
                assert forall|j: int| 0 <= j < n implies !rest[j] by {}
                lemma_range_none(items, rest, 0, n);
                crate::model::lemma_range_clear(items, sel@, idx as int, 0, n);
            }
            assert(problem.items@[idx as int].cost == biggest_item_which_fit.0);
            Solution { id: problem.id, size: problem.size, cost: biggest_item_which_fit.0, items: Some(sel) }
        } else {
            greedy
        }
    }
}

/// Redux is worth at least as much as the greedy pass and as the best
/// single item that fits.
pub proof fn lemma_redux_bound(p: &Problem)
    ensures
        redux_value(p) >= greedy_value(p.items@, p.max_weight as int),
        redux_value(p) >= best_single(p.items@, p.max_weight as int, p.items@.len() as int),
{
}

} // verus!
