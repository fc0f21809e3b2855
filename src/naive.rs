//! Exhaustive search over every include/exclude choice.
use vstd::prelude::*;
use crate::model::{
    lemma_opt_nonneg, lemma_range_agree, lemma_range_none, lemma_suffix_nonneg, opt, range_cost, range_weight, suffix_cost, suffix_weight,
    Item, Problem, Solution,
};
use crate::solver::SolverTrait;

verus! {

/// Tries every subset of the items.
#[derive(Debug, Clone)]
pub struct NaiveSolver();

/// Explores both choices for `items[index]` and everything after it, given
/// the cost and weight taken so far and the best cost known. Where a better
/// cost is found, the choices that reach it are written into `sel[index..]`.
fn naive_rec(
    items: &Vec<Item>,
    max_weight: u32,
    sel: &mut Vec<bool>,
    cost: u32,
    weight: u32,
    index: usize,
    best_cost: u32,
) -> (r: u32)
    requires
        index <= items.len(),
        old(sel).len() == items.len(),
        cost + suffix_cost(items@, index as int) <= suffix_cost(items@, 0) <= u32::MAX,
        weight + suffix_weight(items@, index as int) <= suffix_weight(items@, 0) <= u32::MAX,
    ensures
        ({
            let o = opt(items@, index as int, max_weight - weight);
            r == if o >= 0 && cost + o > best_cost { cost + o } else { best_cost as int }
        }),
        final(sel).len() == items.len(),
        r == best_cost ==> final(sel)@ == old(sel)@,
        r > best_cost ==> {
            &&& forall|j: int| 0 <= j < index ==> final(sel)@[j] == old(sel)@[j]
            &&& range_cost(items@, final(sel)@, index as int, items.len() as int) == r - cost
            &&& range_weight(items@, final(sel)@, index as int, items.len() as int)
                <= max_weight - weight
        },
    decreases items.len() - index,
{
    if index < items.len() {
        let it = items[index];
        proof {
            lemma_suffix_nonneg(items@, index as int + 1);
            assert(suffix_cost(items@, index as int) == it.cost + suffix_cost(items@, index as int + 1));
            assert(suffix_weight(items@, index as int) == it.weight + suffix_weight(items@, index as int + 1));
        }
        let best_with_item = naive_rec(
            items,
            max_weight,
            sel,
            cost + it.cost,
            weight + it.weight,
            index + 1,
            best_cost,
        );
        let ghost after_with = sel@;
        let best_so_far = if best_with_item > best_cost { best_with_item } else { best_cost };
        let best_without_item = naive_rec(items, max_weight, sel, cost, weight, index + 1, best_so_far);
        let m = if best_without_item > best_so_far { best_without_item } else { best_so_far };
        proof {
            if max_weight - weight >= 0 {
                lemma_opt_nonneg(items@, index as int + 1, max_weight - weight);
            }
        }
        if m == best_cost {
            best_cost
        } else if m == best_with_item {
            let ghost before = sel@;
            sel.set(index, true);
            proof {
                lemma_range_agree(items@, before, sel@, index as int + 1, items.len() as int);
            }
            best_with_item
        } else {
            let ghost before = sel@;
            sel.set(index, false);
            proof {
                lemma_range_agree(items@, before, sel@, index as int + 1, items.len() as int);
            }
            best_without_item
        }
    } else if weight <= max_weight {
        if cost > best_cost { cost } else { best_cost }
    } else {
        best_cost
    }
}

impl SolverTrait for NaiveSolver {
    open spec fn valid(&self) -> bool {
        true
    }

    /// The optimum, with a selection that reaches it.
    fn construction(&self, problem: &Problem) -> (r: Solution)
        ensures
            r.items is Some,
            r.cost == problem.optimum(),
    {
        let mut sel = vec![false; problem.items.len()];
        let cost = naive_rec(&problem.items, problem.max_weight, &mut sel, 0, 0, 0, 0);
        proof {
            lemma_opt_nonneg(problem.items@, 0, problem.max_weight as int);
            if cost == 0 {
                lemma_range_none(problem.items@, sel@, 0, sel.len() as int);
            }
        }
        Solution { id: problem.id, size: problem.size, cost, items: Some(sel) }
    }
}

} // verus!
