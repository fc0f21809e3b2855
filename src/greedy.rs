//! Takes items in ratio order while they fit.
use vstd::prelude::*;
use crate::model::{
    carries, is_reindexing, lemma_range_last, lemma_reindex, lemma_suffix_mono, range_cost,
    range_weight, sel_cost, sel_weight, suffix_cost, Item, Problem, Solution,
};
use crate::solver::SolverTrait;
use crate::utils::{
    lemma_index_map_reindexing, lemma_reindexed_totals, ratio_sorted, sort_by_cost_weight_ratio,
};

verus! {

/// One greedy pass over the ratio-sorted items.
#[derive(Debug, Clone)]
pub struct GreedySolver();

/// Capacity left when the greedy pass over `items` reaches `items[k]`.
pub open spec fn greedy_rem(items: Seq<Item>, cap: int, k: int) -> int
    decreases k,
{
    if k <= 0 {
        cap
    } else {
        let r = greedy_rem(items, cap, k - 1);
        if items[k - 1].weight <= r { r - items[k - 1].weight } else { r }
    }
}

/// Which of `items` the greedy pass takes.
pub open spec fn greedy_taken(items: Seq<Item>, cap: int) -> Seq<bool> {
    Seq::new(items.len(), |k: int| items[k].weight <= greedy_rem(items, cap, k))
}

/// The cost that the greedy pass reaches on a problem.
pub open spec fn greedy_value(items: Seq<Item>, cap: int) -> int {
    let (s, m) = ratio_sorted(items, cap, items.len() as int);
    range_cost(s, greedy_taken(s, cap), 0, s.len() as int)
}

/// Runs the greedy pass over `items`, in their order, and marks each taken
/// item at its position `mappings[i]` of a selection of `size` entries.
pub fn construction_greedy_inner(
    items: &[Item],
    mappings: &[usize],
    size: usize,
    max_weight: u32,
) -> (r: (Vec<bool>, u32))
    requires
        mappings@.len() == items@.len(),
        forall|q: int| 0 <= q < mappings@.len() ==> mappings@[q] < size,
        forall|q1: int, q2: int| 0 <= q1 < mappings@.len() && 0 <= q2 < mappings@.len() && q1
            != q2 ==> mappings@[q1] != mappings@[q2],
        suffix_cost(items@, 0) <= u32::MAX,
    ensures
        r.0@.len() == size,
        carries(mappings@, greedy_taken(items@, max_weight as int), r.0@, items@.len() as int),
        r.1 == range_cost(items@, greedy_taken(items@, max_weight as int), 0, items@.len() as int),
        range_weight(items@, greedy_taken(items@, max_weight as int), 0, items@.len() as int)
            <= max_weight,
{
    let ghost taken = greedy_taken(items@, max_weight as int);
    let mut sel = vec![false; size];
    let mut rem_weight: u32 = max_weight;
    let mut cost: u32 = 0;
    let mut i: usize = 0;
    while i < items.len()
        invariant
            i <= items@.len() == mappings@.len(),
            sel@.len() == size,
            forall|q: int| 0 <= q < mappings@.len() ==> mappings@[q] < size,
            forall|q1: int, q2: int| 0 <= q1 < mappings@.len() && 0 <= q2 < mappings@.len() && q1
                != q2 ==> mappings@[q1] != mappings@[q2],
            suffix_cost(items@, 0) <= u32::MAX,
            taken == greedy_taken(items@, max_weight as int),
            rem_weight == greedy_rem(items@, max_weight as int, i as int),
            cost == range_cost(items@, taken, 0, i as int),
            range_weight(items@, taken, 0, i as int) == max_weight - rem_weight,
            cost + suffix_cost(items@, i as int) <= suffix_cost(items@, 0),
            carries(mappings@, taken, sel@, i as int),
        decreases items@.len() - i,
    {
        let item = items[i];
        proof {
            lemma_range_last(items@, taken, 0, i + 1);
            lemma_suffix_mono(items@, 0, i + 1);
        }
        if rem_weight >= item.weight {
            let ghost before = sel@;
            sel.set(mappings[i], true);
            rem_weight = rem_weight - item.weight;
            cost = cost + item.cost;
            proof {
                assert forall|j: int| 0 <= j < sel@.len() && sel@[j] implies exists|q: int|
                    0 <= q < i + 1 && mappings@[q] == j by {
                    if j != mappings@[i as int] {
                        assert(before[j]);
                    } else {
                        assert(mappings@[i as int] == j);
                    }
                }
            }
        }
        i = i + 1;
    }
    (sel, cost)
}

impl SolverTrait for GreedySolver {
    open spec fn valid(&self) -> bool {
        true
    }

    fn construction(&self, problem: &Problem) -> (r: Solution)
        ensures
            r.items is Some,
            r.cost == greedy_value(problem.items@, problem.max_weight as int),
            // exactly the items that the pass takes, at their input positions
            ({
                let (s, m) = ratio_sorted(problem.items@, problem.max_weight as int, problem.items@.len() as int);
                carries(m, greedy_taken(s, problem.max_weight as int), r.items->0@, s.len() as int)
            }),
    {
        let (items, mappings) = sort_by_cost_weight_ratio(&problem.items, problem.max_weight);
        proof {
            lemma_index_map_reindexing(problem.items@, items@, mappings@, problem.max_weight as int);
            lemma_reindexed_totals(problem.items@, items@, mappings@);
        }
        let (sel, cost) = construction_greedy_inner(&items, &mappings, problem.size, problem.max_weight);
        proof {
            let taken = greedy_taken(items@, problem.max_weight as int);
            lemma_reindex(problem.items@, items@, mappings@, taken, sel@, items@.len() as int);
        }
        Solution { id: problem.id, size: problem.size, cost, items: Some(sel) }
    }
}

} // verus!
