//! General properties of the problem and of the strategies' results.
use vstd::prelude::*;
use crate::model::{
    feasible, lemma_opt_upper, lemma_range_le_suffix, opt, range_cost, range_weight, sel_cost,
    Item, Problem, Solution,
};

verus! {

/// A reported selection is never worth more than the optimum: every
/// strategy's cost is bounded by the exact answer.
pub proof fn lemma_answer_le_optimum(p: &Problem, s: &Solution)
    requires
        s.selection_ok(p),
    ensures
        s.cost <= p.optimum(),
{
    crate::model::lemma_opt_nonneg(p.items@, 0, p.max_weight as int);
    match s.items {
        Some(sel) => {
            lemma_opt_upper(p.items@, sel@, 0, p.max_weight as int);
        },
        None => {},
    }
}

/// Without items the optimum is zero.
pub proof fn lemma_no_items(items: Seq<Item>, cap: int)
    requires
        items.len() == 0,
        cap >= 0,
    ensures
        opt(items, 0, cap) == 0,
{
}

proof fn lemma_zero_budget(items: Seq<Item>, i: int)
    requires
        0 <= i <= items.len(),
        forall|j: int| 0 <= j < items.len() ==> items[j].weight > 0,
    ensures
        opt(items, i, 0) == 0,
    decreases items.len() - i,
{
    if i < items.len() {
        lemma_zero_budget(items, i + 1);
        assert(opt(items, i + 1, 0 - items[i].weight) == -1);
    }
}

proof fn lemma_zero_weight_selects_nothing(items: Seq<Item>, sel: Seq<bool>, lo: int)
    requires
        0 <= lo <= items.len(),
        forall|j: int| 0 <= j < items.len() ==> items[j].weight > 0,
        range_weight(items, sel, lo, items.len() as int) <= 0,
    ensures
        forall|j: int| lo <= j < items.len() ==> !sel[j],
        range_cost(items, sel, lo, items.len() as int) == 0,
    decreases items.len() - lo,
{
    if lo < items.len() {
        lemma_range_le_suffix(items, sel, lo + 1);
        lemma_zero_weight_selects_nothing(items, sel, lo + 1);
    }
}

/// With no capacity and items that all weigh something, the optimum is zero
/// and every reported selection is empty.
pub proof fn lemma_zero_capacity(p: &Problem, s: &Solution)
    requires
        p.max_weight == 0,
        forall|j: int| 0 <= j < p.items@.len() ==> p.items@[j].weight > 0,
        s.answers(p),
    ensures
        p.optimum() == 0,
        s.cost == 0,
        s.items is Some ==> forall|j: int| 0 <= j < p.items@.len() ==> !s.items->0@[j],
{
    lemma_zero_budget(p.items@, 0);
    match s.items {
        Some(sel) => {
            lemma_zero_weight_selects_nothing(p.items@, sel@, 0);
        },
        None => {},
    }
}

} // verus!
