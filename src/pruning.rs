//! Branch-and-bound over the ratio-sorted items.
use vstd::prelude::*;
use crate::model::{
    lemma_range_agree, lemma_range_none, lemma_reindex, lemma_suffix_mono, lemma_suffix_nonneg,
    range_cost, range_weight, suffix_cost, suffix_weight, Item, Problem, Solution,
};
use crate::redux::single_selection;
use crate::solver::SolverTrait;
use crate::bounds::{
    lemma_sorted_opt_ge, lemma_exchange, lemma_later_ratio, lemma_le_div, lemma_opt_witness, lemma_order_around,
    lemma_ratio_cap, lemma_suffix_diff,
};
use crate::model::{lemma_opt_le_suffix, lemma_opt_nonneg, lemma_range_le_suffix, opt};
use crate::utils::{
    frac_value, is_fit_end, ranks_ge, ratio_of,
    best_single, best_valued_item_fit, calc_remaining_cost, calc_remaining_weight, cost_sums,
    frac_bound_from, lemma_index_map_reindexing, lemma_mul_u32_fits, lemma_reindexed_totals,
    lemma_sums_ordered, map_back, sort_by_cost_weight_ratio, weight_sums,
};

verus! {

/// Exact branch-and-bound, seeded with the best single item.
#[derive(Debug, Clone)]
pub struct PruningSolver();

/// The ratio-sorted items of one search, with their suffix sums.
pub(crate) struct SearchTables {
    pub items: Vec<Item>,
    pub rem_weight: Vec<u32>,
    pub rem_cost: Vec<u32>,
    pub max_weight: u32,
    /// 0 for an exact search; otherwise a subtree is cut unless it can beat
    /// the best cost by the factor `(precision + 1) / precision`.
    pub precision: u32,
}

impl SearchTables {
    pub(crate) open spec fn wf(&self) -> bool {
        &&& forall|k: int| 0 <= k < self.items@.len() - 1 ==> ranks_ge(#[trigger] self.items@[k], self.items@[k + 1])
        &&& suffix_cost(self.items@, 0) <= u32::MAX
        &&& suffix_weight(self.items@, 0) <= u32::MAX
        &&& self.rem_cost@ == cost_sums(self.items@)
        &&& self.rem_weight@ == weight_sums(self.items@)
    }
}

/// What a subtree must beat to be explored.
fn prune_threshold(best_cost: u32, precision: u32) -> (r: u64)
    ensures
        r >= best_cost,
        precision == 0 ==> r == best_cost,
        precision > 0 ==> r * precision <= best_cost * (precision + 1),
{
    if precision == 0 {
        best_cost as u64
    } else {
        let ghost b = best_cost as int;
        let ghost p = precision as int;
        assert(b * (p + 1) <= (u32::MAX as int) * (u32::MAX as int + 1)) by (nonlinear_arith)
            requires
                0 <= b <= u32::MAX,
                1 <= p <= u32::MAX,
        ;
        assert(b * (p + 1) / p >= b) by {
            assert(b * (p + 1) == b * p + b) by (nonlinear_arith);
            vstd::arithmetic::div_mod::lemma_div_is_ordered(b * p, b * p + b, p);
            assert(b * p / p == b) by (nonlinear_arith)
                requires
                    p > 0,
            ;
        }
        proof {
            vstd::arithmetic::div_mod::lemma_fundamental_div_mod(b * (p + 1), p);
            let q = b * (p + 1) / p;
            assert(q * p <= b * (p + 1)) by (nonlinear_arith)
                requires
                    b * (p + 1) == p * q + (b * (p + 1)) % p,
                    (b * (p + 1)) % p >= 0,
            ;
        }
        (best_cost as u64) * (precision as u64 + 1) / (precision as u64)
    }
}

/// Whether one of the three bounds shows that the subtree at `index`, with
/// `cost` and `weight` taken, cannot beat `threshold`.
fn cannot_beat(t: &SearchTables, cost: u32, weight: u32, index: usize, threshold: u64) -> (r: bool)
    requires
        t.wf(),
        index < t.items@.len(),
        weight <= t.max_weight,
    ensures
        r ==> cost + opt(t.items@, index as int, t.max_weight - weight) <= threshold,
{
    let ghost items = t.items@;
    let ghost n = items.len() as int;
    let ghost b = t.max_weight - weight;
    let ghost all = Seq::new(items.len(), |j: int| true);
    let ghost o = opt(items, index as int, b);
    let ghost sel = lemma_opt_witness(items, index as int, b);
    proof {
        lemma_sums_ordered(t.items@);
        lemma_opt_nonneg(items, index as int, b);
        lemma_range_le_suffix(items, sel, index as int);
    }
    let cap_left = t.max_weight - weight;
    let (num, den) = t.items[index].cost_weight_ratio();
    let span = if cap_left < t.rem_weight[index] { cap_left } else { t.rem_weight[index] };
    proof {
        let x = (span as int) * (num as int);
        assert(0 <= x <= (u32::MAX as int) * (u32::MAX as int)) by (nonlinear_arith)
            requires
                x == (span as int) * (num as int),
                0 <= span <= u32::MAX,
                0 <= num <= u32::MAX,
        ;
        if den != 0 {
            vstd::arithmetic::div_mod::lemma_div_is_ordered_by_denominator(x, 1, den as int);
            assert forall|j: int| index <= j < n implies (#[trigger] items[j]).cost * (den as int) <= (num as int) * items[j].weight by {
                lemma_later_ratio(items, index as int, j);
            }
            lemma_ratio_cap(items, sel, index as int, num as int, den as int);
            let rw = range_weight(items, sel, index as int, n);
            assert((num as int) * rw <= (num as int) * (span as int)) by (nonlinear_arith)
                requires
                    rw <= span,
                    num >= 0,
            ;
            assert(o * (den as int) <= (span as int) * (num as int)) by (nonlinear_arith)
                requires
                    (den as int) * o <= (num as int) * rw,
                    (num as int) * rw <= (num as int) * (span as int),
            ;
            lemma_le_div(o, (span as int) * (num as int), den as int);
        }
    }
    if den != 0 && (span as u64) * (num as u64) / (den as u64) + (cost as u64) <= threshold {
        return true;
    }
    proof {
        lemma_opt_le_suffix(items, index as int, b);
    }
    if (cost as u64) + (t.rem_cost[index] as u64) <= threshold {
        return true;
    }
    let frac = frac_bound_from(t.rem_cost.as_slice(), t.rem_weight.as_slice(), index, cap_left);
    proof {
        let rc = t.rem_cost@;
        let rw = t.rem_weight@;
        let p = choose|p: int| is_fit_end(rw, index as int, b, p) && frac == frac_value(rc, rw, index as int, b, p);
        reveal(frac_value);
        lemma_suffix_diff(items, all, index as int, p);
        if p < n {
            lemma_suffix_diff(items, all, p, p + 1);
            let wp = items[p].weight as int;
            let cp = items[p].cost as int;
            assert(wp == rw[p] - rw[p + 1]);
            assert(cp == rc[p] - rc[p + 1]);
            lemma_order_around(items, p);
            lemma_exchange(items, sel, all, p, index as int);
            let c0 = range_cost(items, all, index as int, p);
            let w0 = range_weight(items, all, index as int, p);
            let xw = range_weight(items, sel, index as int, n);
            assert((o - c0) * wp <= (b - w0) * cp) by (nonlinear_arith)
                requires
                    wp * o - cp * xw <= wp * c0 - cp * w0,
                    xw <= b,
                    cp >= 0,
            ;
            lemma_le_div(o - c0, (b - w0) * cp, wp);
        }
    }
    (cost as u64) + (frac as u64) <= threshold
}

/// Explores `items[index..]` from a node that has taken `cost` and `weight`.
/// A better cost than `best_cost` comes with its choices in `sel[index..]`.
fn prune_rec(
    t: &SearchTables,
    sel: &mut Vec<bool>,
    cost: u32,
    weight: u32,
    index: usize,
    best_cost: u32,
    last_selected: bool,
) -> (r: u32)
    requires
        t.wf(),
        index <= t.items@.len(),
        old(sel).len() == t.items@.len(),
        weight <= t.max_weight,
        cost + suffix_cost(t.items@, index as int) <= suffix_cost(t.items@, 0),
        // an item equal to a left-out neighbour is only left out too: the
        // choices that take it are worth no more than what is known
        t.precision == 0 && !last_selected && 0 < index < t.items@.len() && t.items@[index - 1]
            == t.items@[index as int] ==> {
            let w = t.items@[index as int].weight;
            let c = t.items@[index as int].cost;
            let o = opt(t.items@, index + 1, t.max_weight - weight - w);
            o < 0 || best_cost >= cost + c + o
        },
        t.precision > 0 && !last_selected && 0 < index < t.items@.len() && t.items@[index - 1]
            == t.items@[index as int] ==> {
            let w = t.items@[index as int].weight;
            let c = t.items@[index as int].cost;
            let o = opt(t.items@, index + 1, t.max_weight - weight - w);
            o < 0 || t.precision * (cost + c + o) <= (t.precision + 1) * best_cost
        },
    ensures
        t.precision > 0 ==> t.precision * (cost + opt(t.items@, index as int, t.max_weight - weight))
            <= (t.precision + 1) * r,
        t.precision == 0 ==> r >= cost + opt(t.items@, index as int, t.max_weight - weight),
        r >= best_cost,
        final(sel).len() == t.items@.len(),
        r == best_cost ==> final(sel)@ == old(sel)@,
        r > best_cost ==> {
            &&& forall|j: int| 0 <= j < index ==> final(sel)@[j] == old(sel)@[j]
            &&& range_cost(t.items@, final(sel)@, index as int, t.items@.len() as int) == r - cost
            &&& range_weight(t.items@, final(sel)@, index as int, t.items@.len() as int)
                <= t.max_weight - weight
        },
    decreases t.items@.len() - index,
{
    if index < t.items.len() {
        let threshold = prune_threshold(best_cost, t.precision);
        if cannot_beat(t, cost, weight, index, threshold) {
            proof {
                if t.precision > 0 {
                    let pr = t.precision as int;
                    let v = cost + opt(t.items@, index as int, t.max_weight - weight);
                    assert(pr * v <= (pr + 1) * best_cost) by (nonlinear_arith)
                        requires
                            v <= threshold,
                            threshold * pr <= best_cost * (pr + 1),
                            pr > 0,
                    ;
                }
            }
            return best_cost;
        }
        let cur_item = t.items[index];
        proof {
            lemma_suffix_nonneg(t.items@, index as int + 1);
            assert(suffix_cost(t.items@, index as int) == cur_item.cost + suffix_cost(
                t.items@,
                index as int + 1,
            ));
        }
        let fits = (weight as u64) + (cur_item.weight as u64) <= (t.max_weight as u64);
        // of equal neighbours, the later is only taken after the earlier one
        let best_with_item = if fits && (last_selected || index == 0 || t.items[index - 1]
            != cur_item) {
            prune_rec(t, sel, cost + cur_item.cost, weight + cur_item.weight, index + 1, best_cost, true)
        } else {
            best_cost
        };
        let best_so_far = if best_with_item > best_cost { best_with_item } else { best_cost };
        proof {
            let b = t.max_weight - weight;
            let w = cur_item.weight as int;
            let c = cur_item.cost as int;
            if b - w >= 0 {
                lemma_opt_nonneg(t.items@, index + 1, b - w);
            }
            if index + 1 < t.items@.len() {
                assert(opt(t.items@, index + 1, b - w) >= opt(t.items@, index + 2, b - w));
            }
            if t.precision > 0 {
                let pr = t.precision as int;
                assert(pr * best_cost <= (pr + 1) * best_so_far) by (nonlinear_arith)
                    requires
                        pr > 0,
                        best_cost <= best_so_far,
                        best_cost >= 0,
                ;
                if index + 1 < t.items@.len() {
                    let o2 = opt(t.items@, index + 2, b - w);
                    let o1 = opt(t.items@, index + 1, b - w);
                    assert(o2 < 0 || pr * (cost + c + o2) <= (pr + 1) * best_so_far) by (nonlinear_arith)
                        requires
                            o1 >= o2,
                            pr > 0,
                            o1 < 0 || pr * (cost + c + o1) <= (pr + 1) * best_so_far,
                    ;
                }
            }
        }
        let best_without_item = prune_rec(t, sel, cost, weight, index + 1, best_so_far, false);
        let m = if best_without_item > best_so_far { best_without_item } else { best_so_far };
        proof {
            if t.precision > 0 {
                let pr = t.precision as int;
                let b = t.max_weight - weight;
                let w = cur_item.weight as int;
                let c = cur_item.cost as int;
                let o0 = opt(t.items@, index + 1, b);
                let o1 = opt(t.items@, index + 1, b - w);
                let o = opt(t.items@, index as int, b);
                assert(pr * (cost + o0) <= (pr + 1) * m) by (nonlinear_arith)
                    requires
                        pr * (cost + o0) <= (pr + 1) * best_without_item,
                        best_without_item <= m,
                        pr > 0,
                ;
                assert(o1 < 0 || pr * (cost + c + o1) <= (pr + 1) * m) by (nonlinear_arith)
                    requires
                        o1 < 0 || pr * (cost + c + o1) <= (pr + 1) * best_so_far,
                        best_so_far <= m,
                        pr > 0,
                ;
                assert(o == o0 || o == c + o1);
                assert(o1 >= 0 ==> o >= c + o1);
            }
        }
        if m == best_cost {
            best_cost
        } else if m == best_with_item {
            let ghost before = sel@;
            sel.set(index, true);
            proof {
                lemma_range_agree(t.items@, before, sel@, index as int + 1, t.items@.len() as int);
            }
            best_with_item
        } else {
            let ghost before = sel@;
            sel.set(index, false);
            proof {
                lemma_range_agree(t.items@, before, sel@, index as int + 1, t.items@.len() as int);
            }
            best_without_item
        }
    } else {
        proof {
            lemma_opt_nonneg(t.items@, index as int, t.max_weight - weight);
            if t.precision > 0 {
                let pr = t.precision as int;
                let r = if cost > best_cost { cost as int } else { best_cost as int };
                assert(pr * (cost + 0) <= (pr + 1) * r) by (nonlinear_arith)
                    requires
                        pr > 0,
                        cost <= r,
                        cost >= 0,
                ;
            }
        }
        if cost > best_cost { cost } else { best_cost }
    }
}

/// Sets up the search over the ratio-sorted fitting items and runs it from
/// the injected solution's cost, with the given precision.
pub(crate) fn branch_and_bound(problem: &Problem, inject_solution: Solution, precision: u32) -> (r: Solution)
    requires
        problem.wf(),
        inject_solution.selection_ok(problem),
    ensures
        r.answers(problem),
        r.items is Some,
        r.cost >= inject_solution.cost,
        precision == 0 ==> r.cost == problem.optimum(),
        precision > 0 ==> precision * problem.optimum() <= (precision + 1) * r.cost,
{
    let (items, mappings) = sort_by_cost_weight_ratio(&problem.items, problem.max_weight);
    proof {
        lemma_sorted_opt_ge(problem.items@, problem.max_weight as int);
        crate::laws::lemma_answer_le_optimum(problem, &inject_solution);
    }
    proof {
        lemma_index_map_reindexing(problem.items@, items@, mappings@, problem.max_weight as int);
        lemma_reindexed_totals(problem.items@, items@, mappings@);
    }
    let rem_cost = calc_remaining_cost(&items);
    let rem_weight = calc_remaining_weight(&items);
    let ghost sorted = items@;
    let t = SearchTables { items, rem_weight, rem_cost, max_weight: problem.max_weight, precision };
    proof {
        assert(t.rem_cost@ =~= cost_sums(t.items@));
        assert(t.rem_weight@ =~= weight_sums(t.items@));
    }
    let mut sel = vec![false; t.items.len()];
    let inject_cost = inject_solution.cost;
    let cost = prune_rec(&t, &mut sel, 0, 0, 0, inject_cost, true);
    proof {
        if precision > 0 {
            let pr = precision as int;
            let o = opt(sorted, 0, problem.max_weight as int);
            assert(pr * problem.optimum() <= (pr + 1) * cost) by (nonlinear_arith)
                requires
                    pr * (0 + o) <= (pr + 1) * cost,
                    problem.optimum() <= o,
                    pr > 0,
            ;
        }
    }
    if cost > inject_cost {
        let back = map_back(&sel, &mappings, problem.size);
        proof {
            lemma_reindex(problem.items@, sorted, mappings@, sel@, back@, sorted.len() as int);
        }
        let r = Solution { id: problem.id, size: problem.size, cost, items: Some(back) };
        proof {
            crate::laws::lemma_answer_le_optimum(problem, &r);
        }
        r
    } else {
        match inject_solution.items {
            Some(v) => Solution { id: problem.id, size: problem.size, cost: inject_cost, items: Some(v) },
            None => {
                let r = Solution::empty(problem.id, problem.size);
                proof {
                    lemma_range_none(problem.items@, r.items->0@, 0, problem.size as int);
                }
                r
            },
        }
    }
}

/// Branch-and-bound that starts from `inject_solution`, a solution known
/// beforehand: the result is never worth less.
pub fn pruning(problem: &Problem, inject_solution: Solution) -> (r: Solution)
    requires
        problem.wf(),
        inject_solution.selection_ok(problem),
    ensures
        r.answers(problem),
        r.items is Some,
        r.cost >= inject_solution.cost,
        r.cost == problem.optimum(),
{
    branch_and_bound(problem, inject_solution, 0)
}

/// The best single item that fits, as a solution.
pub(crate) fn best_item_solution(problem: &Problem) -> (r: Solution)
    requires
        problem.wf(),
    ensures
        r.answers(problem),
        r.items is Some,
        r.cost == best_single(problem.items@, problem.max_weight as int, problem.items@.len() as int),
{
    let best_item = best_valued_item_fit(&problem.items, problem.max_weight);
    if best_item.0 == 0 {
        let r = Solution::empty(problem.id, problem.size);
        proof {
            lemma_range_none(problem.items@, r.items->0@, 0, problem.size as int);
        }
        r
    } else {
        let idx = best_item.1;
        let sel = single_selection(problem.size, idx);
        proof {
            let items = problem.items@;
            let n = items.len() as int;
            let rest = sel@.update(idx as int, false);
            assert forall|j: int| 0 <= j < n implies !rest[j] by {}
            lemma_range_none(items, rest, 0, n);
            crate::model::lemma_range_clear(items, sel@, idx as int, 0, n);
        }
        Solution { id: problem.id, size: problem.size, cost: best_item.0, items: Some(sel) }
    }
}

impl SolverTrait for PruningSolver {
    open spec fn valid(&self) -> bool {
        true
    }

    /// The optimum, with a selection that reaches it.
    fn construction(&self, problem: &Problem) -> (r: Solution)
        ensures
            r.items is Some,
            r.cost == problem.optimum(),
    {
        let seed = best_item_solution(problem);
        pruning(problem, seed)
    }
}

} // verus!
