//! Dynamic programming over (items considered, cost reached), expanded
//! breadth-first from the empty choice, with a ceiling on the table size.
use vstd::prelude::*;
use crate::model::{
    opt, is_reindexing, lemma_range_agree, lemma_range_le_suffix, lemma_range_none, lemma_reindex,
    range_cost, range_weight, suffix_cost, suffix_weight, Item, Problem, Solution,
};
use crate::redux::{redux_value, ReduxSolver};
use crate::solver::SolverTrait;
use crate::table::{
    cell, cell_index, filled, lemma_cell_bounds, lemma_cell_distinct, lemma_filled_bound,
    lemma_filled_grows, lemma_filled_same,
};
use crate::utils::{
    gcd_of, ratio_sorted, cost_sums, weight_sums, lemma_sums_ordered, frac_value, is_fit_end, ranks_ge, ratio_of, calc_remaining_cost, calc_remaining_weight, gcd_u32, lemma_divides_trans, lemma_index_map_reindexing,
    lemma_ratio_sorted_len, lemma_reindexed_totals, map_back, max_cost, sort_by_cost_weight_ratio,
};

verus! {

/// The largest table, in cells, that the cost-indexed solver allocates.
pub const MAX_TABLE_CELLS: usize = 100000000;

/// Cost-indexed dynamic programming, seeded and pruned with Redux; exact
/// where it does not give up on the table size.
#[derive(Debug, Clone)]
pub struct DynamicCostSolver();

/// The items with every cost divided by `g`.
pub open spec fn scale_costs(items: Seq<Item>, g: int) -> Seq<Item> {
    Seq::new(items.len(), |i: int| Item { cost: (items[i].cost as int / g) as u32, weight: items[i].weight })
}

/// `g` divides every cost.
pub open spec fn divides_costs(items: Seq<Item>, g: int) -> bool {
    forall|i: int| 0 <= i < items.len() ==> (#[trigger] items[i].cost) as int % g == 0
}

/// Sums over the scaled items: the same weight, `1 / g` of the cost.
pub proof fn lemma_scale_sums(items: Seq<Item>, g: int, sel: Seq<bool>, lo: int, hi: int)
    requires
        g > 0,
        divides_costs(items, g),
        0 <= lo <= hi <= items.len(),
    ensures
        range_weight(scale_costs(items, g), sel, lo, hi) == range_weight(items, sel, lo, hi),
        range_cost(items, sel, lo, hi) == g * range_cost(scale_costs(items, g), sel, lo, hi),
        suffix_cost(scale_costs(items, g), lo) <= suffix_cost(items, lo),
        suffix_weight(scale_costs(items, g), lo) == suffix_weight(items, lo),
    decreases hi - lo,
{
    let sc = scale_costs(items, g);
    if lo < hi {
        lemma_scale_sums(items, g, sel, lo + 1, hi);
        let c = items[lo].cost as int;
        vstd::arithmetic::div_mod::lemma_fundamental_div_mod(c, g);
        assert(c % g == 0);
        assert(0 <= c / g <= c) by (nonlinear_arith)
            requires
                c == g * (c / g),
                g > 0,
                c >= 0,
        ;
        assert(sc[lo].cost == c / g);
        let rest = range_cost(sc, sel, lo + 1, hi);
        assert(g * ((if sel[lo] { c / g } else { 0 }) + rest) == (if sel[lo] { c } else { 0 }) + g
            * rest) by (nonlinear_arith)
            requires
                c == g * (c / g),
        ;
        assert(range_cost(sc, sel, lo, hi) == (if sel[lo] { c / g } else { 0 }) + rest);
    } else {
        assert(g * range_cost(sc, sel, lo, hi) == 0) by (nonlinear_arith)
            requires
                range_cost(sc, sel, lo, hi) == 0,
        ;
        lemma_scale_suffix(items, g, lo);
    }
}

proof fn lemma_scale_suffix(items: Seq<Item>, g: int, i: int)
    requires
        g > 0,
        0 <= i <= items.len(),
    ensures
        suffix_cost(scale_costs(items, g), i) <= suffix_cost(items, i),
        suffix_weight(scale_costs(items, g), i) == suffix_weight(items, i),
    decreases items.len() - i,
{
    if i < items.len() {
        lemma_scale_suffix(items, g, i + 1);
        let c = items[i].cost as int;
        assert(0 <= c / g <= c) by (nonlinear_arith)
            requires
                g > 0,
                c >= 0,
        ;
    }
}


/// The greatest common divisor of the costs of `s[..k]`.
pub open spec fn costs_gcd(s: Seq<Item>, k: int) -> nat
    decreases k,
{
    if k <= 0 {
        0
    } else {
        gcd_of(costs_gcd(s, k - 1), s[k - 1].cost as nat)
    }
}

/// What the costs are divided by: their greatest common divisor, or 1
/// where all are zero.
pub open spec fn cost_divisor(s: Seq<Item>) -> int {
    if costs_gcd(s, s.len() as int) == 0 { 1 } else { costs_gcd(s, s.len() as int) as int }
}

/// The fractional bound of ratio-sorted items under `cap`.
pub open spec fn max_cost_of(s: Seq<Item>, cap: int) -> int {
    frac_value(cost_sums(s), weight_sums(s), 0, cap, choose|p: int| is_fit_end(weight_sums(s), 0, cap, p))
}

/// The ratio-sorted items that fit into `cap`, with their costs divided.
pub open spec fn scaled_items_for(items: Seq<Item>, cap: int) -> Seq<Item> {
    let s = ratio_sorted(items, cap, items.len() as int).0;
    scale_costs(s, cost_divisor(s))
}

/// The solver builds a table for `items` under `cap`: some item fits and
/// is worth something.
pub open spec fn cost_table_needed_for(items: Seq<Item>, cap: int) -> bool {
    scaled_items_for(items, cap).len() > 0 && max_cost_of(scaled_items_for(items, cap), cap) > 0
}

/// The cells of that table: a row per fitting item and one more, a column
/// per unit of the bound on the divided cost and one more.
pub open spec fn cost_table_cells_for(items: Seq<Item>, cap: int) -> int {
    cells_of(scaled_items_for(items, cap).len() as int, max_cost_of(scaled_items_for(items, cap), cap) + 1)
}

/// The ratio-sorted fitting items of `p` with their costs divided.
pub open spec fn scaled_items(p: &Problem) -> Seq<Item> {
    scaled_items_for(p.items@, p.max_weight as int)
}

/// The solver builds a table for `p`.
pub open spec fn cost_table_needed(p: &Problem) -> bool {
    cost_table_needed_for(p.items@, p.max_weight as int)
}

/// The cells of the table for `p`.
pub open spec fn cost_table_cells(p: &Problem) -> int {
    cost_table_cells_for(p.items@, p.max_weight as int)
}

/// A positive common divisor of all costs (1 where all costs are 0).
fn cost_gcd(items: &Vec<Item>) -> (g: u32)
    ensures
        g > 0,
        divides_costs(items@, g as int),
        g == cost_divisor(items@),
{
    let mut g: u32 = 0;
    let mut i: usize = 0;
    while i < items.len()
        invariant
            i <= items@.len(),
            g == 0 ==> forall|j: int| 0 <= j < i ==> items@[j].cost == 0,
            g > 0 ==> forall|j: int| 0 <= j < i ==> (#[trigger] items@[j].cost) as int % (g as int) == 0,
            g == costs_gcd(items@, i as int),
        decreases items@.len() - i,
    {
        let ng = gcd_u32(g, items[i].cost);
        proof {
            if ng > 0 {
                assert forall|j: int| 0 <= j < i + 1 implies (#[trigger] items@[j].cost) as int % (
                ng as int) == 0 by {
                    if j < i {
                        if g > 0 {
                            lemma_divides_trans(items@[j].cost as int, g as int, ng as int);
                        } else {
                            assert(items@[j].cost == 0);
                        }
                    }
                }
            }
        }
        g = ng;
        i = i + 1;
    }
    if g == 0 {
        proof {
            assert forall|j: int| 0 <= j < items@.len() implies (#[trigger] items@[j].cost) as int % 1
                == 0 by {}
        }
        1
    } else {
        g
    }
}

/// The items with their costs divided by `g`.
fn scale_items(items: &Vec<Item>, g: u32) -> (r: Vec<Item>)
    requires
        g > 0,
    ensures
        r@ == scale_costs(items@, g as int),
{
    let mut r: Vec<Item> = Vec::new();
    let mut i: usize = 0;
    while i < items.len()
        invariant
            i <= items@.len(),
            g > 0,
            r@.len() == i,
            forall|j: int| 0 <= j < i ==> r@[j] == scale_costs(items@, g as int)[j],
        decreases items@.len() - i,
    {
        r.push(Item { cost: items[i].cost / g, weight: items[i].weight });
        i = i + 1;
    }
    assert(r@ =~= scale_costs(items@, g as int));
    r
}

/// Dividing both costs by a common divisor keeps their ratio order.
proof fn lemma_scaled_ranks(a: Item, b: Item, g: int)
    requires
        g > 0,
        a.cost as int % g == 0,
        b.cost as int % g == 0,
        ranks_ge(a, b),
    ensures
        ranks_ge(
            Item { cost: (a.cost as int / g) as u32, weight: a.weight },
            Item { cost: (b.cost as int / g) as u32, weight: b.weight },
        ),
{
    reveal(ranks_ge);
    let ca = a.cost as int;
    let cb = b.cost as int;
    vstd::arithmetic::div_mod::lemma_fundamental_div_mod(ca, g);
    vstd::arithmetic::div_mod::lemma_fundamental_div_mod(cb, g);
    let qa = ca / g;
    let qb = cb / g;
    assert(0 <= qa <= ca && 0 <= qb <= cb) by (nonlinear_arith)
        requires
            ca == g * qa,
            cb == g * qb,
            g > 0,
            ca >= 0,
            cb >= 0,
    ;
    let wa = a.weight as int;
    let wb = b.weight as int;
    assert(ca * wb == g * (qa * wb) && cb * wa == g * (qb * wa)) by (nonlinear_arith)
        requires
            ca == g * qa,
            cb == g * qb,
    ;
    assert((ca * wb > cb * wa) == (qa * wb > qb * wa)) by (nonlinear_arith)
        requires
            ca * wb == g * (qa * wb),
            cb * wa == g * (qb * wa),
            g > 0,
    ;
    assert((ca * wb == cb * wa) == (qa * wb == qb * wa)) by (nonlinear_arith)
        requires
            ca * wb == g * (qa * wb),
            cb * wa == g * (qb * wa),
            g > 0,
    ;
    assert((ca > 0) == (qa > 0) && (cb > 0) == (qb > 0)) by (nonlinear_arith)
        requires
            ca == g * qa,
            cb == g * qb,
            g > 0,
    ;
    let sa = Item { cost: (a.cost as int / g) as u32, weight: a.weight };
    let sb = Item { cost: (b.cost as int / g) as u32, weight: b.weight };
    assert(sa.cost as int == qa && sb.cost as int == qb);
    let (an, ad) = ratio_of(a);
    let (bn, bd) = ratio_of(b);
    let (san, sad) = ratio_of(sa);
    let (sbn, sbd) = ratio_of(sb);
    assert(ad == sad && bd == sbd);
    // numerators are scaled by g where the weight is positive, equal otherwise
    assert(wa > 0 ==> an == g * san);
    assert(wa == 0 ==> an == san);
    assert(wb > 0 ==> bn == g * sbn);
    assert(wb == 0 ==> bn == sbn);
    if wa > 0 && wb > 0 {
    } else if wa > 0 {
        assert(an * bd == g * (san * sbd)) by (nonlinear_arith)
            requires
                an == g * san,
                bd == sbd,
        ;
        assert(bn * ad == bn * sad);
        assert((an * bd > bn * ad) == (san * sbd > sbn * sad)) by (nonlinear_arith)
            requires
                an * bd == g * (san * sbd),
                bn == sbn,
                ad == sad,
                g > 0,
                sbn >= 0,
                sad >= 0,
                sbd == 0 || sbn == 0,
                san >= 0,
        ;
        assert((an * bd == bn * ad) == (san * sbd == sbn * sad)) by (nonlinear_arith)
            requires
                an * bd == g * (san * sbd),
                bn == sbn,
                ad == sad,
                g > 0,
                sbd == 0 || sbn == 0,
                san >= 0,
        ;
    } else if wb > 0 {
        assert(bn * ad == g * (sbn * sad)) by (nonlinear_arith)
            requires
                bn == g * sbn,
                ad == sad,
        ;
        assert((an * bd > bn * ad) == (san * sbd > sbn * sad)) by (nonlinear_arith)
            requires
                bn * ad == g * (sbn * sad),
                an == san,
                bd == sbd,
                g > 0,
                sad == 0 || san == 0,
                sbn >= 0,
        ;
        assert((an * bd == bn * ad) == (san * sbd == sbn * sad)) by (nonlinear_arith)
            requires
                bn * ad == g * (sbn * sad),
                an == san,
                bd == sbd,
                g > 0,
                sad == 0 || san == 0,
                sbn >= 0,
        ;
    }
}

/// Scaling the costs by a common divisor scales the optimum.
proof fn lemma_scaled_opt(items: Seq<Item>, g: int, i: int, b: int)
    requires
        g > 0,
        divides_costs(items, g),
        0 <= i <= items.len(),
    ensures
        b >= 0 ==> opt(items, i, b) == g * opt(scale_costs(items, g), i, b),
        b < 0 ==> opt(scale_costs(items, g), i, b) == -1,
    decreases items.len() - i,
{
    let sc = scale_costs(items, g);
    if i >= items.len() && b >= 0 {
        assert(g * 0 == 0);
    }
    if i < items.len() && b >= 0 {
        let w = items[i].weight as int;
        lemma_scaled_opt(items, g, i + 1, b);
        lemma_scaled_opt(items, g, i + 1, b - w);
        let c = items[i].cost as int;
        vstd::arithmetic::div_mod::lemma_fundamental_div_mod(c, g);
        assert(c % g == 0);
        let q = c / g;
        assert(0 <= q <= c) by (nonlinear_arith)
            requires
                c == g * q,
                g > 0,
                c >= 0,
        ;
        assert(sc[i].cost == q);
        let o0 = opt(sc, i + 1, b);
        let o1 = opt(sc, i + 1, b - w);
        let p0 = opt(items, i + 1, b);
        let p1 = opt(items, i + 1, b - w);
        assert(p0 == g * o0);
        if b - w >= 0 {
            assert(p1 == g * o1);
            assert((o1 >= 0 && o1 + q > o0) == (p1 >= 0 && p1 + c > p0)) by (nonlinear_arith)
                requires
                    c == g * q,
                    g > 0,
                    p1 == g * o1,
                    p0 == g * o0,
            ;
            assert(g * (o1 + q) == p1 + c) by (nonlinear_arith)
                requires
                    c == g * q,
                    p1 == g * o1,
            ;
        } else {
            assert(p1 == -1 && o1 == -1);
        }
    }
}

/// Cell `(i, c)` with weight `v` is reached from the row above: without
/// `items[i - 1]` at no more weight, or with it.
#[verifier::opaque]
pub open spec fn has_pred(t: Seq<Option<u32>>, items: Seq<Item>, size: int, i: int, c: int, v: int) -> bool {
    ||| (t[cell(i - 1, c, size)] is Some && t[cell(i - 1, c, size)]->0 <= v)
    ||| (c >= items[i - 1].cost && t[cell(i - 1, c - items[i - 1].cost, size)] is Some
        && t[cell(i - 1, c - items[i - 1].cost, size)]->0 + items[i - 1].weight <= v)
}

/// Every filled cell `(i, c)` holds a weight within `cap` at which some
/// choice among `items[..i]` reaches cost `c`: row 0 only holds `(0, 0)`,
/// and every other filled cell is reached from the row above. A filled
/// cell never promises more than the optimum: its cost and the best
/// completion within the weight left stay within `opt`.
#[verifier::opaque]
pub open spec fn cost_inv(t: Seq<Option<u32>>, items: Seq<Item>, size: int, cap: int) -> bool {
    let m = items.len() as int;
    &&& t.len() == (m + 1) * size
    &&& forall|i: int, c: int|
        0 <= i <= m && 0 <= c < size && (#[trigger] t[cell(i, c, size)]) is Some ==> {
            &&& t[cell(i, c, size)]->0 <= cap
            &&& i == 0 ==> c == 0 && t[cell(i, c, size)]->0 == 0
            &&& i > 0 ==> has_pred(t, items, size, i, c, t[cell(i, c, size)]->0 as int)
            &&& c + opt(items, i, cap - t[cell(i, c, size)]->0) <= opt(items, 0, cap)
        }
}

/// What the invariant says of one filled cell.
proof fn lemma_cost_inv_at(t: Seq<Option<u32>>, items: Seq<Item>, size: int, cap: int, i: int, c: int)
    requires
        cost_inv(t, items, size, cap),
        0 <= i <= items.len(),
        0 <= c < size,
        t[cell(i, c, size)] is Some,
    ensures
        t.len() == (items.len() + 1) * size,
        t[cell(i, c, size)]->0 <= cap,
        i == 0 ==> c == 0 && t[cell(i, c, size)]->0 == 0,
        i > 0 ==> has_pred(t, items, size, i, c, t[cell(i, c, size)]->0 as int),
        c + opt(items, i, cap - t[cell(i, c, size)]->0) <= opt(items, 0, cap),
{
    reveal(cost_inv);
}

proof fn lemma_cost_inv_at_len(t: Seq<Option<u32>>, items: Seq<Item>, size: int, cap: int)
    requires
        cost_inv(t, items, size, cap),
    ensures
        t.len() == (items.len() + 1) * size,
{
    reveal(cost_inv);
}

/// Storing a weight that is reached from the row above, and no more than
/// what the cell held, keeps the invariant.
proof fn lemma_cost_update(
    t: Seq<Option<u32>>,
    items: Seq<Item>,
    size: int,
    cap: int,
    i0: int,
    c0: int,
    v: u32,
)
    requires
        cost_inv(t, items, size, cap),
        1 <= i0 <= items.len(),
        0 <= c0 < size,
        v <= cap,
        has_pred(t, items, size, i0, c0, v as int),
        t[cell(i0, c0, size)] is Some ==> v <= t[cell(i0, c0, size)]->0,
        c0 + opt(items, i0, cap - v) <= opt(items, 0, cap),
    ensures
        cost_inv(t.update(cell(i0, c0, size), Some(v)), items, size, cap),
{
    reveal(cost_inv);
    let m = items.len() as int;
    let k = cell(i0, c0, size);
    let t2 = t.update(k, Some(v));
    lemma_cell_bounds(i0, c0, m + 1, size);
    assert forall|i: int, c: int|
        0 <= i <= m && 0 <= c < size && (#[trigger] t2[cell(i, c, size)]) is Some implies {
            &&& t2[cell(i, c, size)]->0 <= cap
            &&& i == 0 ==> c == 0 && t2[cell(i, c, size)]->0 == 0
            &&& i > 0 ==> has_pred(t2, items, size, i, c, t2[cell(i, c, size)]->0 as int)
            &&& c + opt(items, i, cap - t2[cell(i, c, size)]->0) <= opt(items, 0, cap)
        } by {
        lemma_cell_bounds(i, c, m + 1, size);
        if i != i0 || c != c0 {
            lemma_cell_distinct(i, c, i0, c0, size);
        }
        if i > 0 {
            reveal(has_pred);
            lemma_cell_bounds(i - 1, c, m + 1, size);
            if i - 1 != i0 || c != c0 {
                lemma_cell_distinct(i - 1, c, i0, c0, size);
            }
            let c1 = c - items[i - 1].cost;
            if 0 <= c1 {
                lemma_cell_bounds(i - 1, c1, m + 1, size);
                if i - 1 != i0 || c1 != c0 {
                    lemma_cell_distinct(i - 1, c1, i0, c0, size);
                }
            }
        }
    }
}

/// Whether a state at `next` (the next item to consider) with `cost` and
/// `weight` already taken cannot beat `best_cost`, by the ratio bound or by
/// the total cost left.
fn hopeless(
    sc: &Vec<Item>,
    rem_cost: &Vec<u32>,
    rem_weight: &Vec<u32>,
    max_weight: u32,
    next: usize,
    cost: u32,
    weight: u32,
    best_cost: u32,
) -> (r: bool)
    requires
        rem_cost@ == cost_sums(sc@),
        rem_weight@ == weight_sums(sc@),
        suffix_cost(sc@, 0) <= u32::MAX,
        suffix_weight(sc@, 0) <= u32::MAX,
        forall|k: int| 0 <= k < sc@.len() - 1 ==> ranks_ge(#[trigger] sc@[k], sc@[k + 1]),
        next <= sc@.len(),
        weight <= max_weight,
    ensures
        r ==> cost + opt(sc@, next as int, max_weight - weight) < best_cost,
{
    let ghost items = sc@;
    let ghost n = items.len() as int;
    let ghost b = max_weight - weight;
    let ghost o = opt(items, next as int, b);
    let ghost sel = crate::bounds::lemma_opt_witness(items, next as int, b);
    proof {
        lemma_sums_ordered(items);
        crate::model::lemma_opt_nonneg(items, next as int, b);
        lemma_range_le_suffix(items, sel, next as int);
        crate::model::lemma_opt_le_suffix(items, next as int, b);
    }
    let (num, den) = if next < sc.len() { sc[next].cost_weight_ratio() } else { (0, 1) };
    let cap_left = max_weight - weight;
    let span = if cap_left < rem_weight[next] { cap_left } else { rem_weight[next] };
    proof {
        let x = (span as int) * (num as int);
        assert(0 <= x <= (u32::MAX as int) * (u32::MAX as int)) by (nonlinear_arith)
            requires
                x == (span as int) * (num as int),
                0 <= span <= u32::MAX,
                0 <= num <= u32::MAX,
        ;
        if den != 0 {
            vstd::arithmetic::div_mod::lemma_div_is_ordered_by_denominator(x, 1, den as int);
            if next < n {
                assert forall|j: int| next <= j < n implies (#[trigger] items[j]).cost * (den as int) <= (num as int) * items[j].weight by {
                    crate::bounds::lemma_later_ratio(items, next as int, j);
                }
                crate::bounds::lemma_ratio_cap(items, sel, next as int, num as int, den as int);
                let rw = range_weight(items, sel, next as int, n);
                assert((num as int) * rw <= (num as int) * (span as int)) by (nonlinear_arith)
                    requires
                        rw <= span,
                        num >= 0,
                ;
                assert(o * (den as int) <= (span as int) * (num as int)) by (nonlinear_arith)
                    requires
                        (den as int) * o <= (num as int) * rw,
                        (num as int) * rw <= (num as int) * (span as int),
                ;
                crate::bounds::lemma_le_div(o, (span as int) * (num as int), den as int);
            } else {
                assert(o == 0);
            }
        }
    }
    (den != 0 && (span as u64) * (num as u64) / (den as u64) + (cost as u64) < (best_cost as u64))
        || (cost as u64) + (rem_cost[next] as u64) < (best_cost as u64)
}

/// Offers weight `w1` for cell `(i1, c1)`: stores it where the cell is empty
/// (and lists the cost in `next`, the states reached first in row `i1`) or
/// holds more.
fn relax(
    table: &mut Vec<Option<u32>>,
    next: &mut Vec<u32>,
    sc: &Vec<Item>,
    rows: usize,
    size: usize,
    max_weight: u32,
    i1: usize,
    c1: u32,
    w1: u32,
)
    requires
        rows == sc@.len() + 1,
        rows * size <= usize::MAX,
        old(table)@.len() == rows * size,
        cost_inv(old(table)@, sc@, size as int, max_weight as int),
        1 <= i1 < rows,
        c1 < size,
        w1 <= max_weight,
        has_pred(old(table)@, sc@, size as int, i1 as int, c1 as int, w1 as int),
        c1 + opt(sc@, i1 as int, max_weight - w1) <= opt(sc@, 0, max_weight as int),
    ensures
        final(table)@.len() == rows * size,
        cost_inv(final(table)@, sc@, size as int, max_weight as int),
        final(table)@[cell(i1 as int, c1 as int, size as int)] is Some,
        final(table)@[cell(i1 as int, c1 as int, size as int)]->0 <= w1,
        forall|k: int| 0 <= k < old(table)@.len() && k != cell(i1 as int, c1 as int, size as int)
            ==> final(table)@[k] == old(table)@[k],
        old(table)@[cell(i1 as int, c1 as int, size as int)] is Some ==> final(table)@[cell(
            i1 as int,
            c1 as int,
            size as int,
        )]->0 <= old(table)@[cell(i1 as int, c1 as int, size as int)]->0,
        final(next)@ == if old(table)@[cell(i1 as int, c1 as int, size as int)] is None {
            old(next)@.push(c1)
        } else {
            old(next)@
        },
{
    let k = cell_index(i1, c1 as usize, rows, size);
    let ghost before = table@;
    match table[k] {
        Some(v) => {
            if v > w1 {
                proof {
                    lemma_cost_update(before, sc@, size as int, max_weight as int, i1 as int, c1 as int, w1);
                }
                table.set(k, Some(w1));
            }
        },
        None => {
            proof {
                lemma_cost_update(before, sc@, size as int, max_weight as int, i1 as int, c1 as int, w1);
            }
            table.set(k, Some(w1));
            next.push(c1);
        },
    }
}

/// Expands the states row by row from `(0, 0)`: the costs reached in a row
/// form its frontier, each listed when it is first reached, and each is
/// expanded with and without the next item, keeping the least weight per
/// cell; a state that cannot beat the best cost known is not expanded
/// without the item.
fn fill_cost_table(sc: &Vec<Item>, max_weight: u32, size: usize, seed: u32) -> (t: Vec<Option<u32>>)
    requires
        1 <= size <= u32::MAX,
        (sc@.len() + 1) * size <= usize::MAX,
        suffix_cost(sc@, 0) <= u32::MAX,
        suffix_weight(sc@, 0) <= u32::MAX,
        forall|k: int| 0 <= k < sc@.len() - 1 ==> ranks_ge(#[trigger] sc@[k], sc@[k + 1]),
        seed <= opt(sc@, 0, max_weight as int),
        opt(sc@, 0, max_weight as int) < size,
    ensures
        cost_inv(t@, sc@, size as int, max_weight as int),
        t@[cell(sc@.len() as int, opt(sc@, 0, max_weight as int), size as int)] is Some,
{
    let m = sc.len();
    proof {
        assert((m + 1) * size >= m + 1) by (nonlinear_arith)
            requires
                size >= 1,
        ;
    }
    let rows = m + 1;
    let ghost cap = max_weight as int;
    let ghost sz = size as int;
    let ghost items = sc@;
    let ghost o_s = opt(items, 0, cap);
    let ghost sel = crate::bounds::lemma_opt_witness(items, 0, cap);
    let cells = rows * size;
    let mut table: Vec<Option<u32>> = vec![None; cells];
    let root = cell_index(0, 0, rows, size);
    table.set(root, Some(0));
    proof {
        reveal(cost_inv);
        assert forall|i: int, c: int|
            0 <= i <= m && 0 <= c < sz && (#[trigger] table@[cell(i, c, sz)]) is Some implies {
                &&& table@[cell(i, c, sz)]->0 <= cap
                &&& i == 0 ==> c == 0 && table@[cell(i, c, sz)]->0 == 0
                &&& i > 0 ==> has_pred(table@, sc@, sz, i, c, table@[cell(i, c, sz)]->0 as int)
                &&& c + opt(items, i, cap - table@[cell(i, c, sz)]->0) <= opt(items, 0, cap)
            } by {
            lemma_cell_bounds(i, c, rows as int, sz);
            if i != 0 || c != 0 {
                lemma_cell_distinct(i, c, 0, 0, sz);
            }
        }
        assert forall|i: int, c: int| 0 < i <= m && 0 <= c < sz implies table@[cell(i, c, sz)] is None by {
            lemma_cell_bounds(i, c, rows as int, sz);
            lemma_cell_distinct(i, c, 0, 0, sz);
        }
        assert forall|c: int| 0 <= c < sz && table@[cell(0, c, sz)] is Some implies c == 0 by {
            lemma_cell_bounds(0, c, rows as int, sz);
            if c != 0 {
                lemma_cell_distinct(0, c, 0, 0, sz);
            }
        }
        crate::model::lemma_range_none(items, sel, 0, 0);
    }
    let rem_cost = calc_remaining_cost(sc);
    let rem_weight = calc_remaining_weight(sc);
    proof {
        lemma_sums_ordered(items);
        assert(rem_cost@ =~= cost_sums(items));
        assert(rem_weight@ =~= weight_sums(items));
    }
    let mut frontier: Vec<u32> = Vec::new();
    frontier.push(0);
    assert(frontier@[0] == 0u32);
    let mut best_cost = seed;
    let mut item: usize = 0;
    while item < m
        invariant
            m == sc@.len(),
            items == sc@,
            rows == m + 1,
            cells == rows * size,
            sz == size,
            cap == max_weight,
            1 <= size <= u32::MAX,
            rows * size <= usize::MAX,
            table@.len() == cells,
            cost_inv(table@, items, sz, cap),
            rem_cost@ == cost_sums(items),
            rem_weight@ == weight_sums(items),
            suffix_cost(items, 0) <= u32::MAX,
            suffix_weight(items, 0) <= u32::MAX,
            forall|k: int| 0 <= k < items.len() - 1 ==> ranks_ge(#[trigger] items[k], items[k + 1]),
            o_s == opt(items, 0, cap),
            o_s < size,
            sel.len() == m,
            range_cost(items, sel, 0, m as int) == o_s,
            range_weight(items, sel, 0, m as int) <= cap,
            item <= m,
            best_cost <= o_s,
            forall|q: int| 0 <= q < frontier@.len() ==> (#[trigger] frontier@[q]) < size
                && table@[cell(item as int, frontier@[q] as int, sz)] is Some,
            forall|c: int| 0 <= c < sz && table@[cell(item as int, c, sz)] is Some ==> exists|q: int|
                0 <= q < frontier@.len() && frontier@[q] == c,
            forall|i: int, c: int| item < i <= m && 0 <= c < sz ==> table@[cell(i, c, sz)] is None,
            table@[cell(item as int, range_cost(items, sel, 0, item as int), sz)] is Some,
            table@[cell(item as int, range_cost(items, sel, 0, item as int), sz)]->0 <= range_weight(
                items,
                sel,
                0,
                item as int,
            ),
        decreases m - item,
    {
        let ghost ci = range_cost(items, sel, 0, item as int);
        let ghost wi = range_weight(items, sel, 0, item as int);
        let ghost t0 = table@;
        proof {
            crate::model::lemma_range_last(items, sel, 0, item + 1);
            crate::bounds::lemma_range_split(items, sel, 0, item as int, m as int);
            crate::bounds::lemma_range_split(items, sel, 0, item + 1, m as int);
            crate::bounds::lemma_range_nonneg(items, sel, item as int, m as int);
            crate::bounds::lemma_range_nonneg(items, sel, item + 1, m as int);
            crate::bounds::lemma_range_nonneg(items, sel, 0, item as int);
        }
        let ghost ci1 = range_cost(items, sel, 0, item + 1);
        let ghost wi1 = range_weight(items, sel, 0, item + 1);
        let mut next: Vec<u32> = Vec::new();
        let mut q: usize = 0;
        while q < frontier.len()
            invariant
                m == sc@.len(),
                items == sc@,
                rows == m + 1,
                cells == rows * size,
                sz == size,
                cap == max_weight,
                1 <= size <= u32::MAX,
                rows * size <= usize::MAX,
                table@.len() == cells,
                cost_inv(table@, items, sz, cap),
                rem_cost@ == cost_sums(items),
                rem_weight@ == weight_sums(items),
                suffix_cost(items, 0) <= u32::MAX,
                suffix_weight(items, 0) <= u32::MAX,
                forall|k: int| 0 <= k < items.len() - 1 ==> ranks_ge(#[trigger] items[k], items[k + 1]),
                o_s == opt(items, 0, cap),
                o_s < size,
                sel.len() == m,
                item < m,
                q <= frontier@.len(),
                best_cost <= o_s,
                ci == range_cost(items, sel, 0, item as int),
                wi == range_weight(items, sel, 0, item as int),
                ci1 == ci + (if sel[item as int] { items[item as int].cost as int } else { 0 }),
                wi1 == wi + (if sel[item as int] { items[item as int].weight as int } else { 0 }),
                ci1 + range_cost(items, sel, item + 1, m as int) == o_s,
                wi1 + range_weight(items, sel, item + 1, m as int) <= cap,
                range_weight(items, sel, item + 1, m as int) >= 0,
                range_cost(items, sel, item + 1, m as int) >= 0,
                t0.len() == table@.len(),
                t0[cell(item as int, ci, sz)] is Some,
                t0[cell(item as int, ci, sz)]->0 <= wi,
                forall|q2: int| 0 <= q2 < frontier@.len() ==> (#[trigger] frontier@[q2]) < size
                    && t0[cell(item as int, frontier@[q2] as int, sz)] is Some,
                forall|c: int| 0 <= c < sz && t0[cell(item as int, c, sz)] is Some ==> exists|q2: int|
                    0 <= q2 < frontier@.len() && frontier@[q2] == c,
                forall|c: int| 0 <= c < sz ==> table@[cell(item as int, c, sz)] == t0[cell(item as int, c, sz)],
                forall|i: int, c: int| item + 1 < i <= m && 0 <= c < sz ==> table@[cell(i, c, sz)] is None,
                forall|q2: int| 0 <= q2 < next@.len() ==> (#[trigger] next@[q2]) < size
                    && table@[cell(item + 1, next@[q2] as int, sz)] is Some,
                forall|c: int| 0 <= c < sz && (#[trigger] table@[cell(item + 1, c, sz)]) is Some ==> exists|q2: int|
                    0 <= q2 < next@.len() && next@[q2] == c,
                (exists|q2: int| 0 <= q2 < q && frontier@[q2] == ci) ==> {
                    &&& ci1 < size
                    &&& table@[cell(item + 1, ci1, sz)] is Some
                    &&& table@[cell(item + 1, ci1, sz)]->0 <= wi1
                },
            decreases frontier@.len() - q,
        {
            let c = frontier[q];
            let kc = cell_index(item, c as usize, rows, size);
            let v = match table[kc] {
                Some(w) => w,
                None => 0,
            };
            proof {
                lemma_cost_inv_at(table@, items, sz, cap, item as int, c as int);
                assert(table@[cell(item as int, c as int, sz)] == Some(v));
            }
            let ghost tq = table@;
            let ghost nq = next@;
            let it = sc[item];
            let nc: u64 = c as u64 + it.cost as u64;
            let nw: u64 = v as u64 + it.weight as u64;
            if nw <= max_weight as u64 && nc < size as u64 {
                let new_cost = nc as u32;
                let new_weight = nw as u32;
                proof {
                    reveal(has_pred);
                    lemma_cell_bounds(item + 1, new_cost as int, rows as int, sz);
                    assert(has_pred(table@, sc@, sz, item + 1, new_cost as int, new_weight as int));
                    crate::model::lemma_opt_nonneg(items, item + 1, cap - new_weight);
                    assert(opt(items, item as int, cap - v) >= it.cost + opt(items, item + 1, cap - v - it.weight));
                }
                if new_cost > best_cost {
                    best_cost = new_cost;
                }
                relax(&mut table, &mut next, sc, rows, size, max_weight, item + 1, new_cost, new_weight);
                proof {
                    lemma_cell_distinct(item as int, c as int, item + 1, new_cost as int, sz);
                    assert forall|c2: int| 0 <= c2 < sz && (#[trigger] table@[cell(item + 1, c2, sz)]) is Some
                        && tq[cell(item + 1, c2, sz)] is None implies next@.len() == nq.len() + 1 && next@[nq.len() as int] == c2 by {
                        lemma_cell_bounds(item + 1, c2, rows as int, sz);
                        if c2 != new_cost {
                            lemma_cell_distinct(item + 1, c2, item + 1, new_cost as int, sz);
                        }
                    }
                }
            }
            let ghost t1 = table@;
            let ghost n1 = next@;
            assert(n1.len() >= nq.len() && forall|i: int| 0 <= i < nq.len() ==> n1[i] == nq[i]);
            assert(forall|c2: int| 0 <= c2 < sz && (#[trigger] t1[cell(item + 1, c2, sz)]) is Some
                && tq[cell(item + 1, c2, sz)] is None ==> n1.len() == nq.len() + 1 && n1[nq.len() as int] == c2);
            proof {
                crate::model::lemma_opt_nonneg(items, item + 1, cap - v);
                assert(opt(items, item as int, cap - v) >= opt(items, item + 1, cap - v));
                assert(table@[cell(item as int, c as int, sz)] == Some(v)) by {
                    lemma_cell_bounds(item as int, c as int, rows as int, sz);
                }
                if c == ci && !sel[item as int] {
                    crate::model::lemma_opt_upper(items, sel, item + 1, cap - v);
                }
            }
            if !hopeless(sc, &rem_cost, &rem_weight, max_weight, item + 1, c, v, best_cost) {
                proof {
                    reveal(has_pred);
                    lemma_cell_bounds(item + 1, c as int, rows as int, sz);
                    assert(has_pred(table@, sc@, sz, item + 1, c as int, v as int));
                }
                relax(&mut table, &mut next, sc, rows, size, max_weight, item + 1, c, v);
                proof {
                    assert forall|c2: int| 0 <= c2 < sz && (#[trigger] table@[cell(item + 1, c2, sz)]) is Some
                        && t1[cell(item + 1, c2, sz)] is None implies next@.len() == n1.len() + 1 && next@[n1.len() as int] == c2 by {
                        lemma_cell_bounds(item + 1, c2, rows as int, sz);
                        if c2 != c {
                            lemma_cell_distinct(item + 1, c2, item + 1, c as int, sz);
                        }
                    }
                }
            }
            assert(next@.len() >= n1.len() && forall|i: int| 0 <= i < n1.len() ==> next@[i] == n1[i]);
            assert(forall|c2: int| 0 <= c2 < sz && (#[trigger] table@[cell(item + 1, c2, sz)]) is Some
                && t1[cell(item + 1, c2, sz)] is None ==> next@.len() == n1.len() + 1 && next@[n1.len() as int] == c2);
            proof {
                assert forall|c2: int| 0 <= c2 < sz implies table@[cell(item as int, c2, sz)] == t0[cell(item as int, c2, sz)] by {
                    lemma_cell_bounds(item as int, c2, rows as int, sz);
                    if (c as int) + (it.cost as int) < sz {
                        lemma_cell_distinct(item as int, c2, item + 1, (c as int) + (it.cost as int), sz);
                    }
                    lemma_cell_distinct(item as int, c2, item + 1, c as int, sz);
                }
                assert forall|i: int, c2: int| item + 1 < i <= m && 0 <= c2 < sz implies table@[cell(i, c2, sz)] is None by {
                    lemma_cell_bounds(i, c2, rows as int, sz);
                    if (c as int) + (it.cost as int) < sz {
                        lemma_cell_distinct(i, c2, item + 1, (c as int) + (it.cost as int), sz);
                    }
                    lemma_cell_distinct(i, c2, item + 1, c as int, sz);
                }
                assert forall|q2: int| 0 <= q2 < next@.len() implies (#[trigger] next@[q2]) < size
                    && table@[cell(item + 1, next@[q2] as int, sz)] is Some by {
                    if q2 < nq.len() {
                        lemma_cell_bounds(item + 1, next@[q2] as int, rows as int, sz);
                    }
                }
                assert forall|c2: int| 0 <= c2 < sz && (#[trigger] table@[cell(item + 1, c2, sz)]) is Some implies exists|q2: int|
                    0 <= q2 < next@.len() && next@[q2] == c2 by {
                    lemma_cell_bounds(item + 1, c2, rows as int, sz);
                    if tq[cell(item + 1, c2, sz)] is Some {
                        let q3 = choose|q3: int| 0 <= q3 < nq.len() && nq[q3] == c2;
                        assert(n1[q3] == c2);
                        assert(next@[q3] == c2);
                    } else if t1[cell(item + 1, c2, sz)] is Some {
                        assert(n1[nq.len() as int] == c2);
                        assert(next@[nq.len() as int] == c2);
                    } else {
                        assert(next@[n1.len() as int] == c2);
                    }
                }
            }
            proof {
                if c == ci {
                    assert(v <= wi);
                    lemma_cell_bounds(item + 1, ci1, rows as int, sz);
                }
                assert forall|q2: int| 0 <= q2 < q + 1 && frontier@[q2] == ci implies {
                    &&& ci1 < size
                    &&& table@[cell(item + 1, ci1, sz)] is Some
                    &&& table@[cell(item + 1, ci1, sz)]->0 <= wi1
                } by {
                    lemma_cell_bounds(item + 1, ci1, rows as int, sz);
                }
            }
            q = q + 1;
        }
        proof {
            let qc = choose|q2: int| 0 <= q2 < frontier@.len() && frontier@[q2] == ci;
            assert(frontier@[qc] == ci);
        }
        frontier = next;
        item = item + 1;
    }
    table
}

/// Walks back from cell `(m, top)` to row 0 and returns the choices on the
/// way, over the `m` items of the table.
fn walk_back(sc: &Vec<Item>, table: &Vec<Option<u32>>, size: usize, max_weight: u32, top: u32) -> (sel: Vec<bool>)
    requires
        cost_inv(table@, sc@, size as int, max_weight as int),
        (sc@.len() + 1) * size <= usize::MAX,
        top < size,
        table@[cell(sc@.len() as int, top as int, size as int)] is Some,
    ensures
        sel@.len() == sc@.len(),
        range_cost(sc@, sel@, 0, sc@.len() as int) == top,
        range_weight(sc@, sel@, 0, sc@.len() as int) <= max_weight,
{
    let m = sc.len();
    let ghost sz = size as int;
    let ghost cap = max_weight as int;
    proof {
        assert((m + 1) * size >= m + 1) by (nonlinear_arith)
            requires
                size >= 1,
        ;
    }
    let rows = m + 1;
    let mut sel = vec![false; m];
    let mut i: usize = m;
    let mut c: u32 = top;
    proof {
        lemma_cost_inv_at_len(table@, sc@, sz, cap);
    }
    let k0 = cell_index(m, top as usize, rows, size);
    let mut rem: u32 = match table[k0] {
        Some(w) => w,
        None => 0,
    };
    proof {
        lemma_cost_inv_at(table@, sc@, sz, cap, m as int, top as int);
        lemma_range_none(sc@, sel@, m as int, m as int);
    }
    while i > 0
        invariant
            m == sc@.len(),
            rows == m + 1,
            sz == size,
            cap == max_weight,
            rows * size <= usize::MAX,
            cost_inv(table@, sc@, sz, cap),
            i <= m,
            c < size,
            sel@.len() == m,
            table@[cell(i as int, c as int, sz)] is Some,
            table@[cell(i as int, c as int, sz)]->0 <= rem,
            range_cost(sc@, sel@, i as int, m as int) + c == top,
            range_weight(sc@, sel@, i as int, m as int) + rem <= max_weight,
            forall|j: int| 0 <= j < i ==> !sel@[j],
        decreases i,
    {
        proof {
            lemma_cost_inv_at(table@, sc@, sz, cap, i as int, c as int);
            reveal(has_pred);
        }
        let it = sc[i - 1];
        let k = cell_index(i - 1, c as usize, rows, size);
        let skip = match table[k] {
            Some(u) => u <= rem,
            None => false,
        };
        if skip {
            rem = match table[k] {
                Some(u) => u,
                None => rem,
            };
            proof {
                assert(range_cost(sc@, sel@, i - 1, m as int) == range_cost(sc@, sel@, i as int, m as int));
            }
        } else {
            let ghost before = sel@;
            let c2 = c - it.cost;
            let k2 = cell_index(i - 1, c2 as usize, rows, size);
            let u = match table[k2] {
                Some(u) => u,
                None => 0,
            };
            sel.set(i - 1, true);
            proof {
                lemma_range_agree(sc@, before, sel@, i as int, m as int);
            }
            c = c2;
            rem = u;
        }
        i = i - 1;
    }
    proof {
        lemma_cost_inv_at(table@, sc@, sz, cap, 0, c as int);
    }
    sel
}

/// The largest cost in the last row of the table that some choice reaches.
fn best_in_last_row(table: &Vec<Option<u32>>, m: usize, size: usize) -> (r: Option<u32>)
    requires
        table@.len() == (m + 1) * size,
        (m + 1) * size <= usize::MAX,
        size <= u32::MAX,
    ensures
        match r {
            Some(c) => c < size && table@[cell(m as int, c as int, size as int)] is Some,
            None => true,
        },
        forall|c: int| 0 <= c < size && (#[trigger] table@[cell(m as int, c, size as int)]) is Some
            ==> r is Some && c <= r->0,
{
    let mut best: Option<u32> = None;
    let mut c: usize = 0;
    while c < size
        invariant
            c <= size <= u32::MAX,
            table@.len() == (m + 1) * size,
            (m + 1) * size <= usize::MAX,
            forall|c2: int| 0 <= c2 < c && (#[trigger] table@[cell(m as int, c2, size as int)]) is Some
                ==> best is Some && c2 <= best->0,
            match best {
                Some(b) => b < size && table@[cell(m as int, b as int, size as int)] is Some,
                None => true,
            },
        decreases size - c,
    {
        proof {
            assert((m + 1) * size >= m + 1) by (nonlinear_arith)
                requires
                    size >= 1,
                    m >= 0,
            ;
        }
        let k = cell_index(m, c, m + 1, size);
        if table[k].is_some() {
            best = Some(c as u32);
        }
        c = c + 1;
    }
    best
}

/// Runs the table for the ratio-sorted `items` (their costs divided by `g`
/// in `sc`) and returns the better of its result and `redux`.
fn solve_in_table(
    problem: &Problem,
    items: &Vec<Item>,
    mappings: &Vec<usize>,
    g: u32,
    sc: &Vec<Item>,
    size: usize,
    redux: Solution,
) -> (r: Solution)
    requires
        problem.wf(),
        redux.answers(problem),
        redux.items is Some,
        is_reindexing(problem.items@, items@, mappings@),
        suffix_cost(items@, 0) <= suffix_cost(problem.items@, 0),
        suffix_weight(items@, 0) <= suffix_weight(problem.items@, 0),
        g > 0,
        divides_costs(items@, g as int),
        sc@ == scale_costs(items@, g as int),
        1 <= size <= MAX_TABLE_CELLS,
        cells_of(sc@.len() as int, size as int) <= MAX_TABLE_CELLS,
        forall|k: int| 0 <= k < items@.len() - 1 ==> ranks_ge(#[trigger] items@[k], items@[k + 1]),
        opt(sc@, 0, problem.max_weight as int) < size,
        opt(items@, 0, problem.max_weight as int) >= problem.optimum(),
    ensures
        r.answers(problem),
        r.items is Some,
        r.cost >= redux.cost,
        r.cost == problem.optimum(),
{
    let m = sc.len();
    proof {
        reveal(cells_of);
        lemma_scale_suffix(items@, g as int, 0);
        assert forall|q: int| 0 <= q < mappings@.len() implies mappings@[q] < problem.size by {}
    }
    let ghost cap = problem.max_weight as int;
    let ghost o_sc = opt(sc@, 0, cap);
    proof {
        assert forall|k: int| 0 <= k < sc@.len() - 1 implies ranks_ge(#[trigger] sc@[k], sc@[k + 1]) by {
            lemma_scaled_ranks(items@[k], items@[k + 1], g as int);
        }
        lemma_scaled_opt(items@, g as int, 0, cap);
        crate::laws::lemma_answer_le_optimum(problem, &redux);
        let x = redux.cost as int;
        vstd::arithmetic::div_mod::lemma_div_is_ordered(x, (g as int) * o_sc, g as int);
        assert((g as int) * o_sc / (g as int) == o_sc) by (nonlinear_arith)
            requires
                g > 0,
        ;
    }
    let seed = redux.cost / g;
    let table = fill_cost_table(&sc, problem.max_weight, size, seed);
    proof {
        lemma_cost_inv_at_len(table@, sc@, size as int, problem.max_weight as int);
    }
    match best_in_last_row(&table, m, size) {
        None => {
            proof {
                lemma_cost_inv_at_len(table@, sc@, size as int, cap);
            }
            redux
        },
        Some(top) => {
            proof {
                lemma_cost_inv_at(table@, sc@, size as int, cap, m as int, top as int);
                assert(top >= o_sc);
            }
            let sel = walk_back(&sc, &table, size, problem.max_weight, top);
            proof {
                lemma_scale_sums(items@, g as int, sel@, 0, m as int);
                lemma_range_le_suffix(items@, sel@, 0);
                assert((g as int) * (top as int) <= u32::MAX);
            }
            let found = (g as u64) * (top as u64);
            if found > redux.cost as u64 {
                let back = map_back(&sel, &mappings, problem.size);
                proof {
                    lemma_reindex(problem.items@, items@, mappings@, sel@, back@, m as int);
                }
                let r = Solution { id: problem.id, size: problem.size, cost: found as u32, items: Some(back) };
                proof {
                    crate::laws::lemma_answer_le_optimum(problem, &r);
                }
                r
            } else {
                redux
            }
        },
    }
}

/// Cells of a table with a row for each of `m` items and one more, and
/// `size` columns.
#[verifier::opaque]
pub open spec fn cells_of(m: int, size: int) -> int {
    (m + 1) * size
}

/// Whether a table of `m + 1` rows of `size` cells stays within
/// `MAX_TABLE_CELLS`.
fn fits_table(m: usize, size: usize) -> (r: bool)
    ensures
        r == (cells_of(m as int, size as int) <= MAX_TABLE_CELLS),
        r ==> size <= MAX_TABLE_CELLS,
{
    proof {
        reveal(cells_of);
        assert((m + 1) * size >= size) by (nonlinear_arith)
            requires
                m >= 0,
                size >= 0,
        ;
    }
    if m >= MAX_TABLE_CELLS {
        proof {
            assert((m + 1) * size >= m + 1 || size == 0) by (nonlinear_arith)
                requires
                    m >= 0,
                    size >= 0,
            ;
        }
        return size == 0;
    }
    let rows = m + 1;
    match rows.checked_mul(size) {
        Some(c) => c <= MAX_TABLE_CELLS,
        None => false,
    }
}

/// The table size, in cells, below which the cost-indexed solver always
/// gives a selection: one row per item and one more, one column per unit of
/// total cost and one more.
#[verifier::opaque]
pub open spec fn cost_table_bound(p: &Problem) -> int {
    (p.items@.len() + 1) * (suffix_cost(p.items@, 0) + 1)
}

proof fn lemma_cost_table_bound(p: &Problem, m: int, size: int)
    requires
        0 <= m <= p.items@.len(),
        0 <= size <= suffix_cost(p.items@, 0) + 1,
    ensures
        cells_of(m, size) <= cost_table_bound(p),
        suffix_cost(p.items@, 0) + 1 <= cost_table_bound(p),
{
    reveal(cost_table_bound);
    reveal(cells_of);
    let n = p.items@.len() as int;
    let total = suffix_cost(p.items@, 0);
    crate::model::lemma_suffix_nonneg(p.items@, 0);
    assert((m + 1) * size <= (n + 1) * (total + 1)) by (nonlinear_arith)
        requires
            0 <= m <= n,
            0 <= size <= total + 1,
    ;
    assert((n + 1) * (total + 1) >= total + 1) by (nonlinear_arith)
        requires
            n >= 0,
            total >= 0,
    ;
}

impl SolverTrait for DynamicCostSolver {
    open spec fn valid(&self) -> bool {
        true
    }

    /// The optimum; no selection only where the table would pass
    /// `MAX_TABLE_CELLS`.
    fn construction(&self, problem: &Problem) -> (r: Solution)
        ensures
            r.items is Some ==> r.cost == problem.optimum(),
            r.items is Some ==> r.cost >= redux_value(problem),
            r.items is None ==> cost_table_bound(problem) > MAX_TABLE_CELLS,
            (r.items is None) == (cost_table_needed(problem) && cost_table_cells(problem) > MAX_TABLE_CELLS),
    {
        let redux = ReduxSolver().construction(problem);
        let (items, mappings) = sort_by_cost_weight_ratio(&problem.items, problem.max_weight);
        let ghost cap = problem.max_weight as int;
        proof {
            crate::bounds::lemma_sorted_opt_ge(problem.items@, cap);
            crate::laws::lemma_answer_le_optimum(problem, &redux);
            crate::model::lemma_opt_nonneg(problem.items@, 0, cap);
        }
        if items.len() == 0 {
            assert(opt(items@, 0, cap) == 0);
            return redux;
        }
        let ghost n = problem.items@.len() as int;
        let ghost total = suffix_cost(problem.items@, 0);
        proof {
            lemma_index_map_reindexing(problem.items@, items@, mappings@, problem.max_weight as int);
            lemma_reindexed_totals(problem.items@, items@, mappings@);
            lemma_ratio_sorted_len(problem.items@, problem.max_weight as int, n);
        }
        let g = cost_gcd(&items);
        let sc = scale_items(&items, g);
        proof {
            lemma_scale_suffix(items@, g as int, 0);
            crate::model::lemma_suffix_nonneg(problem.items@, 0);
        }
        let maxc = max_cost(&sc, problem.max_weight);
        proof {
            assert(sc@ == scaled_items(problem));
            lemma_sums_ordered(sc@);
            let p1 = choose|p: int| is_fit_end(weight_sums(sc@), 0, cap, p)
                && maxc == frac_value(cost_sums(sc@), weight_sums(sc@), 0, cap, p);
            let p2 = choose|p: int| is_fit_end(weight_sums(sc@), 0, cap, p);
            crate::utils::lemma_fit_end_unique(weight_sums(sc@), 0, cap, p1, p2);
            assert(maxc == max_cost_of(sc@, cap));
            assert forall|k: int| 0 <= k < sc@.len() - 1 implies ranks_ge(#[trigger] sc@[k], sc@[k + 1]) by {
                lemma_scaled_ranks(items@[k], items@[k + 1], g as int);
            }
            let p = choose|p: int| is_fit_end(weight_sums(sc@), 0, cap, p)
                && maxc == frac_value(cost_sums(sc@), weight_sums(sc@), 0, cap, p);
            crate::bounds::lemma_frac_bound_sound(sc@, 0, cap, p);
            lemma_scaled_opt(items@, g as int, 0, cap);
            assert(opt(sc@, 0, cap) <= maxc);
            crate::model::lemma_opt_nonneg(sc@, 0, cap);
        }
        if maxc == 0 {
            proof {
                assert((g as int) * opt(sc@, 0, cap) == 0) by (nonlinear_arith)
                    requires
                        opt(sc@, 0, cap) == 0,
                ;
            }
            return redux;
        }
        let m = sc.len();
        let size = match (maxc as usize).checked_add(1) {
            Some(v) => v,
            None => {
                proof {
                    lemma_cost_table_bound(problem, 0, 0);
                    reveal(cells_of);
                    assert((m + 1) * ((maxc as int) + 1) >= (maxc as int) + 1) by (nonlinear_arith)
                        requires
                            m >= 0,
                            maxc >= 0,
                    ;
                }
                return Solution::none(problem.id, problem.size);
            },
        };
        proof {
            lemma_cost_table_bound(problem, m as int, size as int);
        }
        if !fits_table(m, size) {
            return Solution::none(problem.id, problem.size);
        }
        solve_in_table(problem, &items, &mappings, g, &sc, size, redux)
    }
}

} // verus!
