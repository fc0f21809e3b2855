//! Consequences of the ratio order: the bounds that prune the search are
//! sound, and Redux reaches at least half of the optimum.
use vstd::prelude::*;
use crate::greedy::{greedy_rem, greedy_taken, greedy_value};
use crate::model::{
    carries, lemma_opt_nonneg, lemma_range_agree, lemma_range_le_suffix, lemma_range_last,
    lemma_reindex, opt, range_cost, range_weight, Item, Problem,
};
use crate::redux::redux_value;
use crate::utils::{
    cost_sums, frac_value, is_fit_end, lemma_sums_ordered, weight_sums,
    best_single, is_index_map, lemma_ratio_sorted_props, ranks_ge, ratio_of, ratio_ordered,
    ratio_sorted,
};

verus! {

/// `a`'s cost/weight ratio is at least `b`'s.
pub open spec fn ratio_ge(a: Item, b: Item) -> bool {
    ratio_of(a).0 * ratio_of(b).1 >= ratio_of(b).0 * ratio_of(a).1
}

proof fn lemma_ranks_ratio(a: Item, b: Item)
    requires
        ranks_ge(a, b),
    ensures
        ratio_ge(a, b),
{
    reveal(ranks_ge);
}

proof fn lemma_ratio_trans(a: Item, b: Item, c: Item)
    requires
        ratio_ge(a, b),
        ratio_ge(b, c),
    ensures
        ratio_ge(a, c),
{
    let (an, ad) = ratio_of(a);
    let (bn, bd) = ratio_of(b);
    let (cn, cd) = ratio_of(c);
    assert(an >= 0 && ad >= 0 && bn >= 0 && bd >= 0 && cn >= 0 && cd >= 0);
    assert(bn > 0 || bd > 0);
    if bd > 0 {
        assert(an * cd >= cn * ad) by (nonlinear_arith)
            requires
                an * bd >= bn * ad,
                bn * cd >= cn * bd,
                bd > 0,
                an >= 0,
                ad >= 0,
                cd >= 0,
                cn >= 0,
                bn >= 0,
        ;
    } else {
        assert(ad == 0) by (nonlinear_arith)
            requires
                an * bd >= bn * ad,
                bd == 0,
                bn > 0,
                ad >= 0,
        ;
        assert(an * cd >= cn * ad) by (nonlinear_arith)
            requires
                ad == 0,
                an >= 0,
                cd >= 0,
        ;
    }
}

/// In an order where each entry ranks at least as high as the next, every
/// entry's ratio is at least that of every later one.
pub proof fn lemma_ratio_descending(s: Seq<Item>, a: int, b: int)
    requires
        0 <= a <= b < s.len(),
        forall|k: int| 0 <= k < s.len() - 1 ==> ranks_ge(#[trigger] s[k], s[k + 1]),
    ensures
        ratio_ge(s[a], s[b]),
    decreases b - a,
{
    if a == b {
        let (n, d) = ratio_of(s[a]);
        assert(n * d >= n * d);
    } else {
        lemma_ratio_descending(s, a + 1, b);
        lemma_ranks_ratio(s[a], s[a + 1]);
        lemma_ratio_trans(s[a], s[a + 1], s[b]);
    }
}

/// The ratio order in cross-multiplied form against an item that weighs
/// something.
pub proof fn lemma_ratio_raw(a: Item, b: Item)
    requires
        b.weight > 0,
    ensures
        ratio_ge(a, b) ==> a.cost * b.weight >= b.cost * a.weight,
        ratio_ge(b, a) ==> a.cost * b.weight <= b.cost * a.weight,
{
    if a.weight == 0 {
        if a.cost > 0 {
            assert(ratio_ge(b, a) ==> false) by (nonlinear_arith)
                requires
                    ratio_ge(b, a) ==> (b.cost as int) * 0 >= 1 * (b.weight as int),
                    b.weight > 0,
            ;
        }
    }
}

/// Against the item `s[k]`, every selection of `s[lo..]` gains at most what
/// the whole of `s[lo..k]` gains, counting cost at `s[k].weight` and weight
/// at `s[k].cost`.
pub proof fn lemma_exchange(s: Seq<Item>, x: Seq<bool>, all: Seq<bool>, k: int, lo: int)
    requires
        0 <= k < s.len(),
        0 <= lo <= s.len(),
        s[k].weight > 0,
        forall|j: int| 0 <= j < s.len() ==> all[j],
        forall|j: int| 0 <= j < k ==> s[j].cost * s[k].weight >= s[k].cost * #[trigger] s[j].weight,
        forall|j: int| k <= j < s.len() ==> s[j].cost * s[k].weight <= s[k].cost * #[trigger] s[j].weight,
    ensures
        s[k].weight * range_cost(s, x, lo, s.len() as int) - s[k].cost * range_weight(s, x, lo, s.len() as int)
            <= s[k].weight * range_cost(s, all, lo, k) - s[k].cost * range_weight(s, all, lo, k),
    decreases s.len() - lo,
{
    let n = s.len() as int;
    let wk = s[k].weight as int;
    let ck = s[k].cost as int;
    if lo < n {
        lemma_exchange(s, x, all, k, lo + 1);
        let c = s[lo].cost as int;
        let w = s[lo].weight as int;
        let rc = range_cost(s, x, lo + 1, n);
        let rw = range_weight(s, x, lo + 1, n);
        let xc = if x[lo] { c } else { 0 };
        let xw = if x[lo] { w } else { 0 };
        assert(wk * (xc + rc) - ck * (xw + rw) == (wk * xc - ck * xw) + (wk * rc - ck * rw)) by (nonlinear_arith);
        if lo < k {
            let ac = range_cost(s, all, lo + 1, k);
            let aw = range_weight(s, all, lo + 1, k);
            assert(wk * (c + ac) - ck * (w + aw) == (wk * c - ck * w) + (wk * ac - ck * aw)) by (nonlinear_arith);
            assert(wk * xc - ck * xw <= wk * c - ck * w) by (nonlinear_arith)
                requires
                    c * wk >= ck * w,
                    xc == c && xw == w || xc == 0 && xw == 0,
            ;
        } else {
            assert(wk * xc - ck * xw <= 0) by (nonlinear_arith)
                requires
                    c * wk <= ck * w,
                    xc == c && xw == w || xc == 0 && xw == 0,
            ;
        }
    }
}

/// A choice among `items[i..]` that reaches `opt(items, i, budget)`.
pub proof fn lemma_opt_witness(items: Seq<Item>, i: int, budget: int) -> (sel: Seq<bool>)
    requires
        0 <= i <= items.len(),
        budget >= 0,
    ensures
        sel.len() == items.len(),
        range_cost(items, sel, i, items.len() as int) == opt(items, i, budget),
        range_weight(items, sel, i, items.len() as int) <= budget,
    decreases items.len() - i,
{
    let n = items.len() as int;
    if i >= n {
        Seq::new(items.len(), |j: int| false)
    } else {
        let without = opt(items, i + 1, budget);
        let with = opt(items, i + 1, budget - items[i].weight);
        if with >= 0 && with + items[i].cost > without {
            let t = lemma_opt_witness(items, i + 1, budget - items[i].weight);
            let r = t.update(i, true);
            lemma_range_agree(items, t, r, i + 1, n);
            r
        } else {
            let t = lemma_opt_witness(items, i + 1, budget);
            let r = t.update(i, false);
            lemma_range_agree(items, t, r, i + 1, n);
            r
        }
    }
}

/// A selected item weighs no more than the whole selection.
proof fn lemma_item_le_range(items: Seq<Item>, sel: Seq<bool>, lo: int, hi: int, j: int)
    requires
        0 <= lo <= j < hi <= items.len(),
        sel[j],
    ensures
        items[j].weight <= range_weight(items, sel, lo, hi),
    decreases hi - lo,
{
    if lo < j {
        lemma_item_le_range(items, sel, lo + 1, hi, j);
        lemma_range_nonneg(items, sel, lo + 1, hi);
    } else {
        lemma_range_nonneg(items, sel, lo + 1, hi);
    }
}

pub proof fn lemma_range_nonneg(items: Seq<Item>, sel: Seq<bool>, lo: int, hi: int)
    ensures
        range_cost(items, sel, lo, hi) >= 0,
        range_weight(items, sel, lo, hi) >= 0,
    decreases hi - lo,
{
    if lo < hi {
        lemma_range_nonneg(items, sel, lo + 1, hi);
    }
}

/// A range sum splits at any point inside the range.
pub proof fn lemma_range_split(items: Seq<Item>, sel: Seq<bool>, lo: int, mid: int, hi: int)
    requires
        lo <= mid <= hi,
    ensures
        range_cost(items, sel, lo, hi) == range_cost(items, sel, lo, mid) + range_cost(items, sel, mid, hi),
        range_weight(items, sel, lo, hi) == range_weight(items, sel, lo, mid) + range_weight(items, sel, mid, hi),
    decreases mid - lo,
{
    if lo < mid {
        lemma_range_split(items, sel, lo + 1, mid, hi);
    }
}

/// Selecting everything costs at least as much as any selection.
proof fn lemma_range_all_max(items: Seq<Item>, x: Seq<bool>, all: Seq<bool>, lo: int, hi: int)
    requires
        forall|j: int| lo <= j < hi ==> all[j],
    ensures
        range_cost(items, x, lo, hi) <= range_cost(items, all, lo, hi),
    decreases hi - lo,
{
    if lo < hi {
        lemma_range_all_max(items, x, all, lo + 1, hi);
    }
}

/// The greedy pass has used exactly the weight it took so far.
proof fn lemma_greedy_rem(s: Seq<Item>, cap: int, k: int)
    requires
        0 <= k <= s.len(),
        cap >= 0,
    ensures
        greedy_rem(s, cap, k) == cap - range_weight(s, greedy_taken(s, cap), 0, k),
        greedy_rem(s, cap, k) >= 0,
    decreases k,
{
    if k > 0 {
        lemma_greedy_rem(s, cap, k - 1);
        lemma_range_last(s, greedy_taken(s, cap), 0, k);
    }
}

/// The first position from `i` on where `t` does not hold (or `n`).
proof fn lemma_first_false(t: Seq<bool>, i: int, n: int) -> (r: int)
    requires
        0 <= i <= n,
    ensures
        i <= r <= n,
        forall|j: int| i <= j < r ==> t[j],
        r < n ==> !t[r],
    decreases n - i,
{
    if i >= n || !t[i] {
        i
    } else {
        lemma_first_false(t, i + 1, n)
    }
}

/// `best_single` is at least the cost of any item that fits.
proof fn lemma_best_single_ge(items: Seq<Item>, cap: int, j: int, k: int)
    requires
        0 <= j < k <= items.len(),
        items[j].weight <= cap,
    ensures
        items[j].cost <= best_single(items, cap, k),
    decreases k,
{
    if j < k - 1 {
        lemma_best_single_ge(items, cap, j, k - 1);
    }
}

/// Redux reaches at least half of the optimum: the greedy pass takes a
/// ratio-sorted prefix, and that prefix with the first item it leaves out is
/// worth at least the optimum, while that item alone fits.
pub proof fn lemma_redux_half(p: &Problem)
    requires
        p.wf(),
    ensures
        2 * redux_value(p) >= p.optimum(),
{
    let items = p.items@;
    let n = items.len() as int;
    let cap = p.max_weight as int;
    let (s, m) = ratio_sorted(items, cap, n);
    lemma_ratio_sorted_props(items, cap, n);
    let ms = s.len() as int;
    let taken = greedy_taken(s, cap);
    let all = Seq::new(s.len(), |j: int| true);
    // an optimal selection, carried into ratio order
    let sel = lemma_opt_witness(items, 0, cap);
    let x = Seq::new(m.len(), |q: int| sel[m[q] as int]);
    assert forall|j: int| 0 <= j < sel.len() && sel[j] implies exists|q: int| 0 <= q < ms && m[q] == j by {
        lemma_item_le_range(items, sel, 0, n, j);
    }
    assert(carries(m, x, sel, ms));
    lemma_reindex(items, s, m, x, sel, ms);
    let best = opt(items, 0, cap);
    assert(range_cost(s, x, 0, ms) == best);
    assert(range_weight(s, x, 0, ms) <= cap);
    let k = lemma_first_false(taken, 0, ms);
    lemma_range_agree(s, taken, all, 0, k);
    let g = greedy_value(items, cap);
    let b = best_single(items, cap, n);
    assert(g == range_cost(s, taken, 0, ms));
    assert(redux_value(p) >= g && redux_value(p) >= b);
    assert(p.optimum() == best);
    lemma_opt_nonneg(items, 0, cap);
    if k == ms {
        lemma_range_all_max(s, x, all, 0, ms);
        assert(g >= best);
    } else {
        // the prefix s[..k] is taken whole; s[k] does not fit after it
        lemma_greedy_rem(s, cap, k);
        let wk = s[k].weight as int;
        let ck = s[k].cost as int;
        let pc = range_cost(s, all, 0, k);
        let pw = range_weight(s, all, 0, k);
        assert(wk > cap - pw);
        assert(cap - pw >= 0);
        assert forall|j: int| 0 <= j < k implies s[j].cost * s[k].weight >= s[k].cost * #[trigger] s[j].weight by {
            lemma_ratio_descending(s, j, k);
            lemma_ratio_raw(s[j], s[k]);
        }
        assert forall|j: int| k <= j < ms implies s[j].cost * s[k].weight <= s[k].cost * #[trigger] s[j].weight by {
            lemma_ratio_descending(s, k, j);
            lemma_ratio_raw(s[j], s[k]);
        }
        lemma_exchange(s, x, all, k, 0);
        let xw = range_weight(s, x, 0, ms);
        assert(best <= pc + ck) by (nonlinear_arith)
            requires
                wk * best - ck * xw <= wk * pc - ck * pw,
                xw <= cap,
                cap - pw < wk,
                ck >= 0,
                wk > 0,
        ;
        lemma_range_split(s, taken, 0, k, ms);
        lemma_range_nonneg(s, taken, k, ms);
        assert(s[k] == items[m[k] as int]);
        lemma_best_single_ge(items, cap, m[k] as int, n);
        assert(g >= pc);
        assert(b >= ck);
    }
}

/// Against a fraction `num / den` that is at least the ratio of each of
/// `s[lo..]`, a selection's cost times `den` is at most its weight times `num`.
pub proof fn lemma_ratio_cap(s: Seq<Item>, x: Seq<bool>, lo: int, num: int, den: int)
    requires
        0 <= lo <= s.len(),
        num >= 0,
        den > 0,
        forall|j: int| lo <= j < s.len() ==> (#[trigger] s[j]).cost * den <= num * s[j].weight,
    ensures
        den * range_cost(s, x, lo, s.len() as int) <= num * range_weight(s, x, lo, s.len() as int),
    decreases s.len() - lo,
{
    if lo < s.len() {
        lemma_ratio_cap(s, x, lo + 1, num, den);
        let c = s[lo].cost as int;
        let w = s[lo].weight as int;
        let rc = range_cost(s, x, lo + 1, s.len() as int);
        let rw = range_weight(s, x, lo + 1, s.len() as int);
        let xc = if x[lo] { c } else { 0 };
        let xw = if x[lo] { w } else { 0 };
        assert(den * (xc + rc) <= num * (xw + rw)) by (nonlinear_arith)
            requires
                den * rc <= num * rw,
                c * den <= num * w,
                xc == c && xw == w || xc == 0 && xw == 0,
        ;
    }
}

/// In ratio order, each later item's ratio is at most `ratio_of(s[i])`,
/// cross-multiplied.
pub proof fn lemma_later_ratio(s: Seq<Item>, i: int, j: int)
    requires
        0 <= i <= j < s.len(),
        forall|k: int| 0 <= k < s.len() - 1 ==> ranks_ge(#[trigger] s[k], s[k + 1]),
        ratio_of(s[i]).1 > 0,
    ensures
        s[j].cost * ratio_of(s[i]).1 <= ratio_of(s[i]).0 * s[j].weight,
{
    lemma_ratio_descending(s, i, j);
    if s[i].weight > 0 {
        lemma_ratio_raw(s[j], s[i]);
    } else {
        // s[i] is worth nothing and weighs nothing: so are the later ones' costs
        if s[j].weight == 0 && s[j].cost > 0 {
            assert(false) by (nonlinear_arith)
                requires
                    0 * 0 >= 1 * 1,
            ;
        }
    }
}

/// The difference of two suffix totals is the sum in between.
pub proof fn lemma_suffix_diff(items: Seq<Item>, all: Seq<bool>, i: int, p: int)
    requires
        0 <= i <= p <= items.len(),
        forall|j: int| 0 <= j < items.len() ==> all[j],
    ensures
        crate::model::suffix_cost(items, i) - crate::model::suffix_cost(items, p) == range_cost(items, all, i, p),
        crate::model::suffix_weight(items, i) - crate::model::suffix_weight(items, p) == range_weight(items, all, i, p),
    decreases p - i,
{
    if i < p {
        lemma_suffix_diff(items, all, i + 1, p);
    }
}

/// Of `a * d <= b` with `d > 0`: `a <= b / d`.
pub proof fn lemma_le_div(a: int, b: int, d: int)
    requires
        d > 0,
        a * d <= b,
    ensures
        a <= b / d,
{
    vstd::arithmetic::div_mod::lemma_fundamental_div_mod(b, d);
    let q = b / d;
    let r = b % d;
    assert(a <= q) by (nonlinear_arith)
        requires
            a * d <= b,
            b == d * q + r,
            r < d,
            d > 0,
    ;
}

/// Facts of global ratio order, cross-multiplied against `s[k]`.
pub proof fn lemma_order_around(s: Seq<Item>, k: int)
    requires
        0 <= k < s.len(),
        s[k].weight > 0,
        forall|q: int| 0 <= q < s.len() - 1 ==> ranks_ge(#[trigger] s[q], s[q + 1]),
    ensures
        forall|j: int| 0 <= j < k ==> s[j].cost * s[k].weight >= s[k].cost * #[trigger] s[j].weight,
        forall|j: int| k <= j < s.len() ==> s[j].cost * s[k].weight <= s[k].cost * #[trigger] s[j].weight,
{
    assert forall|j: int| 0 <= j < k implies s[j].cost * s[k].weight >= s[k].cost * #[trigger] s[j].weight by {
        lemma_ratio_descending(s, j, k);
        lemma_ratio_raw(s[j], s[k]);
    }
    assert forall|j: int| k <= j < s.len() implies s[j].cost * s[k].weight <= s[k].cost * #[trigger] s[j].weight by {
        lemma_ratio_descending(s, k, j);
        lemma_ratio_raw(s[j], s[k]);
    }
}

/// Putting the items in ratio order loses no choice: the optimum over the
/// ratio-sorted fitting items is at least the optimum over all items.
pub proof fn lemma_sorted_opt_ge(items: Seq<Item>, cap: int)
    requires
        cap >= 0,
        items.len() <= usize::MAX,
    ensures
        opt(ratio_sorted(items, cap, items.len() as int).0, 0, cap) >= opt(items, 0, cap),
{
    let n = items.len() as int;
    let (s, m) = ratio_sorted(items, cap, n);
    lemma_ratio_sorted_props(items, cap, n);
    let ms = s.len() as int;
    let sel = lemma_opt_witness(items, 0, cap);
    let x = Seq::new(m.len(), |q: int| sel[m[q] as int]);
    assert forall|j: int| 0 <= j < sel.len() && sel[j] implies exists|q: int| 0 <= q < ms && m[q] == j by {
        lemma_item_le_range(items, sel, 0, n, j);
    }
    assert(carries(m, x, sel, ms));
    lemma_reindex(items, s, m, x, sel, ms);
    crate::model::lemma_opt_upper(s, x, 0, cap);
}

/// The fractional bound of ratio-sorted items caps the optimum of the items
/// from `start` on.
pub proof fn lemma_frac_bound_sound(items: Seq<Item>, start: int, b: int, p: int)
    requires
        0 <= start <= items.len(),
        b >= 0,
        crate::model::suffix_cost(items, 0) <= u32::MAX,
        crate::model::suffix_weight(items, 0) <= u32::MAX,
        forall|k: int| 0 <= k < items.len() - 1 ==> ranks_ge(#[trigger] items[k], items[k + 1]),
        is_fit_end(weight_sums(items), start, b, p),
    ensures
        opt(items, start, b) <= frac_value(cost_sums(items), weight_sums(items), start, b, p),
{
    let n = items.len() as int;
    let rc = cost_sums(items);
    let rw = weight_sums(items);
    let all = Seq::new(items.len(), |j: int| true);
    lemma_sums_ordered(items);
    let o = opt(items, start, b);
    let sel = lemma_opt_witness(items, start, b);
    reveal(frac_value);
    lemma_suffix_diff(items, all, start, p);
    if p < n {
        lemma_suffix_diff(items, all, p, p + 1);
        let wp = items[p].weight as int;
        let cp = items[p].cost as int;
        assert(wp == rw[p] - rw[p + 1]);
        assert(cp == rc[p] - rc[p + 1]);
        lemma_order_around(items, p);
        lemma_exchange(items, sel, all, p, start);
        let c0 = range_cost(items, all, start, p);
        let w0 = range_weight(items, all, start, p);
        let xw = range_weight(items, sel, start, n);
        assert((o - c0) * wp <= (b - w0) * cp) by (nonlinear_arith)
            requires
                wp * o - cp * xw <= wp * c0 - cp * w0,
                xw <= b,
                cp >= 0,
        ;
        lemma_le_div(o - c0, (b - w0) * cp, wp);
    } else {
        crate::model::lemma_opt_le_suffix(items, start, b);
    }
}

} // verus!
