//! Shared numeric helpers: the exact cost/weight ratio order, the ratio sort,
//! suffix sums, the fractional bound and the best single item.
use vstd::prelude::*;
use gcd::Gcd;
use crate::model::{
    carries, is_reindexing, lemma_range_le_suffix, lemma_reindex, range_cost, range_weight,
    suffix_cost, suffix_weight, Item,
};

verus! {

/// The cost/weight ratio of an item as a fraction. An item without weight
/// counts as `1/0` (above every other ratio) if it has a cost, and as `0/1`
/// if it has none.
pub open spec fn ratio_of(it: Item) -> (int, int) {
    if it.weight == 0 {
        if it.cost == 0 { (0, 1) } else { (1, 0) }
    } else {
        (it.cost as int, it.weight as int)
    }
}

/// `a` stands no later than `b` in ratio order: a higher ratio first, and of
/// two equal ratios the heavier item first.
#[verifier::opaque]
pub open spec fn ranks_ge(a: Item, b: Item) -> bool {
    let (an, ad) = ratio_of(a);
    let (bn, bd) = ratio_of(b);
    an * bd > bn * ad || (an * bd == bn * ad && a.weight >= b.weight)
}

impl Item {
    /// The cost/weight ratio as numerator and denominator.
    pub fn cost_weight_ratio(&self) -> (r: (u32, u32))
        ensures
            (r.0 as int, r.1 as int) == ratio_of(*self),
    {
        if self.weight == 0 {
            if self.cost == 0 { (0, 1) } else { (1, 0) }
        } else {
            (self.cost, self.weight)
        }
    }
}

/// A product of two 32-bit values fits into 64 bits.
pub proof fn lemma_mul_u32_fits(a: u32, b: u32)
    ensures
        (a as int) * (b as int) <= u64::MAX,
        (a as int) * (b as int) >= 0,
{
    assert((a as int) * (b as int) <= (u32::MAX as int) * (u32::MAX as int)) by (nonlinear_arith)
        requires
            a <= u32::MAX,
            b <= u32::MAX,
            a >= 0,
            b >= 0,
    ;
    assert((a as int) * (b as int) >= 0) by (nonlinear_arith)
        requires
            a >= 0,
            b >= 0,
    ;
}

/// Of two items one ranks at least as high as the other.
pub proof fn lemma_ranks_total(a: Item, b: Item)
    ensures
        ranks_ge(a, b) || ranks_ge(b, a),
{
    reveal(ranks_ge);
}

/// Decides `ranks_ge` by cross-multiplication, without rounding.
pub fn ranks_before(a: Item, b: Item) -> (r: bool)
    ensures
        r == ranks_ge(a, b),
{
    let (an, ad) = a.cost_weight_ratio();
    let (bn, bd) = b.cost_weight_ratio();
    proof {
        lemma_mul_u32_fits(an, bd);
        lemma_mul_u32_fits(bn, ad);
    }
    let l = (an as u64) * (bd as u64);
    let rr = (bn as u64) * (ad as u64);
    proof {
        reveal(ranks_ge);
    }
    l > rr || (l == rr && a.weight >= b.weight)
}

/// Where a new item `it` goes in `s`: after the last entry of `s[..k]` that
/// ranks at least as high.
pub open spec fn ins_pos(s: Seq<Item>, it: Item, k: int) -> int
    decreases k,
{
    if k <= 0 {
        0
    } else if ranks_ge(s[k - 1], it) {
        k
    } else {
        ins_pos(s, it, k - 1)
    }
}

/// The items of `items[..j]` that fit into `cap`, in ratio order, stable,
/// paired with their indices in `items`.
pub open spec fn ratio_sorted(items: Seq<Item>, cap: int, j: int) -> (Seq<Item>, Seq<usize>)
    decreases j,
{
    if j <= 0 {
        (Seq::empty(), Seq::empty())
    } else {
        let (s, m) = ratio_sorted(items, cap, j - 1);
        let it = items[j - 1];
        if it.weight <= cap {
            let p = ins_pos(s, it, s.len() as int);
            (s.insert(p, it), m.insert(p, (j - 1) as usize))
        } else {
            (s, m)
        }
    }
}

/// `sorted` lists, in order, the items `items[map[k]]`: distinct indices,
/// each of an item that fits into `cap`.
pub open spec fn is_index_map(items: Seq<Item>, sorted: Seq<Item>, map: Seq<usize>, cap: int) -> bool {
    &&& sorted.len() == map.len()
    &&& forall|k: int| 0 <= k < map.len() ==> map[k] < items.len()
    &&& forall|k: int| 0 <= k < map.len() ==> sorted[k] == items[map[k] as int]
    &&& forall|k: int| 0 <= k < map.len() ==> sorted[k].weight <= cap
    &&& forall|k1: int, k2: int| 0 <= k1 < map.len() && 0 <= k2 < map.len() && k1 != k2
        ==> map[k1] != map[k2]
}

/// Each entry ranks at least as high as the next; equal neighbours keep
/// their order in `items`.
pub open spec fn ratio_ordered(sorted: Seq<Item>, map: Seq<usize>) -> bool {
    forall|k: int| 0 <= k < sorted.len() - 1 ==> {
        &&& ranks_ge(#[trigger] sorted[k], sorted[k + 1])
        &&& (ranks_ge(sorted[k + 1], sorted[k]) ==> map[k] < map[k + 1])
    }
}

/// What the insertion position is: after an entry that ranks at least as
/// high, before entries that rank lower.
proof fn lemma_ins_pos_facts(s: Seq<Item>, it: Item, k: int)
    requires
        0 <= k <= s.len(),
    ensures
        0 <= ins_pos(s, it, k) <= k,
        ins_pos(s, it, k) > 0 ==> ranks_ge(s[ins_pos(s, it, k) - 1], it),
        forall|i: int| ins_pos(s, it, k) <= i < k ==> !ranks_ge(s[i], it),
    decreases k,
{
    if k > 0 && !ranks_ge(s[k - 1], it) {
        lemma_ins_pos_facts(s, it, k - 1);
    }
}

/// Inserting item `j` at its rank keeps an ordered index map of the items
/// before `j` that fit.
proof fn lemma_insert_ranked(items: Seq<Item>, s: Seq<Item>, m: Seq<usize>, j: int, cap: int)
    requires
        0 <= j < items.len(),
        j <= usize::MAX,
        items[j].weight <= cap,
        is_index_map(items, s, m, cap),
        forall|k: int| 0 <= k < m.len() ==> m[k] < j,
        ratio_ordered(s, m),
        forall|i: int| 0 <= i < j && items[i].weight <= cap ==> exists|k: int| 0 <= k < m.len() && m[k] == i,
    ensures
        ({
            let p = ins_pos(s, items[j], s.len() as int);
            let s2 = s.insert(p, items[j]);
            let m2 = m.insert(p, j as usize);
            &&& is_index_map(items, s2, m2, cap)
            &&& forall|k: int| 0 <= k < m2.len() ==> m2[k] <= j
            &&& ratio_ordered(s2, m2)
            &&& forall|i: int| 0 <= i <= j && items[i].weight <= cap ==> exists|k: int|
                0 <= k < m2.len() && m2[k] == i
        }),
{
    let it = items[j];
    let k = ins_pos(s, it, s.len() as int);
    lemma_ins_pos_facts(s, it, s.len() as int);
    let s2 = s.insert(k, it);
    let m2 = m.insert(k, j as usize);
    assert forall|i: int| 0 <= i < s2.len() - 1 implies {
        &&& ranks_ge(#[trigger] s2[i], s2[i + 1])
        &&& (ranks_ge(s2[i + 1], s2[i]) ==> m2[i] < m2[i + 1])
    } by {
        if i + 1 < k {
            assert(s2[i] == s[i] && s2[i + 1] == s[i + 1]);
        } else if i + 1 == k {
        } else if i == k {
            lemma_ranks_total(s2[i], s2[i + 1]);
        } else {
            assert(s2[i] == s[i - 1] && s2[i + 1] == s[i]);
        }
    }
    assert forall|i: int| 0 <= i <= j && items[i].weight <= cap implies exists|q: int|
        0 <= q < m2.len() && m2[q] == i by {
        if i < j {
            let q0 = choose|q: int| 0 <= q < m.len() && m[q] == i;
            if q0 < k {
                assert(m2[q0] == i);
            } else {
                assert(m2[q0 + 1] == i);
            }
        } else {
            assert(m2[k] == i);
        }
    }
}

/// The ratio order of the first `j` items is an ordered index map of those
/// that fit, and misses none of them.
pub proof fn lemma_ratio_sorted_props(items: Seq<Item>, cap: int, j: int)
    requires
        0 <= j <= items.len(),
        items.len() <= usize::MAX,
    ensures
        ({
            let (s, m) = ratio_sorted(items, cap, j);
            &&& is_index_map(items, s, m, cap)
            &&& forall|k: int| 0 <= k < m.len() ==> m[k] < j
            &&& ratio_ordered(s, m)
            &&& forall|i: int| 0 <= i < j && items[i].weight <= cap ==> exists|k: int|
                0 <= k < m.len() && m[k] == i
        }),
    decreases j,
{
    if j > 0 {
        lemma_ratio_sorted_props(items, cap, j - 1);
        let (s, m) = ratio_sorted(items, cap, j - 1);
        let it = items[j - 1];
        if it.weight <= cap {
            lemma_insert_ranked(items, s, m, j - 1, cap);
            let p = ins_pos(s, it, s.len() as int);
            assert(ratio_sorted(items, cap, j) == (s.insert(p, it), m.insert(p, (j - 1) as usize)));
        } else {
            assert(ratio_sorted(items, cap, j) == (s, m));
        }
    }
}

/// Inserts `items[j]` into `sorted` after the last entry that ranks at
/// least as high, and `j` at the same place into `map`.
fn insert_ranked(items: &[Item], sorted: &mut Vec<Item>, map: &mut Vec<usize>, j: usize, max_weight: u32)
    requires
        j < items@.len(),
        items@[j as int].weight <= max_weight,
        is_index_map(items@, old(sorted)@, old(map)@, max_weight as int),
        forall|k: int| 0 <= k < old(map)@.len() ==> old(map)@[k] < j,
        ratio_ordered(old(sorted)@, old(map)@),
        forall|i: int| 0 <= i < j && items@[i].weight <= max_weight
            ==> exists|k: int| 0 <= k < old(map)@.len() && old(map)@[k] == i,
    ensures
        ({
            let p = ins_pos(old(sorted)@, items@[j as int], old(sorted)@.len() as int);
            &&& final(sorted)@ == old(sorted)@.insert(p, items@[j as int])
            &&& final(map)@ == old(map)@.insert(p, j)
        }),
        is_index_map(items@, final(sorted)@, final(map)@, max_weight as int),
        forall|k: int| 0 <= k < final(map)@.len() ==> final(map)@[k] <= j,
        ratio_ordered(final(sorted)@, final(map)@),
        forall|i: int| 0 <= i <= j && items@[i].weight <= max_weight
            ==> exists|k: int| 0 <= k < final(map)@.len() && final(map)@[k] == i,
{
    let it = items[j];
    let mut k: usize = sorted.len();
    while k > 0 && !ranks_before(sorted[k - 1], it)
        invariant
            k <= sorted@.len(),
            ins_pos(sorted@, it, sorted@.len() as int) == ins_pos(sorted@, it, k as int),
            forall|i: int| k <= i < sorted@.len() ==> !ranks_ge(sorted@[i], it),
        decreases k,
    {
        k = k - 1;
    }
    proof {
        lemma_insert_ranked(items@, sorted@, map@, j as int, max_weight as int);
        lemma_ins_pos_facts(sorted@, it, sorted@.len() as int);
    }
    sorted.insert(k, it);
    map.insert(k, j);
}

/// Keeps the items that fit into `max_weight` and orders them by ratio,
/// highest first (ties: heavier first, then input order). Also returns,
/// for each entry, its index in `items`.
pub fn sort_by_cost_weight_ratio(items: &[Item], max_weight: u32) -> (r: (Vec<Item>, Vec<usize>))
    ensures
        (r.0@, r.1@) == ratio_sorted(items@, max_weight as int, items@.len() as int),
        is_index_map(items@, r.0@, r.1@, max_weight as int),
        ratio_ordered(r.0@, r.1@),
        forall|j: int| 0 <= j < items@.len() && items@[j].weight <= max_weight
            ==> exists|k: int| 0 <= k < r.1@.len() && r.1@[k] == j,
{
    let mut sorted: Vec<Item> = Vec::new();
    let mut map: Vec<usize> = Vec::new();
    let mut j: usize = 0;
    while j < items.len()
        invariant
            j <= items@.len(),
            (sorted@, map@) == ratio_sorted(items@, max_weight as int, j as int),
            is_index_map(items@, sorted@, map@, max_weight as int),
            forall|k: int| 0 <= k < map@.len() ==> map@[k] < j,
            ratio_ordered(sorted@, map@),
            forall|i: int| 0 <= i < j && items@[i].weight <= max_weight
                ==> exists|k: int| 0 <= k < map@.len() && map@[k] == i,
        decreases items@.len() - j,
    {
        let it = items[j];
        if it.weight <= max_weight {
            insert_ranked(items, &mut sorted, &mut map, j, max_weight);
        }
        j = j + 1;
    }
    (sorted, map)
}

/// The first-found highest cost of an item that fits into `max_weight`, and
/// its index; `(0, 0)` where no item of positive cost fits.
pub fn best_valued_item_fit(items: &[Item], max_weight: u32) -> (r: (u32, usize))
    ensures
        forall|j: int| 0 <= j < items@.len() && items@[j].weight <= max_weight
            ==> items@[j].cost <= r.0,
        r.0 > 0 ==> {
            &&& r.1 < items@.len()
            &&& items@[r.1 as int].cost == r.0
            &&& items@[r.1 as int].weight <= max_weight
            &&& forall|j: int| 0 <= j < r.1 && items@[j].weight <= max_weight
                ==> items@[j].cost < r.0
        },
        r.0 == 0 ==> r.1 == 0,
        r.0 == best_single(items@, max_weight as int, items@.len() as int),
{
    let mut cost: u32 = 0;
    let mut index: usize = 0;
    let mut i: usize = 0;
    while i < items.len()
        invariant
            i <= items@.len(),
            forall|j: int| 0 <= j < i && items@[j].weight <= max_weight ==> items@[j].cost <= cost,
            cost > 0 ==> {
                &&& index < i
                &&& items@[index as int].cost == cost
                &&& items@[index as int].weight <= max_weight
                &&& forall|j: int| 0 <= j < index && items@[j].weight <= max_weight
                    ==> items@[j].cost < cost
            },
            cost == 0 ==> index == 0,
            cost == best_single(items@, max_weight as int, i as int),
        decreases items@.len() - i,
    {
        if items[i].cost > cost && items[i].weight <= max_weight {
            cost = items[i].cost;
            index = i;
        }
        i = i + 1;
    }
    (cost, index)
}

/// `r[i]` is the sum of the costs (`of_cost`) or weights of `items[i..]`,
/// for every `i` up to and including `items.len()`.
fn desc_sum_vec_with_fn(items: &[Item], of_cost: bool) -> (r: Vec<u32>)
    requires
        of_cost ==> suffix_cost(items@, 0) <= u32::MAX,
        !of_cost ==> suffix_weight(items@, 0) <= u32::MAX,
    ensures
        r@.len() == items@.len() + 1,
        forall|i: int| 0 <= i <= items@.len() ==> r@[i] == if of_cost {
            suffix_cost(items@, i)
        } else {
            suffix_weight(items@, i)
        },
{
    let n = items.len();
    let mut r: Vec<u32> = vec![0; n];
    r.push(0);
    let mut i: usize = n;
    proof {
        crate::model::lemma_suffix_mono(items@, 0, n as int);
    }
    while i > 0
        invariant
            i <= n == items@.len(),
            r@.len() == n + 1,
            of_cost ==> suffix_cost(items@, 0) <= u32::MAX,
            !of_cost ==> suffix_weight(items@, 0) <= u32::MAX,
            forall|k: int| i <= k <= n ==> r@[k] == if of_cost {
                suffix_cost(items@, k)
            } else {
                suffix_weight(items@, k)
            },
        decreases i,
    {
        proof {
            crate::model::lemma_suffix_mono(items@, 0, i - 1);
            assert(suffix_cost(items@, i - 1) == items@[i - 1].cost + suffix_cost(items@, i as int));
            assert(suffix_weight(items@, i - 1) == items@[i - 1].weight + suffix_weight(items@, i as int));
        }
        let s = if of_cost {
            assert(r@[i as int] == suffix_cost(items@, i as int));
            assert(suffix_cost(items@, i - 1) <= suffix_cost(items@, 0));
            r[i] + items[i - 1].cost
        } else {
            assert(r@[i as int] == suffix_weight(items@, i as int));
            assert(suffix_weight(items@, i - 1) <= suffix_weight(items@, 0));
            r[i] + items[i - 1].weight
        };
        r.set(i - 1, s);
        i = i - 1;
    }
    r
}

/// `r[i]` is the total weight of `items[i..]`.
pub fn calc_remaining_weight(items: &[Item]) -> (r: Vec<u32>)
    requires
        suffix_weight(items@, 0) <= u32::MAX,
    ensures
        r@.len() == items@.len() + 1,
        forall|i: int| 0 <= i <= items@.len() ==> r@[i] == suffix_weight(items@, i),
{
    desc_sum_vec_with_fn(items, false)
}

/// `r[i]` is the total cost of `items[i..]`.
pub fn calc_remaining_cost(items: &[Item]) -> (r: Vec<u32>)
    requires
        suffix_cost(items@, 0) <= u32::MAX,
    ensures
        r@.len() == items@.len() + 1,
        forall|i: int| 0 <= i <= items@.len() ==> r@[i] == suffix_cost(items@, i),
{
    desc_sum_vec_with_fn(items, true)
}

/// The highest cost of an item of `items[..k]` that fits into `cap`, or 0.
pub open spec fn best_single(items: Seq<Item>, cap: int, k: int) -> int
    decreases k,
{
    if k <= 0 {
        0
    } else {
        let b = best_single(items, cap, k - 1);
        if items[k - 1].weight <= cap && items[k - 1].cost > b {
            items[k - 1].cost as int
        } else {
            b
        }
    }
}

/// The ratio order keeps at most the items it was given.
pub proof fn lemma_ratio_sorted_len(items: Seq<Item>, cap: int, j: int)
    requires
        0 <= j,
    ensures
        ratio_sorted(items, cap, j).0.len() <= j,
    decreases j,
{
    if j > 0 {
        lemma_ratio_sorted_len(items, cap, j - 1);
        let s = ratio_sorted(items, cap, j - 1).0;
        lemma_ins_pos_range(s, items[j - 1], s.len() as int);
    }
}

proof fn lemma_ins_pos_range(s: Seq<Item>, it: Item, k: int)
    requires
        0 <= k,
    ensures
        0 <= ins_pos(s, it, k) <= k,
    decreases k,
{
    if k > 0 {
        lemma_ins_pos_range(s, it, k - 1);
    }
}

/// An ordering of fitting items is a re-indexing of the items.
pub proof fn lemma_index_map_reindexing(items: Seq<Item>, sorted: Seq<Item>, map: Seq<usize>, cap: int)
    requires
        is_index_map(items, sorted, map, cap),
    ensures
        is_reindexing(items, sorted, map),
{
}

/// Selecting everything sums to the suffix totals.
pub proof fn lemma_range_all(items: Seq<Item>, x: Seq<bool>, lo: int)
    requires
        0 <= lo <= items.len(),
        forall|q: int| 0 <= q < items.len() ==> x[q],
    ensures
        range_cost(items, x, lo, items.len() as int) == suffix_cost(items, lo),
        range_weight(items, x, lo, items.len() as int) == suffix_weight(items, lo),
    decreases items.len() - lo,
{
    if lo < items.len() {
        lemma_range_all(items, x, lo + 1);
    }
}

/// Items picked out of `items` weigh and cost no more than all of them.
pub proof fn lemma_reindexed_totals(items: Seq<Item>, sub: Seq<Item>, map: Seq<usize>)
    requires
        is_reindexing(items, sub, map),
    ensures
        suffix_cost(sub, 0) <= suffix_cost(items, 0),
        suffix_weight(sub, 0) <= suffix_weight(items, 0),
{
    let m = map.len() as int;
    let x = Seq::new(map.len(), |q: int| true);
    let sel = Seq::new(items.len(), |j: int| exists|q: int| 0 <= q < m && map[q] == j);
    assert forall|q: int| 0 <= q < m implies sel[map[q] as int] == x[q] by {
        assert(map[q] == map[q]);
    }
    lemma_reindex(items, sub, map, x, sel, m);
    lemma_range_all(sub, x, 0);
    lemma_range_le_suffix(items, sel, 0);
}

/// Carries a selection over `sub` back to the `size` positions
/// that `map` names.
pub fn map_back(x: &Vec<bool>, map: &Vec<usize>, size: usize) -> (r: Vec<bool>)
    requires
        x@.len() == map@.len(),
        forall|q: int| 0 <= q < map@.len() ==> map@[q] < size,
        forall|q1: int, q2: int| 0 <= q1 < map@.len() && 0 <= q2 < map@.len() && q1 != q2
            ==> map@[q1] != map@[q2],
    ensures
        r@.len() == size,
        carries(map@, x@, r@, map@.len() as int),
{
    let mut r = vec![false; size];
    let mut q: usize = 0;
    while q < map.len()
        invariant
            q <= map@.len() == x@.len(),
            r@.len() == size,
            forall|i: int| 0 <= i < map@.len() ==> map@[i] < size,
            forall|q1: int, q2: int| 0 <= q1 < map@.len() && 0 <= q2 < map@.len() && q1 != q2
                ==> map@[q1] != map@[q2],
            carries(map@, x@, r@, q as int),
        decreases map@.len() - q,
    {
        let ghost before = r@;
        r.set(map[q], x[q]);
        proof {
            assert forall|j: int| 0 <= j < r@.len() && r@[j] implies exists|i: int|
                0 <= i < q + 1 && map@[i] == j by {
                if j != map@[q as int] {
                    assert(before[j]);
                } else {
                    assert(map@[q as int] == j);
                }
            }
        }
        q = q + 1;
    }
    r
}

/// `p` ends the longest run `start..p` of the items described by the suffix
/// sums `rw` whose weight `rw[start] - rw[p]` stays within `budget`.
pub open spec fn is_fit_end(rw: Seq<u32>, start: int, budget: int, p: int) -> bool {
    &&& start <= p < rw.len()
    &&& rw[start] - rw[p] <= budget
    &&& (p == rw.len() - 1 || rw[start] - rw[p + 1] > budget)
}

/// Of suffix sums, the end of the longest fitting run is unique.
pub proof fn lemma_fit_end_unique(rw: Seq<u32>, start: int, budget: int, p1: int, p2: int)
    requires
        0 <= start,
        is_suffix_sums(rw),
        is_fit_end(rw, start, budget, p1),
        is_fit_end(rw, start, budget, p2),
    ensures
        p1 == p2,
{
    if p1 < p2 {
        assert(0 <= p1 + 1 <= p2 < rw.len());
        assert(rw[p1 + 1] >= rw[p2]);
    } else if p2 < p1 {
        assert(0 <= p2 + 1 <= p1 < rw.len());
        assert(rw[p2 + 1] >= rw[p1]);
    }
}

/// The fractional-relaxation value once the run `start..p` is taken whole:
/// its cost, plus the part of the next item that the budget still holds.
#[verifier::opaque]
pub open spec fn frac_value(rc: Seq<u32>, rw: Seq<u32>, start: int, budget: int, p: int) -> int {
    rc[start] - rc[p] + if p < rw.len() - 1 {
        (budget - (rw[start] - rw[p])) * (rc[p] - rc[p + 1]) / (rw[p] - rw[p + 1])
    } else {
        0
    }
}

/// Suffix sums of some items: they never grow to the right.
pub open spec fn is_suffix_sums(v: Seq<u32>) -> bool {
    forall|i: int, j: int| 0 <= i <= j < v.len() ==> v[i] >= v[j]
}

/// The fractional bound for the items from `start` on, with `budget` of
/// capacity.
pub(crate) fn frac_bound_from(rem_costs: &[u32], rem_weights: &[u32], start: usize, budget: u32) -> (r: u32)
    requires
        rem_costs@.len() == rem_weights@.len(),
        start < rem_weights@.len(),
        is_suffix_sums(rem_costs@),
        is_suffix_sums(rem_weights@),
    ensures
        exists|p: int| is_fit_end(rem_weights@, start as int, budget as int, p)
            && r == frac_value(rem_costs@, rem_weights@, start as int, budget as int, p),
        r <= rem_costs@[start as int],
{
    let last = rem_weights.len() - 1;
    let mut l: usize = start;
    let mut h: usize = last;
    while l < h
        invariant
            start <= l <= h <= last,
            last == rem_weights@.len() - 1,
            rem_costs@.len() == rem_weights@.len(),
            is_suffix_sums(rem_weights@),
            rem_weights@[start as int] - rem_weights@[l as int] <= budget,
            h == last || rem_weights@[start as int] - rem_weights@[h + 1] > budget,
        decreases h - l,
    {
        let next = l + (h - l) / 2 + 1;
        if rem_weights[start] - rem_weights[next] <= budget {
            l = next;
        } else {
            h = next - 1;
        }
    }
    let ghost p = l as int;
    let taken = rem_costs[start] - rem_costs[l];
    if l < last {
        let rem_weight = budget - (rem_weights[start] - rem_weights[l]);
        let last_weight = rem_weights[l] - rem_weights[l + 1];
        let last_cost = rem_costs[l] - rem_costs[l + 1];
        proof {
            lemma_mul_u32_fits(rem_weight, last_cost);
            let a = rem_weight as int;
            let b = last_cost as int;
            let c = last_weight as int;
            assert(a * b <= c * b) by (nonlinear_arith)
                requires
                    a < c,
                    b >= 0,
            ;
            vstd::arithmetic::div_mod::lemma_div_is_ordered(a * b, c * b, c);
            assert(c * b / c == b) by (nonlinear_arith)
                requires
                    c > 0,
            ;
        }
        let part = ((rem_weight as u64) * (last_cost as u64) / (last_weight as u64)) as u32;
        proof {
            reveal(frac_value);
        }
        assert(is_fit_end(rem_weights@, start as int, budget as int, p));
        assert(taken + part == frac_value(rem_costs@, rem_weights@, start as int, budget as int, p));
        taken + part
    } else {
        assert(is_fit_end(rem_weights@, start as int, budget as int, p));
        proof {
            reveal(frac_value);
        }
        assert(taken == frac_value(rem_costs@, rem_weights@, start as int, budget as int, p));
        taken
    }
}

/// The fractional-relaxation bound of ratio-sorted items, given by the
/// suffix sums of their costs and weights: whole items while they fit, then
/// the fitting part of the next one, rounded down.
pub fn max_cost_from_rem(rem_costs: &[u32], rem_weights: &[u32], max_weight: u32) -> (r: u32)
    requires
        rem_costs@.len() == rem_weights@.len(),
        rem_weights@.len() >= 1,
        is_suffix_sums(rem_costs@),
        is_suffix_sums(rem_weights@),
    ensures
        exists|p: int| is_fit_end(rem_weights@, 0, max_weight as int, p)
            && r == frac_value(rem_costs@, rem_weights@, 0, max_weight as int, p),
        r <= rem_costs@[0],
{
    frac_bound_from(rem_costs, rem_weights, 0, max_weight)
}

/// The suffix sums of the items' costs, as stored.
pub open spec fn cost_sums(items: Seq<Item>) -> Seq<u32> {
    Seq::new((items.len() + 1) as nat, |i: int| suffix_cost(items, i) as u32)
}

/// The suffix sums of the items' weights, as stored.
pub open spec fn weight_sums(items: Seq<Item>) -> Seq<u32> {
    Seq::new((items.len() + 1) as nat, |i: int| suffix_weight(items, i) as u32)
}

/// Stored suffix sums never grow to the right.
pub proof fn lemma_sums_ordered(items: Seq<Item>)
    requires
        suffix_cost(items, 0) <= u32::MAX,
        suffix_weight(items, 0) <= u32::MAX,
    ensures
        is_suffix_sums(cost_sums(items)),
        is_suffix_sums(weight_sums(items)),
        forall|i: int| 0 <= i <= items.len() ==> cost_sums(items)[i] == suffix_cost(items, i),
        forall|i: int| 0 <= i <= items.len() ==> weight_sums(items)[i] == suffix_weight(items, i),
{
    assert forall|i: int| 0 <= i <= items.len() implies cost_sums(items)[i] == suffix_cost(items, i)
        && weight_sums(items)[i] == suffix_weight(items, i) by {
        crate::model::lemma_suffix_mono(items, 0, i);
    }
    assert forall|i: int, j: int| 0 <= i <= j < cost_sums(items).len() implies cost_sums(items)[i]
        >= cost_sums(items)[j] && weight_sums(items)[i] >= weight_sums(items)[j] by {
        crate::model::lemma_suffix_mono(items, i, j);
    }
}

/// The fractional-relaxation bound of ratio-sorted items under `max_weight`.
pub fn max_cost(items: &[Item], max_weight: u32) -> (r: u32)
    requires
        suffix_cost(items@, 0) <= u32::MAX,
        suffix_weight(items@, 0) <= u32::MAX,
    ensures
        exists|p: int| is_fit_end(weight_sums(items@), 0, max_weight as int, p)
            && r == frac_value(cost_sums(items@), weight_sums(items@), 0, max_weight as int, p),
        r <= suffix_cost(items@, 0),
{
    let rc = calc_remaining_cost(items);
    let rw = calc_remaining_weight(items);
    proof {
        lemma_sums_ordered(items@);
        assert(rc@ =~= cost_sums(items@));
        assert(rw@ =~= weight_sums(items@));
    }
    max_cost_from_rem(rc.as_slice(), rw.as_slice(), max_weight)
}

/// A divisor of a divisor of `x` divides `x`.
pub proof fn lemma_divides_trans(x: int, g: int, h: int)
    requires
        g > 0,
        h > 0,
        x % g == 0,
        g % h == 0,
    ensures
        x % h == 0,
{
    vstd::arithmetic::div_mod::lemma_fundamental_div_mod(x, g);
    vstd::arithmetic::div_mod::lemma_fundamental_div_mod(g, h);
    let a = x / g;
    let b = g / h;
    assert(x == (a * b) * h) by (nonlinear_arith)
        requires
            x == g * a,
            g == h * b,
    ;
    vstd::arithmetic::div_mod::lemma_mod_multiples_basic(a * b, h);
}

/// The greatest common divisor, by Euclid's rule (`gcd(a, 0) == a`).
pub open spec fn gcd_of(a: nat, b: nat) -> nat
    decreases b,
{
    if b == 0 {
        a
    } else {
        gcd_of(b, a % b)
    }
}

/// Relies on `gcd::Gcd::gcd` for `u32`: the greatest common divisor of the
/// two arguments (zero only where both are zero), which divides both.
#[verifier::external_body]
pub(crate) fn gcd_u32(a: u32, b: u32) -> (r: u32)
    ensures
        r == gcd_of(a as nat, b as nat),
        (r == 0) == (a == 0 && b == 0),
        r > 0 ==> a % r == 0 && b % r == 0,
{
    a.gcd(b)
}

} // verus!
