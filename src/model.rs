//! Items, problem instances and solutions, with the mathematical model that
//! the solvers' contracts are stated over.
use vstd::prelude::*;

verus! {

/// One item that may be put into the knapsack.
#[derive(Debug, Clone, Copy, PartialEq, Eq, Structural)]
pub struct Item {
    pub cost: u32,
    pub weight: u32,
}

/// One knapsack instance. `min_cost` is the threshold of the decision form.
#[derive(Debug, Clone)]
pub struct Problem {
    pub id: u32,
    pub max_weight: u32,
    pub size: usize,
    pub min_cost: Option<u32>,
    pub items: Vec<Item>,
}

/// The answer to one instance: the achieved cost and which items were taken.
/// `items` is `None` where no selection is reported.
#[derive(Debug, Clone, PartialEq, Eq)]
pub struct Solution {
    pub id: u32,
    pub size: usize,
    pub cost: u32,
    pub items: Option<Vec<bool>>,
}

/// Sum of the costs of the selected items among `items[lo..hi]`.
pub open spec fn range_cost(items: Seq<Item>, sel: Seq<bool>, lo: int, hi: int) -> int
    decreases hi - lo,
{
    if hi <= lo {
        0
    } else {
        (if sel[lo] { items[lo].cost as int } else { 0 }) + range_cost(items, sel, lo + 1, hi)
    }
}

/// Sum of the weights of the selected items among `items[lo..hi]`.
pub open spec fn range_weight(items: Seq<Item>, sel: Seq<bool>, lo: int, hi: int) -> int
    decreases hi - lo,
{
    if hi <= lo {
        0
    } else {
        (if sel[lo] { items[lo].weight as int } else { 0 }) + range_weight(items, sel, lo + 1, hi)
    }
}

/// Total cost of a selection.
pub open spec fn sel_cost(items: Seq<Item>, sel: Seq<bool>) -> int {
    range_cost(items, sel, 0, sel.len() as int)
}

/// Total weight of a selection.
pub open spec fn sel_weight(items: Seq<Item>, sel: Seq<bool>) -> int {
    range_weight(items, sel, 0, sel.len() as int)
}

/// Sum of all costs of `items[i..]`.
pub open spec fn suffix_cost(items: Seq<Item>, i: int) -> int
    decreases items.len() - i,
{
    if i >= items.len() || i < 0 {
        0
    } else {
        items[i].cost as int + suffix_cost(items, i + 1)
    }
}

/// Sum of all weights of `items[i..]`.
pub open spec fn suffix_weight(items: Seq<Item>, i: int) -> int
    decreases items.len() - i,
{
    if i >= items.len() || i < 0 {
        0
    } else {
        items[i].weight as int + suffix_weight(items, i + 1)
    }
}

/// A selection over `items` that fits into capacity `cap`.
pub open spec fn feasible(items: Seq<Item>, sel: Seq<bool>, cap: int) -> bool {
    &&& sel.len() == items.len()
    &&& sel_weight(items, sel) <= cap
}

/// The best cost reachable with items `items[i..]` under the weight budget
/// `budget`; `-1` where the budget is already negative.
pub open spec fn opt(items: Seq<Item>, i: int, budget: int) -> int
    decreases items.len() - i,
{
    if budget < 0 {
        -1
    } else if i >= items.len() || i < 0 {
        0
    } else {
        let without = opt(items, i + 1, budget);
        let with = opt(items, i + 1, budget - items[i].weight);
        if with >= 0 && with + items[i].cost > without {
            with + items[i].cost
        } else {
            without
        }
    }
}

/// The optimum of a whole instance.
pub open spec fn optimum(items: Seq<Item>, cap: int) -> int {
    opt(items, 0, cap)
}

impl Problem {
    /// The item count agrees with the items, and all costs and all weights
    /// together fit into the 32-bit fields that hold them.
    pub open spec fn wf(&self) -> bool {
        &&& self.items.len() == self.size
        &&& suffix_cost(self.items@, 0) <= u32::MAX
        &&& suffix_weight(self.items@, 0) <= u32::MAX
    }

    /// Decides `wf`.
    pub fn is_wf(&self) -> (r: bool)
        ensures
            r == self.wf(),
    {
        if self.items.len() != self.size {
            return false;
        }
        let n = self.items.len();
        let mut cost: u64 = 0;
        let mut weight: u64 = 0;
        let mut i: usize = n;
        while i > 0
            invariant
                i <= n == self.items@.len(),
                cost == suffix_cost(self.items@, i as int),
                weight == suffix_weight(self.items@, i as int),
                cost <= u32::MAX,
                weight <= u32::MAX,
            decreases i,
        {
            cost = cost + self.items[i - 1].cost as u64;
            weight = weight + self.items[i - 1].weight as u64;
            i = i - 1;
            if cost > u32::MAX as u64 || weight > u32::MAX as u64 {
                proof {
                    lemma_suffix_mono(self.items@, 0, i as int);
                }
                return false;
            }
        }
        true
    }

    pub open spec fn optimum(&self) -> int {
        optimum(self.items@, self.max_weight as int)
    }
}

impl Solution {
    /// The solution answers `p`: it carries its id and size, and a reported
    /// selection fits and is worth exactly the reported cost.
    pub open spec fn answers(&self, p: &Problem) -> bool {
        &&& self.id == p.id
        &&& self.size == p.size
        &&& self.selection_ok(p)
    }

    /// A reported selection fits `p` and is worth exactly the reported cost;
    /// without one the cost is zero.
    pub open spec fn selection_ok(&self, p: &Problem) -> bool {
        match self.items {
            Some(sel) => {
                &&& feasible(p.items@, sel@, p.max_weight as int)
                &&& sel_cost(p.items@, sel@) == self.cost
            },
            None => self.cost == 0,
        }
    }

    /// The selection is present.
    pub open spec fn has_selection(&self) -> bool {
        self.items is Some
    }

    /// A solution that takes nothing.
    pub fn empty(id: u32, size: usize) -> (r: Solution)
        ensures
            r.id == id,
            r.size == size,
            r.cost == 0,
            r.items is Some,
            r.items->0@ == Seq::new(size as nat, |i: int| false),
    {
        let sel = vec![false; size];
        proof {
            assert(sel@ =~= Seq::new(size as nat, |i: int| false));
        }
        Solution { id, size, cost: 0, items: Some(sel) }
    }

    /// A solution that reports no selection.
    pub fn none(id: u32, size: usize) -> (r: Solution)
        ensures
            r.id == id,
            r.size == size,
            r.cost == 0,
            r.items is None,
    {
        Solution { id, size, cost: 0, items: None }
    }
}

/// Costs and weights of nothing selected are zero.
pub proof fn lemma_range_none(items: Seq<Item>, sel: Seq<bool>, lo: int, hi: int)
    requires
        forall|j: int| lo <= j < hi ==> !sel[j],
    ensures
        range_cost(items, sel, lo, hi) == 0,
        range_weight(items, sel, lo, hi) == 0,
    decreases hi - lo,
{
    if hi > lo {
        lemma_range_none(items, sel, lo + 1, hi);
    }
}

/// Range sums depend only on the selection bits inside the range.
pub proof fn lemma_range_agree(items: Seq<Item>, s1: Seq<bool>, s2: Seq<bool>, lo: int, hi: int)
    requires
        forall|j: int| lo <= j < hi ==> s1[j] == s2[j],
    ensures
        range_cost(items, s1, lo, hi) == range_cost(items, s2, lo, hi),
        range_weight(items, s1, lo, hi) == range_weight(items, s2, lo, hi),
    decreases hi - lo,
{
    if hi > lo {
        lemma_range_agree(items, s1, s2, lo + 1, hi);
    }
}

/// Range sums are bounded by the suffix totals.
pub proof fn lemma_range_le_suffix(items: Seq<Item>, sel: Seq<bool>, lo: int)
    requires
        0 <= lo <= items.len(),
    ensures
        0 <= range_cost(items, sel, lo, items.len() as int) <= suffix_cost(items, lo),
        0 <= range_weight(items, sel, lo, items.len() as int) <= suffix_weight(items, lo),
    decreases items.len() - lo,
{
    if lo < items.len() {
        lemma_range_le_suffix(items, sel, lo + 1);
    }
}

/// Suffix totals shrink as the start moves right.
pub proof fn lemma_suffix_mono(items: Seq<Item>, i: int, j: int)
    requires
        0 <= i <= j,
    ensures
        suffix_cost(items, j) <= suffix_cost(items, i),
        suffix_weight(items, j) <= suffix_weight(items, i),
        suffix_cost(items, j) >= 0,
        suffix_weight(items, j) >= 0,
    decreases j - i,
{
    if i < j {
        lemma_suffix_mono(items, i + 1, j);
    } else {
        lemma_suffix_nonneg(items, j);
    }
}

pub proof fn lemma_suffix_nonneg(items: Seq<Item>, i: int)
    ensures
        suffix_cost(items, i) >= 0,
        suffix_weight(items, i) >= 0,
    decreases items.len() - i,
{
    if 0 <= i < items.len() {
        lemma_suffix_nonneg(items, i + 1);
    }
}

/// With a budget of at least zero some (possibly empty) choice fits.
pub proof fn lemma_opt_nonneg(items: Seq<Item>, i: int, budget: int)
    requires
        budget >= 0,
    ensures
        opt(items, i, budget) >= 0,
    decreases items.len() - i,
{
    if 0 <= i < items.len() {
        lemma_opt_nonneg(items, i + 1, budget);
    }
}

/// No selection of `items[i..]` that fits the budget beats `opt`.
pub proof fn lemma_opt_upper(items: Seq<Item>, sel: Seq<bool>, i: int, budget: int)
    requires
        0 <= i <= items.len(),
        range_weight(items, sel, i, items.len() as int) <= budget,
    ensures
        range_cost(items, sel, i, items.len() as int) <= opt(items, i, budget),
    decreases items.len() - i,
{
    lemma_range_le_suffix(items, sel, i);
    if i < items.len() {
        lemma_range_le_suffix(items, sel, i + 1);
        if sel[i] {
            lemma_opt_upper(items, sel, i + 1, budget - items[i].weight);
        } else {
            lemma_opt_upper(items, sel, i + 1, budget);
        }
        lemma_opt_nonneg(items, i + 1, budget);
    }
}

/// Splits the last selected position off a range sum.
pub proof fn lemma_range_last(items: Seq<Item>, sel: Seq<bool>, lo: int, hi: int)
    requires
        lo < hi,
    ensures
        range_cost(items, sel, lo, hi) == range_cost(items, sel, lo, hi - 1)
            + (if sel[hi - 1] { items[hi - 1].cost as int } else { 0 }),
        range_weight(items, sel, lo, hi) == range_weight(items, sel, lo, hi - 1)
            + (if sel[hi - 1] { items[hi - 1].weight as int } else { 0 }),
    decreases hi - lo,
{
    if lo < hi - 1 {
        lemma_range_last(items, sel, lo + 1, hi);
    } else {
        assert(range_cost(items, sel, lo + 1, hi) == 0);
        assert(range_weight(items, sel, lo + 1, hi) == 0);
        assert(range_cost(items, sel, lo, hi - 1) == 0);
        assert(range_weight(items, sel, lo, hi - 1) == 0);
    }
}

/// Clearing one selected position takes its item out of a range sum.
pub proof fn lemma_range_clear(items: Seq<Item>, sel: Seq<bool>, j: int, lo: int, hi: int)
    requires
        0 <= lo <= j < hi <= sel.len(),
    ensures
        range_cost(items, sel, lo, hi) == range_cost(items, sel.update(j, false), lo, hi)
            + (if sel[j] { items[j].cost as int } else { 0 }),
        range_weight(items, sel, lo, hi) == range_weight(items, sel.update(j, false), lo, hi)
            + (if sel[j] { items[j].weight as int } else { 0 }),
    decreases hi - lo,
{
    if lo == j {
        lemma_range_agree(items, sel, sel.update(j, false), lo + 1, hi);
    } else {
        lemma_range_clear(items, sel, j, lo + 1, hi);
    }
}

/// `sub[q]` is the item `items[map[q]]` for distinct indices `map[q]`.
pub open spec fn is_reindexing(items: Seq<Item>, sub: Seq<Item>, map: Seq<usize>) -> bool {
    &&& sub.len() == map.len()
    &&& forall|q: int| 0 <= q < map.len() ==> map[q] < items.len()
    &&& forall|q: int| 0 <= q < map.len() ==> sub[q] == items[map[q] as int]
    &&& forall|q1: int, q2: int| 0 <= q1 < map.len() && 0 <= q2 < map.len() && q1 != q2
        ==> map[q1] != map[q2]
}

/// `sel` over `items` is `x` over `sub[..k]`, carried through `map`: it
/// selects `items[map[q]]` exactly where `x[q]` holds, and nothing else.
pub open spec fn carries(map: Seq<usize>, x: Seq<bool>, sel: Seq<bool>, k: int) -> bool {
    &&& forall|q: int| 0 <= q < k ==> sel[map[q] as int] == x[q]
    &&& forall|j: int| 0 <= j < sel.len() && sel[j] ==> exists|q: int| 0 <= q < k && map[q] == j
}

/// A selection carried through a re-indexing keeps its cost and weight.
pub proof fn lemma_reindex(
    items: Seq<Item>,
    sub: Seq<Item>,
    map: Seq<usize>,
    x: Seq<bool>,
    sel: Seq<bool>,
    k: int,
)
    requires
        is_reindexing(items, sub, map),
        0 <= k <= map.len(),
        sel.len() == items.len(),
        carries(map, x, sel, k),
    ensures
        range_cost(items, sel, 0, items.len() as int) == range_cost(sub, x, 0, k),
        range_weight(items, sel, 0, items.len() as int) == range_weight(sub, x, 0, k),
    decreases k,
{
    if k == 0 {
        lemma_range_none(items, sel, 0, items.len() as int);
    } else {
        let j0 = map[k - 1] as int;
        let sel2 = sel.update(j0, false);
        assert forall|j: int| 0 <= j < sel2.len() && sel2[j] implies exists|q: int|
            0 <= q < k - 1 && map[q] == j by {
            let q0 = choose|q: int| 0 <= q < k && map[q] == j;
            assert(q0 != k - 1);
        }
        lemma_reindex(items, sub, map, x, sel2, k - 1);
        lemma_range_clear(items, sel, j0, 0, items.len() as int);
        lemma_range_last(sub, x, 0, k);
    }
}

/// The optimum never exceeds the total cost of the items considered.
pub proof fn lemma_opt_le_suffix(items: Seq<Item>, i: int, budget: int)
    requires
        0 <= i <= items.len(),
    ensures
        opt(items, i, budget) <= suffix_cost(items, i),
    decreases items.len() - i,
{
    lemma_suffix_nonneg(items, i);
    if i < items.len() && budget >= 0 {
        lemma_opt_le_suffix(items, i + 1, budget);
        lemma_opt_le_suffix(items, i + 1, budget - items[i].weight);
    }
}

} // verus!
