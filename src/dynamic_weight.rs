//! Dynamic programming over (items considered, capacity used), filled on
//! demand with an explicit stack.
use vstd::prelude::*;
use crate::model::{
    lemma_opt_le_suffix, lemma_opt_nonneg, lemma_opt_upper, lemma_range_last, lemma_suffix_mono,
    opt, range_cost, range_weight, suffix_cost, suffix_weight, Item, Problem, Solution,
};
use crate::solver::SolverTrait;
use crate::table::{
    cell, cell_index, filled, lemma_cell_bounds, lemma_cell_distinct, lemma_filled_bound,
    lemma_filled_grows,
};
use crate::utils::{gcd_u32, lemma_divides_trans};

verus! {

/// Weight-indexed dynamic programming; exact.
#[derive(Debug, Clone)]
pub struct DynamicWeightSolver();

/// The items with every weight divided by `g`.
pub open spec fn compress(items: Seq<Item>, g: int) -> Seq<Item> {
    Seq::new(items.len(), |i: int| Item { cost: items[i].cost, weight: (items[i].weight as int / g) as u32 })
}

/// `g` divides every weight.
pub open spec fn divides_weights(items: Seq<Item>, g: int) -> bool {
    forall|i: int| 0 <= i < items.len() ==> (#[trigger] items[i].weight) as int % g == 0
}

proof fn lemma_div_shift(b: int, k: int, g: int)
    requires
        g > 0,
    ensures
        (b - g * k) / g == b / g - k,
        (b < 0) == (b / g < 0),
{
    vstd::arithmetic::div_mod::lemma_fundamental_div_mod(b, g);
    let q = b / g;
    let r = b % g;
    assert(b - g * k == g * (q - k) + r) by (nonlinear_arith)
        requires
            b == g * q + r,
    ;
    vstd::arithmetic::div_mod::lemma_div_multiples_vanish_fancy(q - k, r, g);
    if b < 0 {
        assert(q < 0) by (nonlinear_arith)
            requires
                b == g * q + r,
                0 <= r,
                b < 0,
                g > 0,
        ;
    } else {
        assert(q >= 0) by (nonlinear_arith)
            requires
                b == g * q + r,
                r < g,
                b >= 0,
                g > 0,
        ;
    }
}

/// Dividing all weights and the budget by a common divisor keeps the optimum.
pub proof fn lemma_compress_opt(items: Seq<Item>, g: int, i: int, budget: int)
    requires
        g > 0,
        divides_weights(items, g),
        0 <= i <= items.len(),
    ensures
        opt(compress(items, g), i, budget / g) == opt(items, i, budget),
    decreases items.len() - i,
{
    let c = compress(items, g);
    lemma_div_shift(budget, 0, g);
    if i < items.len() && budget >= 0 {
        let w = items[i].weight as int;
        vstd::arithmetic::div_mod::lemma_fundamental_div_mod(w, g);
        let k = w / g;
        assert(w == g * k);
        lemma_div_shift(budget, k, g);
        lemma_compress_opt(items, g, i + 1, budget);
        lemma_compress_opt(items, g, i + 1, budget - w);
        assert(c[i].weight == k) by {
            assert(0 <= k <= w) by (nonlinear_arith)
                requires
                    w == g * k,
                    g > 0,
                    w >= 0,
            ;
        }
    }
}

/// Sums over the compressed items: the same cost, `1 / g` of the weight.
pub proof fn lemma_compress_sums(items: Seq<Item>, g: int, sel: Seq<bool>, lo: int, hi: int)
    requires
        g > 0,
        divides_weights(items, g),
        0 <= lo <= hi <= items.len(),
    ensures
        range_cost(compress(items, g), sel, lo, hi) == range_cost(items, sel, lo, hi),
        range_weight(items, sel, lo, hi) == g * range_weight(compress(items, g), sel, lo, hi),
    decreases hi - lo,
{
    if lo < hi {
        lemma_compress_sums(items, g, sel, lo + 1, hi);
        let w = items[lo].weight as int;
        vstd::arithmetic::div_mod::lemma_fundamental_div_mod(w, g);
        assert(w % g == 0);
        assert(0 <= w / g <= w) by {
            assert(0 <= w / g <= w) by (nonlinear_arith)
                requires
                    w == g * (w / g),
                    g > 0,
                    w >= 0,
            ;
        }
        assert(compress(items, g)[lo].weight == w / g);
        let rest = range_weight(compress(items, g), sel, lo + 1, hi);
        assert(g * ((if sel[lo] { w / g } else { 0 }) + rest) == (if sel[lo] { w } else { 0 }) + g
            * rest) by (nonlinear_arith)
            requires
                w == g * (w / g),
        ;
        assert(range_weight(compress(items, g), sel, lo, hi) == (if sel[lo] { w / g } else { 0 })
            + rest);
        assert(range_weight(items, sel, lo, hi) == (if sel[lo] { w } else { 0 })
            + range_weight(items, sel, lo + 1, hi));
    } else {
        assert(g * range_weight(compress(items, g), sel, lo, hi) == 0) by (nonlinear_arith)
            requires
                range_weight(compress(items, g), sel, lo, hi) == 0,
        ;
    }
}

/// Compressing keeps the total cost.
pub proof fn lemma_compress_suffix(items: Seq<Item>, g: int, i: int)
    requires
        g > 0,
        0 <= i <= items.len(),
    ensures
        suffix_cost(compress(items, g), i) == suffix_cost(items, i),
    decreases items.len() - i,
{
    if i < items.len() {
        lemma_compress_suffix(items, g, i + 1);
    }
}


/// A positive common divisor of all weights (1 where all weights are 0).
fn weight_gcd(items: &Vec<Item>) -> (g: u32)
    ensures
        g > 0,
        divides_weights(items@, g as int),
{
    let mut g: u32 = 0;
    let mut i: usize = 0;
    while i < items.len()
        invariant
            i <= items@.len(),
            g == 0 ==> forall|j: int| 0 <= j < i ==> items@[j].weight == 0,
            g > 0 ==> forall|j: int| 0 <= j < i ==> (#[trigger] items@[j].weight) as int % (g as int) == 0,
        decreases items@.len() - i,
    {
        let ng = gcd_u32(g, items[i].weight);
        proof {
            if ng > 0 {
                assert forall|j: int| 0 <= j < i + 1 implies (#[trigger] items@[j].weight) as int % (
                ng as int) == 0 by {
                    if j < i {
                        if g > 0 {
                            lemma_divides_trans(items@[j].weight as int, g as int, ng as int);
                        } else {
                            assert(items@[j].weight == 0);
                        }
                    }
                }
            }
        }
        g = ng;
        i = i + 1;
    }
    if g == 0 {
        proof {
            assert forall|j: int| 0 <= j < items@.len() implies (#[trigger] items@[j].weight) as int % 1
                == 0 by {}
        }
        1
    } else {
        g
    }
}

/// The items with their weights divided by `g`.
fn compress_items(items: &Vec<Item>, g: u32) -> (r: Vec<Item>)
    requires
        g > 0,
    ensures
        r@ == compress(items@, g as int),
{
    let mut r: Vec<Item> = Vec::new();
    let mut i: usize = 0;
    while i < items.len()
        invariant
            i <= items@.len(),
            g > 0,
            r@.len() == i,
            forall|j: int| 0 <= j < i ==> r@[j] == compress(items@, g as int)[j],
        decreases items@.len() - i,
    {
        r.push(Item { cost: items[i].cost, weight: items[i].weight / g });
        i = i + 1;
    }
    assert(r@ =~= compress(items@, g as int));
    r
}

/// Whether the best choice at `items[i]`, with capacity `u` of `cap` used,
/// takes the item.
pub open spec fn take_rule(items: Seq<Item>, cap: int, i: int, u: int) -> bool {
    let with = opt(items, i + 1, cap - u - items[i].weight);
    0 <= i < items.len() && with >= 0 && with + items[i].cost > opt(items, i + 1, cap - u)
}

/// A table entry for cell `(i, u)`: the optimum of its subproblem and the
/// choice that reaches it.
#[verifier::opaque]
pub open spec fn entry_ok(items: Seq<Item>, cap: int, i: int, u: int, e: (u32, bool)) -> bool {
    &&& e.0 == opt(items, i, cap - u)
    &&& e.1 == take_rule(items, cap, i, u)
}

/// Cell `(i, u)` of `t` is filled.
#[verifier::opaque]
pub open spec fn is_filled(t: Seq<Option<(u32, bool)>>, cols: int, i: int, u: int) -> bool {
    t[cell(i, u, cols)] is Some
}

/// Every filled cell holds a correct entry, and the cells that it was
/// computed from are filled too; the last row is filled.
pub open spec fn table_inv(t: Seq<Option<(u32, bool)>>, items: Seq<Item>, cap: int) -> bool {
    let n = items.len() as int;
    let cols = cap + 1;
    &&& t.len() == (n + 1) * cols
    &&& forall|u: int| 0 <= u <= cap ==> (#[trigger] t[cell(n, u, cols)]) is Some
    &&& forall|i: int, u: int|
        0 <= i <= n && 0 <= u <= cap && (#[trigger] t[cell(i, u, cols)]) is Some ==> {
            &&& entry_ok(items, cap, i, u, t[cell(i, u, cols)]->0)
            &&& i < n ==> is_filled(t, cols, i + 1, u)
            &&& i < n && u + items[i].weight <= cap ==> is_filled(t, cols, i + 1, u + items[i].weight)
        }
}

proof fn lemma_fill_keeps(
    t: Seq<Option<(u32, bool)>>,
    items: Seq<Item>,
    cap: int,
    i0: int,
    u0: int,
    me: Option<(u32, bool)>,
)
    requires
        cap >= 0,
        table_inv(t, items, cap),
        0 <= i0 < items.len(),
        0 <= u0 <= cap,
        me is Some,
        entry_ok(items, cap, i0, u0, me->0),
        t[cell(i0 + 1, u0, cap + 1)] is Some,
        u0 + items[i0].weight <= cap ==> t[cell(i0 + 1, u0 + items[i0].weight, cap + 1)] is Some,
    ensures
        table_inv(t.update(cell(i0, u0, cap + 1), me), items, cap),
{
    let n = items.len() as int;
    let cols = cap + 1;
    let k = cell(i0, u0, cols);
    let t2 = t.update(k, me);
    lemma_cell_bounds(i0, u0, n + 1, cols);
    assert forall|u: int| 0 <= u <= cap implies (#[trigger] t2[cell(n, u, cols)]) is Some by {
        lemma_cell_bounds(n, u, n + 1, cols);
        lemma_cell_distinct(n, u, i0, u0, cols);
    }
    assert forall|i: int, v: int|
        0 <= i <= n && 0 <= v <= cap && (#[trigger] t2[cell(i, v, cols)]) is Some implies {
            &&& entry_ok(items, cap, i, v, t2[cell(i, v, cols)]->0)
            &&& i < n ==> is_filled(t2, cols, i + 1, v)
            &&& i < n && v + items[i].weight <= cap ==> is_filled(t2, cols, i + 1, v + items[i].weight)
        } by {
        reveal(is_filled);
        lemma_cell_bounds(i, v, n + 1, cols);
        if i < n {
            lemma_cell_bounds(i + 1, v, n + 1, cols);
            if i + 1 != i0 || v != u0 {
                lemma_cell_distinct(i + 1, v, i0, u0, cols);
            }
            if v + items[i].weight <= cap {
                if i + 1 != i0 || v + items[i].weight != u0 {
                    lemma_cell_distinct(i + 1, v + items[i].weight, i0, u0, cols);
                }
                lemma_cell_bounds(i + 1, v + items[i].weight, n + 1, cols);
            }
        }
        if i != i0 || v != u0 {
            lemma_cell_distinct(i, v, i0, u0, cols);
        }
    }
}

/// Fills the table on demand from cell `(0, 0)` with an explicit stack;
/// returns `None` where the table cannot be indexed.
fn fill_table(items: &Vec<Item>, max_weight: u32) -> (r: Option<Vec<Option<(u32, bool)>>>)
    requires
        suffix_cost(items@, 0) <= u32::MAX,
    ensures
        match r {
            Some(t) => {
                &&& table_inv(t@, items@, max_weight as int)
                &&& t@[cell(0, 0, max_weight + 1)] is Some
            },
            None => (items@.len() + 1) * (max_weight + 1) > usize::MAX,
        },
{
    let ilen = items.len();
    let ghost n = ilen as int;
    let ghost cap = max_weight as int;
    proof {
        assert((n + 1) * (cap + 1) >= n + 1 && (n + 1) * (cap + 1) >= cap + 1) by (nonlinear_arith)
            requires
                n >= 0,
                cap >= 0,
        ;
    }
    let cols = match (max_weight as usize).checked_add(1) {
        Some(c) => c,
        None => return None,
    };
    let rows = match ilen.checked_add(1) {
        Some(c) => c,
        None => return None,
    };
    let cells = match rows.checked_mul(cols) {
        Some(c) => c,
        None => return None,
    };
    let mut table: Vec<Option<(u32, bool)>> = vec![None; cells];
    let mut u: usize = 0;
    while u < cols
        invariant
            cols == cap + 1,
            rows == n + 1,
            cells == rows * cols,
            table@.len() == cells,
            u <= cols,
            n == ilen as int,
            cap == max_weight as int,
            forall|v: int| 0 <= v < u ==> table@[cell(n, v, cols as int)] == Some((0u32, false)),
            forall|k: int| 0 <= k < cells && table@[k] is Some ==> exists|v: int|
                0 <= v < u && k == cell(n, v, cols as int),
        decreases cols - u,
    {
        proof {
            lemma_cell_bounds(n, u as int, rows as int, cols as int);
        }
        let ghost before = table@;
        table.set(cell_index(ilen, u, rows, cols), Some((0, false)));
        proof {
            assert forall|v: int| 0 <= v < u + 1 implies table@[cell(n, v, cols as int)] == Some((0u32, false)) by {
                lemma_cell_bounds(n, v, rows as int, cols as int);
                if v < u {
                    lemma_cell_distinct(n, v, n, u as int, cols as int);
                }
            }
            assert forall|k: int| 0 <= k < cells && table@[k] is Some implies exists|v: int|
                0 <= v < u + 1 && k == cell(n, v, cols as int) by {
                if k != cell(n, u as int, cols as int) {
                    assert(before[k] is Some);
                }
            }
        }
        u = u + 1;
    }
    proof {
        assert forall|i: int, v: int|
            0 <= i <= n && 0 <= v <= cap && (#[trigger] table@[cell(i, v, cols as int)]) is Some implies {
                &&& entry_ok(items@, cap, i, v, table@[cell(i, v, cols as int)]->0)
                &&& i < n ==> is_filled(table@, cols as int, i + 1, v)
                &&& i < n && v + items@[i].weight <= cap ==> is_filled(table@, cols as int, i + 1, v + items@[i].weight)
            } by {
            lemma_cell_bounds(i, v, rows as int, cols as int);
            let w = choose|w: int| 0 <= w < u && cell(i, v, cols as int) == cell(n, w, cols as int);
            if i != n || v != w {
                lemma_cell_distinct(i, v, n, w, cols as int);
            }
            reveal(entry_ok);
        }
    }
    let mut stack: Vec<(usize, u32)> = Vec::new();
    let root = cell_index(0, 0, rows, cols);
    if table[root].is_none() {
        proof {
            if n == 0 {
                assert(table@[cell(n, 0, cols as int)] is Some);
            }
        }
        stack.push((0, 0));
    }
    assert(table_inv(table@, items@, cap));
    while stack.len() > 0
        invariant
            cols == cap + 1,
            rows == n + 1,
            cells == rows * cols,
            n == items@.len(),
            n == ilen,
            cap == max_weight as int,
            suffix_cost(items@, 0) <= u32::MAX,
            table@.len() == cells,
            table_inv(table@, items@, cap),
            stack@.len() <= n,
            forall|k: int| 0 <= k < stack@.len() ==> {
                &&& (#[trigger] stack@[k]).0 == k
                &&& stack@[k].1 <= cap
                &&& table@[cell(k, stack@[k].1 as int, cols as int)] is None
            },
            stack@.len() == 0 ==> table@[cell(0, 0, cols as int)] is Some,
            stack@.len() > 0 ==> stack@[0].1 == 0,
        decreases cells - filled(table@).len(), n - stack@.len(),
    {
        proof {
            lemma_filled_bound(table@);
        }
        let top = stack.len() - 1;
        let (item, weight) = stack[top];
        assert(item == top);
        let it = items[item];
        proof {
            lemma_cell_bounds(item as int, weight as int, rows as int, cols as int);
        }
        let ghost b = cap - weight;
        let mut me: Option<(u32, bool)> = None;
        let ghost mut with_opt: int = -1;
        proof {
            lemma_opt_nonneg(items@, item + 1, b);
        }
        if (weight as u64) + (it.weight as u64) <= max_weight as u64 {
            let wi = weight + it.weight;
            proof {
                lemma_cell_bounds(item + 1, wi as int, rows as int, cols as int);
            }
            match table[cell_index(item + 1, wi as usize, rows, cols)] {
                Some(c) => {
                    proof {
                        reveal(entry_ok);
                        assert(entry_ok(items@, cap, item + 1, wi as int, c));
                        assert(c.0 == opt(items@, item + 1, b - it.weight));
                        lemma_opt_le_suffix(items@, item + 1, b - it.weight);
                        lemma_suffix_mono(items@, 0, item as int);
                        lemma_opt_nonneg(items@, item + 1, b - it.weight);
                        assert(suffix_cost(items@, item as int) == it.cost + suffix_cost(items@, item + 1));
                        with_opt = c.0 as int;
                    }
                    me = Some((c.0 + it.cost, true));
                },
                None => {
                    proof {
                        if item + 1 == n {
                            assert(table@[cell(n, wi as int, cols as int)] is Some);
                        }
                    }
                    stack.push((item + 1, wi));
                    continue;
                },
            }
        }
        assert(me is Some ==> with_opt == opt(items@, item + 1, b - it.weight) && with_opt >= 0
            && me->0 == ((with_opt + it.cost) as u32, true) && with_opt + it.cost <= u32::MAX);
        assert(me is None ==> opt(items@, item + 1, b - it.weight) < 0);
        proof {
            lemma_cell_bounds(item + 1, weight as int, rows as int, cols as int);
        }
        match table[cell_index(item + 1, weight as usize, rows, cols)] {
            Some(c) => {
                let cost_with_item = match me {
                    Some(x) => x.0,
                    None => 0,
                };
                if c.0 >= cost_with_item {
                    me = Some((c.0, false));
                }
                proof {
                    reveal(entry_ok);
                    assert(entry_ok(items@, cap, item + 1, weight as int, c));
                    assert(c.0 == opt(items@, item + 1, b));
                    assert(entry_ok(items@, cap, item as int, weight as int, me->0));
                }
            },
            None => {
                proof {
                    if item + 1 == n {
                        assert(table@[cell(n, weight as int, cols as int)] is Some);
                    }
                }
                stack.push((item + 1, weight));
                continue;
            },
        }
        let ghost before = table@;
        let k = cell_index(item, weight as usize, rows, cols);
        table.set(k, me);
        proof {
            lemma_filled_grows(before, k as int, me);
            lemma_fill_keeps(before, items@, cap, item as int, weight as int, me);
        }
        let ghost old_stack = stack@;
        stack.pop();
        proof {
            assert forall|q: int| 0 <= q < stack@.len() implies table@[cell(q, stack@[q].1 as int, cols as int)] is None by {
                assert(stack@[q] == old_stack[q]);
                assert(old_stack[q].0 == q);
                lemma_cell_bounds(q, stack@[q].1 as int, rows as int, cols as int);
                lemma_cell_distinct(q, stack@[q].1 as int, item as int, weight as int, cols as int);
            }
            assert(filled(table@).len() == filled(before).len() + 1);
            lemma_filled_bound(table@);
        }
    }
    Some(table)
}

/// Reads the choices from cell `(0, 0)` forward through a filled table.
fn walk_table(items: &Vec<Item>, max_weight: u32, table: &Vec<Option<(u32, bool)>>) -> (r: (Vec<bool>, u32))
    requires
        table_inv(table@, items@, max_weight as int),
        table@[cell(0, 0, max_weight + 1)] is Some,
    ensures
        r.0@.len() == items@.len(),
        r.1 == opt(items@, 0, max_weight as int),
        range_cost(items@, r.0@, 0, items@.len() as int) == r.1,
        range_weight(items@, r.0@, 0, items@.len() as int) <= max_weight,
{
    let ghost cap = max_weight as int;
    let ghost n = items@.len() as int;
    let ilen = items.len();
    let tl = table.len();
    assert(tl == (n + 1) * (cap + 1));
    proof {
        assert((n + 1) * (cap + 1) >= n + 1 && (n + 1) * (cap + 1) >= cap + 1) by (nonlinear_arith)
            requires
                n >= 0,
                cap >= 0,
        ;
    }
    let cols = max_weight as usize + 1;
    let rows = ilen + 1;
    let root = cell_index(0, 0, rows, cols);
    let total = match table[root] {
        Some(e) => e.0,
        None => 0,
    };
    proof {
        reveal(entry_ok);
        assert(entry_ok(items@, cap, 0, 0, table@[cell(0, 0, cap + 1)]->0));
        lemma_opt_nonneg(items@, 0, cap);
    }
    let mut sel: Vec<bool> = Vec::new();
    let mut u: u32 = 0;
    let mut i: usize = 0;
    while i < ilen
        invariant
            n == ilen == items@.len(),
            cap == max_weight as int,
            cols == cap + 1,
            rows == n + 1,
            table@.len() == rows * cols,
            rows * cols <= usize::MAX,
            table_inv(table@, items@, cap),
            i <= ilen,
            u <= max_weight,
            table@[cell(i as int, u as int, cols as int)] is Some,
            sel@.len() == i,
            range_cost(items@, sel@, 0, i as int) + opt(items@, i as int, cap - u) == total,
            total == opt(items@, 0, cap),
            range_weight(items@, sel@, 0, i as int) == u,
        decreases ilen - i,
    {
        let k = cell_index(i, u as usize, rows, cols);
        let taken = match table[k] {
            Some(e) => e.1,
            None => false,
        };
        let it = items[i];
        proof {
            reveal(entry_ok);
            reveal(is_filled);
            assert(entry_ok(items@, cap, i as int, u as int, table@[cell(i as int, u as int, cols as int)]->0));
            lemma_opt_nonneg(items@, i + 1, cap - u);
        }
        let ghost before = sel@;
        sel.push(taken);
        proof {
            crate::model::lemma_range_agree(items@, before, sel@, 0, i as int);
            lemma_range_last(items@, sel@, 0, i + 1);
        }
        if taken {
            u = u + it.weight;
        }
        i = i + 1;
    }
    (sel, total)
}

impl SolverTrait for DynamicWeightSolver {
    open spec fn valid(&self) -> bool {
        true
    }

    /// The optimum, unless the table cannot be indexed on this machine.
    fn construction(&self, problem: &Problem) -> (r: Solution)
        ensures
            r.items is Some ==> r.cost == problem.optimum(),
            (problem.items@.len() + 1) * (problem.max_weight + 1) <= usize::MAX ==> r.items is Some,
    {
        let g = weight_gcd(&problem.items);
        let items = compress_items(&problem.items, g);
        let max_weight = problem.max_weight / g;
        proof {
            lemma_compress_suffix(problem.items@, g as int, 0);
            let n = problem.items@.len() as int;
            assert((n + 1) * (max_weight + 1) <= (n + 1) * (problem.max_weight + 1)) by (nonlinear_arith)
                requires
                    n >= 0,
                    max_weight <= problem.max_weight,
            ;
        }
        match fill_table(&items, max_weight) {
            None => Solution::none(problem.id, problem.size),
            Some(table) => {
                let (sel, cost) = walk_table(&items, max_weight, &table);
                proof {
                    let n = problem.items@.len() as int;
                    lemma_compress_sums(problem.items@, g as int, sel@, 0, n);
                    lemma_compress_opt(problem.items@, g as int, 0, problem.max_weight as int);
                    let cap = problem.max_weight as int;
                    vstd::arithmetic::div_mod::lemma_fundamental_div_mod(cap, g as int);
                    let w = range_weight(items@, sel@, 0, n);
                    assert(g * w <= cap) by (nonlinear_arith)
                        requires
                            w <= max_weight,
                            max_weight == cap / (g as int),
                            cap == g * (cap / (g as int)) + cap % (g as int),
                            cap % (g as int) >= 0,
                            g > 0,
                    ;
                }
                Solution { id: problem.id, size: problem.size, cost, items: Some(sel) }
            },
        }
    }
}

} // verus!
