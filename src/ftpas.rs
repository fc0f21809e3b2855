//! The approximation scheme: the cost-indexed solver on costs divided by a
//! scaling divisor, with the true cost of its selection.
use vstd::prelude::*;
use crate::dynamic_cost::{cost_table_cells_for, cost_table_needed_for, cost_table_bound, scale_costs, DynamicCostSolver, MAX_TABLE_CELLS};
use crate::model::{
    feasible, sel_cost, lemma_range_le_suffix, range_cost, range_weight, suffix_cost, suffix_weight, Item, Problem,
    Solution,
};
use crate::solver::SolverTrait;

verus! {

/// Cost-indexed dynamic programming on costs divided by `gcd`: larger
/// divisors are faster and less accurate.
#[derive(Debug, Clone)]
pub struct FTPASSolver {
    pub gcd: u32,
}

proof fn lemma_scaled_sums(items: Seq<Item>, g: int, sel: Seq<bool>, lo: int, hi: int)
    requires
        g > 0,
        0 <= lo <= hi <= items.len(),
    ensures
        range_weight(scale_costs(items, g), sel, lo, hi) == range_weight(items, sel, lo, hi),
        suffix_cost(scale_costs(items, g), lo) <= suffix_cost(items, lo),
        suffix_weight(scale_costs(items, g), lo) == suffix_weight(items, lo),
    decreases items.len() - lo,
{
    if lo < items.len() {
        if lo < hi {
            lemma_scaled_sums(items, g, sel, lo + 1, hi);
        } else {
            lemma_scaled_sums(items, g, sel, lo + 1, items.len() as int);
        }
        let c = items[lo].cost as int;
        assert(0 <= c / g <= c) by (nonlinear_arith)
            requires
                g > 0,
                c >= 0,
        ;
    }
}

/// How many positions of `sel[lo..hi]` are selected.
pub open spec fn taken_count(sel: Seq<bool>, lo: int, hi: int) -> int
    decreases hi - lo,
{
    if hi <= lo {
        0
    } else {
        (if sel[lo] { 1int } else { 0int }) + taken_count(sel, lo + 1, hi)
    }
}

/// Dividing costs by `g` and multiplying back loses less than `g` per
/// selected item, and never gains.
proof fn lemma_scaled_cost_gap(items: Seq<Item>, g: int, x: Seq<bool>, lo: int, hi: int)
    requires
        g > 0,
        0 <= lo <= hi <= items.len(),
    ensures
        g * range_cost(scale_costs(items, g), x, lo, hi) <= range_cost(items, x, lo, hi),
        range_cost(items, x, lo, hi) <= g * range_cost(scale_costs(items, g), x, lo, hi) + (g - 1)
            * taken_count(x, lo, hi),
    decreases hi - lo,
{
    let sc = scale_costs(items, g);
    if lo < hi {
        lemma_scaled_cost_gap(items, g, x, lo + 1, hi);
        let c = items[lo].cost as int;
        vstd::arithmetic::div_mod::lemma_fundamental_div_mod(c, g);
        let q = c / g;
        let r = c % g;
        assert(0 <= q <= c) by (nonlinear_arith)
            requires
                c == g * q + r,
                0 <= r < g,
                c >= 0,
                g > 0,
        ;
        assert(sc[lo].cost == q);
        let a = range_cost(sc, x, lo + 1, hi);
        let b = range_cost(items, x, lo + 1, hi);
        let k = taken_count(x, lo + 1, hi);
        let xq = if x[lo] { q } else { 0 };
        let xc = if x[lo] { c } else { 0 };
        let xk = if x[lo] { 1int } else { 0int };
        assert(g * (xq + a) <= xc + b) by (nonlinear_arith)
            requires
                g * a <= b,
                c == g * q + r,
                0 <= r,
                xq == q && xc == c || xq == 0 && xc == 0,
        ;
        assert(xc + b <= g * (xq + a) + (g - 1) * (xk + k)) by (nonlinear_arith)
            requires
                b <= g * a + (g - 1) * k,
                c == g * q + r,
                r <= g - 1,
                xq == q && xc == c && xk == 1 || xq == 0 && xc == 0 && xk == 0,
        ;
    } else {
        assert(g * range_cost(sc, x, lo, hi) == 0) by (nonlinear_arith)
            requires
                range_cost(sc, x, lo, hi) == 0,
        ;
        assert((g - 1) * taken_count(x, lo, hi) == 0) by (nonlinear_arith)
            requires
                taken_count(x, lo, hi) == 0,
        ;
    }
}

proof fn lemma_bound_mono(p: &Problem, q: &Problem)
    requires
        p.items@.len() == q.items@.len(),
        suffix_cost(q.items@, 0) <= suffix_cost(p.items@, 0),
        suffix_cost(q.items@, 0) >= 0,
    ensures
        cost_table_bound(q) <= cost_table_bound(p),
{
    reveal(cost_table_bound);
    let n = p.items@.len() as int;
    let a = suffix_cost(q.items@, 0);
    let b = suffix_cost(p.items@, 0);
    assert((n + 1) * (a + 1) <= (n + 1) * (b + 1)) by (nonlinear_arith)
        requires
            n >= 0,
            0 <= a <= b,
    ;
}

proof fn lemma_taken_nonneg(sel: Seq<bool>, lo: int, hi: int)
    ensures
        taken_count(sel, lo, hi) >= 0,
    decreases hi - lo,
{
    if lo < hi {
        lemma_taken_nonneg(sel, lo + 1, hi);
    }
}

/// The total cost of the selected items.
fn selection_cost(items: &Vec<Item>, sel: &Vec<bool>) -> (r: u32)
    requires
        sel@.len() == items@.len(),
        suffix_cost(items@, 0) <= u32::MAX,
    ensures
        r == range_cost(items@, sel@, 0, items@.len() as int),
{
    let n = items.len();
    let mut acc: u32 = 0;
    let mut i: usize = n;
    proof {
        crate::model::lemma_range_none(items@, sel@, n as int, n as int);
    }
    while i > 0
        invariant
            i <= n == items@.len() == sel@.len(),
            suffix_cost(items@, 0) <= u32::MAX,
            acc == range_cost(items@, sel@, i as int, n as int),
        decreases i,
    {
        proof {
            lemma_range_le_suffix(items@, sel@, i - 1);
            crate::model::lemma_suffix_mono(items@, 0, i - 1);
        }
        if sel[i - 1] {
            acc = acc + items[i - 1].cost;
        }
        i = i - 1;
    }
    acc
}

impl SolverTrait for FTPASSolver {
    open spec fn valid(&self) -> bool {
        self.gcd > 0
    }

    /// The cost reported is that of the selection on the unscaled costs; it
    /// falls short of any feasible selection by at most `gcd` per item that
    /// selection takes.
    fn construction(&self, problem: &Problem) -> (r: Solution)
        ensures
            cost_table_bound(problem) <= MAX_TABLE_CELLS ==> r.items is Some,
            // no selection exactly where the table for the divided costs is too large
            (r.items is None) == (cost_table_needed_for(scale_costs(problem.items@, self.gcd as int), problem.max_weight as int)
                && cost_table_cells_for(scale_costs(problem.items@, self.gcd as int), problem.max_weight as int)
                > MAX_TABLE_CELLS),
            r.items is Some ==> forall|o: Seq<bool>| #[trigger] feasible(problem.items@, o, problem.max_weight as int)
                ==> sel_cost(problem.items@, o) - r.cost <= self.gcd * taken_count(o, 0, o.len() as int),
            r.items is Some && self.gcd == 1 ==> r.cost == problem.optimum(),
    {
        let mut transformed_items: Vec<Item> = Vec::new();
        let mut i: usize = 0;
        while i < problem.items.len()
            invariant
                i <= problem.items@.len(),
                self.gcd > 0,
                transformed_items@.len() == i,
                forall|j: int| 0 <= j < i ==> transformed_items@[j] == scale_costs(
                    problem.items@,
                    self.gcd as int,
                )[j],
            decreases problem.items@.len() - i,
        {
            let item = problem.items[i];
            transformed_items.push(Item { cost: item.cost / self.gcd, weight: item.weight });
            i = i + 1;
        }
        proof {
            assert(transformed_items@ =~= scale_costs(problem.items@, self.gcd as int));
            lemma_scaled_sums(problem.items@, self.gcd as int, Seq::empty(), 0, 0);
            crate::model::lemma_suffix_nonneg(transformed_items@, 0);
        }
        let scaled = Problem {
            id: problem.id,
            max_weight: problem.max_weight,
            size: problem.size,
            min_cost: problem.min_cost,
            items: transformed_items,
        };
        proof {
            lemma_bound_mono(problem, &scaled);
        }
        let solution = DynamicCostSolver().construction(&scaled);
        match solution.items {
            Some(sel) => {
                proof {
                    lemma_scaled_sums(problem.items@, self.gcd as int, sel@, 0, problem.items@.len() as int);
                }
                let cost = selection_cost(&problem.items, &sel);
                proof {
                    let items = problem.items@;
                    let n = items.len() as int;
                    let g = self.gcd as int;
                    let cap = problem.max_weight as int;
                    let sc = scale_costs(items, g);
                    lemma_scaled_cost_gap(items, g, sel@, 0, n);
                    assert forall|o: Seq<bool>| #[trigger] feasible(items, o, cap) implies sel_cost(items, o) - cost
                        <= g * taken_count(o, 0, o.len() as int) by {
                        lemma_scaled_sums(items, g, o, 0, n);
                        lemma_scaled_cost_gap(items, g, o, 0, n);
                        crate::model::lemma_opt_upper(sc, o, 0, cap);
                        let so = range_cost(sc, o, 0, n);
                        let ss = range_cost(sc, sel@, 0, n);
                        assert(so <= ss);
                        let k = taken_count(o, 0, n);
                        assert(k >= 0) by {
                            lemma_taken_nonneg(o, 0, n);
                        }
                        assert(sel_cost(items, o) - cost <= g * k) by (nonlinear_arith)
                            requires
                                sel_cost(items, o) <= g * so + (g - 1) * k,
                                g * ss <= cost,
                                so <= ss,
                                k >= 0,
                                g >= 1,
                        ;
                    }
                    if g == 1 {
                        assert(sc =~= items);
                    }
                }
                Solution { id: problem.id, size: problem.size, cost, items: Some(sel) }
            },
            None => Solution::none(problem.id, problem.size),
        }
    }
}

} // verus!
