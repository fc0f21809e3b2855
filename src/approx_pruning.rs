//! Branch-and-bound that only explores subtrees able to beat the best cost
//! by a chosen factor.
use vstd::prelude::*;
use crate::model::{Problem, Solution};
use crate::pruning::{best_item_solution, branch_and_bound};
use crate::solver::SolverTrait;
use crate::utils::best_single;

verus! {

/// Branch-and-bound with relative slack `1 / precision`: the cost reached is
/// at least `precision / (precision + 1)` of the optimum.
#[derive(Debug, Clone)]
pub struct ApproxPruningSolver {
    pub precision: u32,
}

impl SolverTrait for ApproxPruningSolver {
    open spec fn valid(&self) -> bool {
        self.precision > 0
    }

    fn construction(&self, problem: &Problem) -> (r: Solution)
        ensures
            r.items is Some,
            r.cost >= best_single(problem.items@, problem.max_weight as int, problem.items@.len() as int),
            self.precision * problem.optimum() <= (self.precision + 1) * r.cost,
    {
        let seed = best_item_solution(problem);
        branch_and_bound(problem, seed, self.precision)
    }
}

} // verus!
