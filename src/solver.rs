//! The interface that every strategy offers, and the decision form built on
//! top of the construction form.
use vstd::prelude::*;
use vstd::string::StringSliceAdditionalSpecFns;
use crate::approx_pruning::ApproxPruningSolver;
use crate::dynamic_cost::DynamicCostSolver;
use crate::dynamic_weight::DynamicWeightSolver;
use crate::ftpas::FTPASSolver;
use crate::greedy::GreedySolver;
use crate::model::{Problem, Solution};
use crate::naive::NaiveSolver;
use crate::pruning::PruningSolver;
use crate::redux::ReduxSolver;
use crate::tabusearch::TabuSearchSolver;

verus! {

/// The decision answer given the construction's solution: that solution
/// where it reaches the threshold `problem.min_cost`, no selection otherwise.
pub fn decide_from(problem: &Problem, constr_sol: Solution) -> (r: Solution)
    requires
        problem.min_cost is Some,
        constr_sol.answers(problem),
    ensures
        r.answers(problem),
        constr_sol.cost >= problem.min_cost->0 ==> r == constr_sol,
        constr_sol.cost < problem.min_cost->0 ==> r.items is None && r.cost == 0,
{
    let threshold = match problem.min_cost {
        Some(t) => t,
        None => 0,
    };
    if constr_sol.cost >= threshold {
        constr_sol
    } else {
        Solution::none(problem.id, problem.size)
    }
}

/// A strategy for the knapsack problem.
pub trait SolverTrait {
    /// The strategy's own parameters are usable.
    spec fn valid(&self) -> bool;

    /// A selection that fits, with its exact cost; how close it comes to the
    /// optimum depends on the strategy.
    fn construction(&self, problem: &Problem) -> (r: Solution)
        requires
            self.valid(),
            problem.wf(),
        ensures
            r.answers(problem),
    ;

    /// The construction's solution where it reaches the threshold
    /// `problem.min_cost`, and no selection otherwise.
    fn decision(&self, problem: &Problem) -> (r: Solution)
        requires
            self.valid(),
            problem.wf(),
            problem.min_cost is Some,
        ensures
            r.answers(problem),
            r.items is Some ==> r.cost >= problem.min_cost->0,
            // the construction's solution where it reaches the threshold,
            // no selection otherwise
            exists|c: Solution|
                call_ensures(Self::construction, (self, problem), c) && if c.cost >= problem.min_cost->0 {
                    r == c
                } else {
                    r.items is None && r.cost == 0
                },
    {
        let constr_sol = self.construction(problem);
        let ghost c = constr_sol;
        let r = decide_from(problem, constr_sol);
        proof {
            assert(call_ensures(Self::construction, (self, problem), c));
        }
        r
    }
}

/// A message for a configuration that cannot be used.
#[derive(Debug)]
pub struct DisplayError(pub String);

/// The strategy, with its parameters.
#[derive(Debug, Clone)]
pub enum Solver {
    Naive(NaiveSolver),
    Pruning(PruningSolver),
    DynamicWeight(DynamicWeightSolver),
    DynamicCost(DynamicCostSolver),
    Greedy(GreedySolver),
    Redux(ReduxSolver),
    FTPAS(FTPASSolver),
    TabuSearch(TabuSearchSolver),
    ApproxPruning(ApproxPruningSolver),
}

/// The strategies by name.
#[derive(Debug, Clone, Copy, PartialEq, Eq, Structural)]
pub enum Methods {
    Naive,
    Pruning,
    DynamicWeight,
    DynamicCost,
    Greedy,
    Redux,
    FTPAS,
    TabuSearch,
    ApproxPruning,
}

/// The name by which a strategy is chosen.
pub open spec fn method_name(m: Methods) -> Seq<u8> {
    match m {
        Methods::Naive => "naive".spec_bytes(),
        Methods::Pruning => "pruning".spec_bytes(),
        Methods::DynamicWeight => "dynamic-weight".spec_bytes(),
        Methods::DynamicCost => "dynamic-cost".spec_bytes(),
        Methods::Greedy => "greedy".spec_bytes(),
        Methods::Redux => "redux".spec_bytes(),
        Methods::FTPAS => "ftpas".spec_bytes(),
        Methods::TabuSearch => "tabu-search".spec_bytes(),
        Methods::ApproxPruning => "approx-pruning".spec_bytes(),
    }
}

fn bytes_eq(a: &[u8], b: &[u8]) -> (r: bool)
    ensures
        r == (a@ == b@),
{
    if a.len() != b.len() {
        return false;
    }
    let mut i: usize = 0;
    while i < a.len()
        invariant
            a@.len() == b@.len(),
            i <= a@.len(),
            forall|k: int| 0 <= k < i ==> a@[k] == b@[k],
        decreases a@.len() - i,
    {
        if a[i] != b[i] {
            return false;
        }
        i = i + 1;
    }
    assert(a@ =~= b@);
    true
}

impl Methods {
    /// The strategy of the given name; an error naming the valid ones
    /// otherwise.
    pub fn from_name(name: &str) -> (r: Result<Methods, DisplayError>)
        ensures
            r is Ok ==> name.spec_bytes() == method_name(r->Ok_0),
            r is Err ==> forall|m: Methods| name.spec_bytes() != method_name(m),
    {
        let n = name.as_bytes();
        if bytes_eq(n, "naive".as_bytes()) {
            Ok(Methods::Naive)
        } else if bytes_eq(n, "pruning".as_bytes()) {
            Ok(Methods::Pruning)
        } else if bytes_eq(n, "dynamic-weight".as_bytes()) {
            Ok(Methods::DynamicWeight)
        } else if bytes_eq(n, "dynamic-cost".as_bytes()) {
            Ok(Methods::DynamicCost)
        } else if bytes_eq(n, "greedy".as_bytes()) {
            Ok(Methods::Greedy)
        } else if bytes_eq(n, "redux".as_bytes()) {
            Ok(Methods::Redux)
        } else if bytes_eq(n, "ftpas".as_bytes()) {
            Ok(Methods::FTPAS)
        } else if bytes_eq(n, "tabu-search".as_bytes()) {
            Ok(Methods::TabuSearch)
        } else if bytes_eq(n, "approx-pruning".as_bytes()) {
            Ok(Methods::ApproxPruning)
        } else {
            Err(
                DisplayError(
                    "Method not found, following are valid: naive, pruning, dynamic-weight, dynamic-cost, greedy, redux, ftpas, tabu-search, approx-pruning.".to_string(),
                ),
            )
        }
    }
}

/// The choices that configure a strategy.
#[derive(Debug, Clone)]
pub struct Opts {
    pub method: Methods,
    pub precision: Option<u32>,
    pub force_construction: bool,
    pub memory_size: Option<usize>,
    pub iterations: Option<usize>,
}

impl SolverTrait for Solver {
    open spec fn valid(&self) -> bool {
        match self {
            Solver::Naive(s) => s.valid(),
            Solver::Pruning(s) => s.valid(),
            Solver::DynamicWeight(s) => s.valid(),
            Solver::DynamicCost(s) => s.valid(),
            Solver::Greedy(s) => s.valid(),
            Solver::Redux(s) => s.valid(),
            Solver::FTPAS(s) => s.valid(),
            Solver::TabuSearch(s) => s.valid(),
            Solver::ApproxPruning(s) => s.valid(),
        }
    }

    fn construction(&self, problem: &Problem) -> (r: Solution) {
        match self {
            Solver::Naive(s) => s.construction(problem),
            Solver::Pruning(s) => s.construction(problem),
            Solver::DynamicWeight(s) => s.construction(problem),
            Solver::DynamicCost(s) => s.construction(problem),
            Solver::Greedy(s) => s.construction(problem),
            Solver::Redux(s) => s.construction(problem),
            Solver::FTPAS(s) => s.construction(problem),
            Solver::TabuSearch(s) => s.construction(problem),
            Solver::ApproxPruning(s) => s.construction(problem),
        }
    }
}

/// The strategies that always reach the optimum.
pub open spec fn exact_strategy(s: Solver) -> bool {
    match s {
        Solver::Naive(_) | Solver::Pruning(_) | Solver::DynamicWeight(_) | Solver::DynamicCost(_) => true,
        _ => false,
    }
}

impl Solver {
    /// Whether the strategy is exact, so that its cost can be compared
    /// with a reference for equality.
    pub fn is_exact(&self) -> (r: bool)
        ensures
            r == exact_strategy(*self),
    {
        match self {
            Solver::Naive(_) | Solver::Pruning(_) | Solver::DynamicWeight(_) | Solver::DynamicCost(_) => true,
            Solver::Greedy(_) | Solver::Redux(_) | Solver::FTPAS(_) | Solver::ApproxPruning(_)
            | Solver::TabuSearch(_) => false,
        }
    }

    /// The configured strategy; an error where a parameter that it needs is
    /// missing, or where a precision (a divisor) is zero.
    pub fn from_opts(opts: &Opts) -> (r: Result<Solver, DisplayError>)
        ensures
            r is Ok ==> r->Ok_0.valid(),
            opts.method == Methods::Naive ==> r == Ok::<Solver, DisplayError>(Solver::Naive(NaiveSolver())),
            opts.method == Methods::Pruning ==> r == Ok::<Solver, DisplayError>(Solver::Pruning(PruningSolver())),
            opts.method == Methods::DynamicWeight ==> r == Ok::<Solver, DisplayError>(
                Solver::DynamicWeight(DynamicWeightSolver()),
            ),
            opts.method == Methods::DynamicCost ==> r == Ok::<Solver, DisplayError>(
                Solver::DynamicCost(DynamicCostSolver()),
            ),
            opts.method == Methods::Greedy ==> r == Ok::<Solver, DisplayError>(Solver::Greedy(GreedySolver())),
            opts.method == Methods::Redux ==> r == Ok::<Solver, DisplayError>(Solver::Redux(ReduxSolver())),
            opts.method == Methods::FTPAS ==> match opts.precision {
                Some(p) => p > 0 ==> r == Ok::<Solver, DisplayError>(Solver::FTPAS(FTPASSolver { gcd: p })),
                None => r is Err,
            },
            opts.method == Methods::FTPAS && opts.precision == Some(0u32) ==> r is Err,
            opts.method == Methods::ApproxPruning ==> match opts.precision {
                Some(p) => p > 0 ==> r == Ok::<Solver, DisplayError>(
                    Solver::ApproxPruning(ApproxPruningSolver { precision: p }),
                ),
                None => r is Err,
            },
            opts.method == Methods::ApproxPruning && opts.precision == Some(0u32) ==> r is Err,
            opts.method == Methods::TabuSearch ==> match (opts.memory_size, opts.iterations) {
                (Some(m), Some(i)) => r == Ok::<Solver, DisplayError>(
                    Solver::TabuSearch(TabuSearchSolver { memory_size: m, iterations: i }),
                ),
                _ => r is Err,
            },
    {
        match opts.method {
            Methods::Naive => Ok(Solver::Naive(NaiveSolver())),
            Methods::Pruning => Ok(Solver::Pruning(PruningSolver())),
            Methods::DynamicWeight => Ok(Solver::DynamicWeight(DynamicWeightSolver())),
            Methods::DynamicCost => Ok(Solver::DynamicCost(DynamicCostSolver())),
            Methods::Greedy => Ok(Solver::Greedy(GreedySolver())),
            Methods::Redux => Ok(Solver::Redux(ReduxSolver())),
            Methods::FTPAS => match opts.precision {
                Some(p) => if p > 0 {
                    Ok(Solver::FTPAS(FTPASSolver { gcd: p }))
                } else {
                    Err(DisplayError("Precision must be positive.".to_string()))
                },
                None => Err(DisplayError("Missing precision option.".to_string())),
            },
            Methods::ApproxPruning => match opts.precision {
                Some(p) => if p > 0 {
                    Ok(Solver::ApproxPruning(ApproxPruningSolver { precision: p }))
                } else {
                    Err(DisplayError("Precision must be positive.".to_string()))
                },
                None => Err(DisplayError("Missing precision option.".to_string())),
            },
            Methods::TabuSearch => match opts.memory_size {
                Some(m) => match opts.iterations {
                    Some(i) => Ok(Solver::TabuSearch(TabuSearchSolver { memory_size: m, iterations: i })),
                    None => Err(DisplayError("Missing iterations option.".to_string())),
                },
                None => Err(DisplayError("Missing memory option.".to_string())),
            },
        }
    }
}

} // verus!
