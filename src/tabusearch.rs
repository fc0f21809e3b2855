//! Local search over single-item flips with a short-term memory of recently
//! visited states.
use vstd::prelude::*;
use crate::model::{
    lemma_range_clear, lemma_range_le_suffix, lemma_range_none, range_cost, range_weight,
    suffix_cost, suffix_weight, Item, Problem, Solution,
};
use crate::solver::SolverTrait;

verus! {

/// Tabu search with a memory of `memory_size` states, run for `iterations`
/// moves.
#[derive(Debug, Clone)]
pub struct TabuSearchSolver {
    pub memory_size: usize,
    pub iterations: usize,
}

/// The total cost and weight of the items that `state` selects.
fn cost_weight(state: &[bool], items: &[Item]) -> (r: (u32, u32))
    requires
        state@.len() == items@.len(),
        suffix_cost(items@, 0) <= u32::MAX,
        suffix_weight(items@, 0) <= u32::MAX,
    ensures
        r.0 == range_cost(items@, state@, 0, items@.len() as int),
        r.1 == range_weight(items@, state@, 0, items@.len() as int),
{
    let n = items.len();
    let mut cost: u32 = 0;
    let mut weight: u32 = 0;
    let mut i: usize = n;
    proof {
        lemma_range_none(items@, state@, n as int, n as int);
    }
    while i > 0
        invariant
            i <= n == items@.len() == state@.len(),
            suffix_cost(items@, 0) <= u32::MAX,
            suffix_weight(items@, 0) <= u32::MAX,
            cost == range_cost(items@, state@, i as int, n as int),
            weight == range_weight(items@, state@, i as int, n as int),
        decreases i,
    {
        proof {
            lemma_range_le_suffix(items@, state@, i - 1);
            crate::model::lemma_suffix_mono(items@, 0, i - 1);
        }
        if state[i - 1] {
            cost = cost + items[i - 1].cost;
            weight = weight + items[i - 1].weight;
        }
        i = i - 1;
    }
    (cost, weight)
}

/// `a` and `b` differ at position `i` and nowhere else.
pub open spec fn differs_only_at(a: Seq<bool>, b: Seq<bool>, i: int) -> bool {
    &&& a.len() == b.len()
    &&& 0 <= i < a.len()
    &&& a[i] != b[i]
    &&& forall|j: int| 0 <= j < a.len() && j != i ==> a[j] == b[j]
}

/// Positions whose flip leads back to one of the first `size` remembered
/// states.
pub open spec fn tabu_blacklist(slots: Seq<Seq<bool>>, size: int, state: Seq<bool>) -> Seq<bool> {
    Seq::new(state.len(), |i: int| exists|k: int| 0 <= k < size && differs_only_at(slots[k], state, i))
}

/// `state` with position `i` flipped.
pub open spec fn flip(state: Seq<bool>, i: int) -> Seq<bool> {
    state.update(i, !state[i])
}

/// The best flip among positions `0..i` (skipping blacklisted ones where
/// `use_bl`): highest rank, the later position on a tie.
pub open spec fn scan_best(items: Seq<Item>, state: Seq<bool>, cap: int, bl: Seq<bool>, use_bl: bool, i: int)
    -> Option<(int, int, int)>
    decreases i,
{
    if i <= 0 {
        None
    } else {
        let prev = scan_best(items, state, cap, bl, use_bl, i - 1);
        let j = i - 1;
        if use_bl && bl[j] {
            prev
        } else {
            let key = move_key(items, state, cap, j);
            match prev {
                None => Some((key.0, key.1, j)),
                Some(m) => if key.0 > m.0 || (key.0 == m.0 && key.1 >= m.1) {
                    Some((key.0, key.1, j))
                } else {
                    prev
                },
            }
        }
    }
}

/// The position the search flips from `state`: the best one that is not
/// blacklisted, or, where all are, the best one.
pub open spec fn chosen_move(items: Seq<Item>, state: Seq<bool>, cap: int, bl: Seq<bool>) -> Option<int> {
    match scan_best(items, state, cap, bl, true, state.len() as int) {
        Some(m) => Some(m.2),
        None => match scan_best(items, state, cap, bl, false, state.len() as int) {
            Some(m) => Some(m.2),
            None => None,
        },
    }
}

/// The search after `k` iterations: current state, memory slots, number of
/// remembered states, next slot to write.
pub open spec fn tabu_config(items: Seq<Item>, cap: int, msize: nat, k: nat) -> (Seq<bool>, Seq<Seq<bool>>, int, int)
    decreases k,
{
    if k == 0 {
        (
            Seq::new(items.len(), |i: int| true),
            Seq::new(msize, |q: int| Seq::new(items.len(), |i: int| false)),
            0,
            0,
        )
    } else {
        let (st, sl, sz, tg) = tabu_config(items, cap, msize, (k - 1) as nat);
        match chosen_move(items, st, cap, tabu_blacklist(sl, sz, st)) {
            None => (st, sl, sz, tg),
            Some(i) => if msize == 0 {
                (flip(st, i), sl, sz, tg)
            } else {
                (flip(st, i), sl.update(tg, st), if sz < msize { sz + 1 } else { sz }, (tg + 1) % (msize as int))
            },
        }
    }
}

/// The state that iteration `j` starts from (after `j` moves), which the
/// search evaluates; the last one is the state after the final move.
pub open spec fn observed(items: Seq<Item>, cap: int, msize: nat, j: nat) -> Seq<bool> {
    tabu_config(items, cap, msize, j).0
}

/// The state observed at step `j` fits into `cap`.
pub open spec fn observed_fits(items: Seq<Item>, cap: int, msize: nat, j: nat) -> bool {
    range_weight(items, observed(items, cap, msize, j), 0, items.len() as int) <= cap
}

/// A ring buffer of the last visited states.
struct TabuMemory {
    slots: Vec<Vec<bool>>,
    capacity: usize,
    size: usize,
    target: usize,
    problem_size: usize,
}

impl TabuMemory {
    /// The remembered states, slot by slot.
    spec fn view_slots(&self) -> Seq<Seq<bool>> {
        self.slots@.map_values(|v: Vec<bool>| v@)
    }

    spec fn wf(&self) -> bool {
        &&& self.slots@.len() == self.capacity
        &&& self.size <= self.capacity
        &&& (self.capacity == 0 ==> self.target == 0)
        &&& (self.capacity > 0 ==> self.target < self.capacity)
        &&& forall|k: int| 0 <= k < self.capacity ==> (#[trigger] self.slots@[k])@.len() == self.problem_size
    }

    /// An empty memory for `memory_size` states of `problem_size` items.
    fn new(problem_size: usize, memory_size: usize) -> (r: TabuMemory)
        ensures
            r.wf(),
            r.size == 0,
            r.capacity == memory_size,
            r.problem_size == problem_size,
            r.target == 0,
            r.view_slots() == Seq::new(memory_size as nat, |q: int| Seq::new(problem_size as nat, |i: int| false)),
    {
        let mut slots: Vec<Vec<bool>> = Vec::new();
        let mut k: usize = 0;
        while k < memory_size
            invariant
                k <= memory_size,
                slots@.len() == k,
                forall|q: int| 0 <= q < k ==> (#[trigger] slots@[q])@ == Seq::new(problem_size as nat, |i: int| false),
            decreases memory_size - k,
        {
            let v = vec![false; problem_size];
            assert(v@ =~= Seq::new(problem_size as nat, |i: int| false));
            slots.push(v);
            k = k + 1;
        }
        let r = TabuMemory { slots, capacity: memory_size, size: 0, target: 0, problem_size };
        assert(r.view_slots() =~= Seq::new(memory_size as nat, |q: int| Seq::new(problem_size as nat, |i: int| false)));
        r
    }

    /// Marks in `pass_memory` each position whose flip would lead back to a
    /// remembered state, and clears the others.
    fn blacklist(&self, state: &[bool], pass_memory: &mut Vec<bool>)
        requires
            self.wf(),
            state@.len() == self.problem_size,
            old(pass_memory)@.len() == self.problem_size,
        ensures
            final(pass_memory)@.len() == self.problem_size,
            forall|i: int| 0 <= i < self.problem_size ==> (final(pass_memory)@[i] <==> exists|k: int|
                0 <= k < self.size && differs_only_at(#[trigger] self.slots@[k]@, state@, i)),
            final(pass_memory)@ == tabu_blacklist(self.view_slots(), self.size as int, state@),
    {
        let n = state.len();
        let mut i: usize = 0;
        while i < n
            invariant
                n == state@.len() == pass_memory@.len(),
                i <= n,
                forall|j: int| 0 <= j < i ==> !pass_memory@[j],
            decreases n - i,
        {
            pass_memory.set(i, false);
            i = i + 1;
        }
        let mut k: usize = 0;
        while k < self.size
            invariant
                self.wf(),
                n == state@.len() == pass_memory@.len() == self.problem_size,
                k <= self.size,
                forall|j: int| 0 <= j < n ==> (pass_memory@[j] <==> exists|q: int|
                    0 <= q < k && differs_only_at(#[trigger] self.slots@[q]@, state@, j)),
            decreases self.size - k,
        {
            let memory_state = &self.slots[k];
            assert(memory_state@.len() == n);
            // position of the first difference, and whether there is a second
            let mut first: usize = n;
            let mut second = false;
            let mut j: usize = 0;
            while j < n
                invariant
                    n == state@.len() == memory_state@.len(),
                    j <= n,
                    first <= n,
                    first == n ==> forall|t: int| 0 <= t < j ==> memory_state@[t] == state@[t],
                    first < n ==> first < j && memory_state@[first as int] != state@[first as int]
                        && forall|t: int| 0 <= t < first ==> memory_state@[t] == state@[t],
                    !second && first < n ==> forall|t: int| first < t < j ==> memory_state@[t] == state@[t],
                    second ==> first < n && exists|t: int| first < t < j && memory_state@[t] != state@[t],
                decreases n - j,
            {
                if memory_state[j] != state[j] {
                    if first == n {
                        first = j;
                    } else {
                        second = true;
                    }
                }
                j = j + 1;
            }
            let ghost before = pass_memory@;
            if first < n && !second {
                pass_memory.set(first, true);
            }
            proof {
                assert forall|t: int| 0 <= t < n implies (pass_memory@[t] <==> exists|q: int|
                    0 <= q < k + 1 && differs_only_at(#[trigger] self.slots@[q]@, state@, t)) by {
                    if differs_only_at(self.slots@[k as int]@, state@, t) {
                        if first == n {
                            assert(memory_state@[t] == state@[t]);
                        } else if second {
                            let t2 = choose|t2: int| first < t2 < n && memory_state@[t2] != state@[t2];
                            assert(t2 != t || first != t);
                        } else {
                            assert(first == t);
                        }
                    }
                    if first < n && !second && t == first {
                        assert(differs_only_at(self.slots@[k as int]@, state@, t));
                    }
                    if exists|q: int| 0 <= q < k + 1 && differs_only_at(#[trigger] self.slots@[q]@, state@, t) {
                        let q = choose|q: int| 0 <= q < k + 1 && differs_only_at(#[trigger] self.slots@[q]@, state@, t);
                        if q < k {
                            assert(before[t]);
                        }
                    }
                }
            }
            k = k + 1;
        }
        proof {
            let bl = tabu_blacklist(self.view_slots(), self.size as int, state@);
            assert forall|t: int| 0 <= t < n implies pass_memory@[t] == bl[t] by {
                if pass_memory@[t] {
                    let q = choose|q: int| 0 <= q < self.size && differs_only_at(#[trigger] self.slots@[q]@, state@, t);
                    assert(self.view_slots()[q] == self.slots@[q]@);
                }
                if bl[t] {
                    let q = choose|q: int| 0 <= q < self.size && differs_only_at(self.view_slots()[q], state@, t);
                    assert(self.view_slots()[q] == self.slots@[q]@);
                }
            }
            assert(pass_memory@ =~= bl);
        }
    }

    /// Remembers `state` in place of the oldest state once the memory is full.
    fn insert(&mut self, state: &[bool])
        requires
            old(self).wf(),
            state@.len() == old(self).problem_size,
        ensures
            final(self).wf(),
            final(self).capacity == old(self).capacity,
            final(self).problem_size == old(self).problem_size,
            old(self).capacity == 0 ==> final(self).view_slots() == old(self).view_slots()
                && final(self).size == old(self).size && final(self).target == old(self).target,
            old(self).capacity > 0 ==> {
                &&& final(self).size == if old(self).size < old(self).capacity {
                    old(self).size + 1
                } else {
                    old(self).size as int
                }
                &&& final(self).target == (old(self).target + 1) % (old(self).capacity as int)
                &&& final(self).view_slots() == old(self).view_slots().update(old(self).target as int, state@)
            },
    {
        if self.capacity == 0 {
            return;
        }
        let mut copy: Vec<bool> = Vec::new();
        let mut i: usize = 0;
        while i < state.len()
            invariant
                i <= state@.len(),
                copy@ == state@.subrange(0, i as int),
            decreases state@.len() - i,
        {
            copy.push(state[i]);
            i = i + 1;
            proof {
                assert(copy@ =~= state@.subrange(0, i as int));
            }
        }
        assert(copy@ =~= state@);
        self.slots.set(self.target, copy);
        if self.size < self.capacity {
            self.size = self.size + 1;
        }
        self.target = (self.target + 1) % self.capacity;
        assert(self.view_slots() =~= old(self).view_slots().update(old(self).target as int, state@));
    }
}

/// Cost and weight after flipping one position.
proof fn lemma_flip(items: Seq<Item>, state: Seq<bool>, i: int)
    requires
        state.len() == items.len(),
        0 <= i < items.len(),
    ensures
        range_cost(items, flip(state, i), 0, items.len() as int) == range_cost(items, state, 0, items.len() as int)
            + if state[i] { -(items[i].cost as int) } else { items[i].cost as int },
        range_weight(items, flip(state, i), 0, items.len() as int) == range_weight(items, state, 0, items.len() as int)
            + if state[i] { -(items[i].weight as int) } else { items[i].weight as int },
{
    let n = items.len() as int;
    let f = flip(state, i);
    if state[i] {
        assert(f =~= state.update(i, false));
        lemma_range_clear(items, state, i, 0, n);
    } else {
        assert(f.update(i, false) =~= state);
        lemma_range_clear(items, f, i, 0, n);
    }
}

/// The rank of flipping position `i`: first how far the result stays from
/// passing the capacity (`u32::MAX` where it fits), then its cost.
pub open spec fn move_key(items: Seq<Item>, state: Seq<bool>, cap: int, i: int) -> (int, int) {
    let f = flip(state, i);
    let w = range_weight(items, f, 0, items.len() as int);
    let c = range_cost(items, f, 0, items.len() as int);
    (if w > cap { u32::MAX - w + cap } else { u32::MAX as int }, c)
}

/// Lexicographic order of move ranks, the position breaking ties.
pub open spec fn move_le(a: (int, int), ai: int, b: (int, int), bi: int) -> bool {
    a.0 < b.0 || (a.0 == b.0 && (a.1 < b.1 || (a.1 == b.1 && ai <= bi)))
}

/// The best single flip of `state` (highest rank, then highest position),
/// skipping blacklisted positions where
/// `use_blacklist` holds: its rank and its position.
fn best_move(
    items: &Vec<Item>,
    state: &Vec<bool>,
    blacklist: &Vec<bool>,
    cost: u32,
    weight: u32,
    max_weight: u32,
    use_blacklist: bool,
) -> (r: Option<(u32, u32, usize)>)
    requires
        state@.len() == items@.len() == blacklist@.len(),
        suffix_cost(items@, 0) <= u32::MAX,
        suffix_weight(items@, 0) <= u32::MAX,
        cost == range_cost(items@, state@, 0, items@.len() as int),
        weight == range_weight(items@, state@, 0, items@.len() as int),
    ensures
        match r {
            Some(m) => {
                &&& m.2 < items@.len()
                &&& use_blacklist ==> !blacklist@[m.2 as int]
                &&& (m.0 as int, m.1 as int) == move_key(items@, state@, max_weight as int, m.2 as int)
                &&& forall|j: int| 0 <= j < items@.len() && !(use_blacklist && blacklist@[j]) ==> move_le(
                    #[trigger] move_key(items@, state@, max_weight as int, j),
                    j,
                    (m.0 as int, m.1 as int),
                    m.2 as int,
                )
            },
            None => {
                &&& items@.len() > 0 ==> use_blacklist
                &&& forall|j: int| 0 <= j < items@.len() ==> blacklist@[j]
            },
        },
        ({
            let sb = scan_best(items@, state@, max_weight as int, blacklist@, use_blacklist, items@.len() as int);
            &&& (r is Some) == (sb is Some)
            &&& r is Some ==> sb->0 == ((r->0).0 as int, (r->0).1 as int, (r->0).2 as int)
        }),
{
    let n = items.len();
    let mut found = false;
    let mut k0: u32 = 0;
    let mut k1: u32 = 0;
    let mut ki: usize = 0;
    let mut i: usize = 0;
    while i < n
        invariant
            n == items@.len() == state@.len() == blacklist@.len(),
            i <= n,
            suffix_cost(items@, 0) <= u32::MAX,
            suffix_weight(items@, 0) <= u32::MAX,
            cost == range_cost(items@, state@, 0, n as int),
            weight == range_weight(items@, state@, 0, n as int),
            found ==> {
                &&& ki < i
                &&& use_blacklist ==> !blacklist@[ki as int]
                &&& (k0 as int, k1 as int) == move_key(items@, state@, max_weight as int, ki as int)
            },
            !found ==> (i > 0 ==> use_blacklist) && forall|j: int| 0 <= j < i ==> blacklist@[j],
            found == scan_best(items@, state@, max_weight as int, blacklist@, use_blacklist, i as int) is Some,
            found ==> scan_best(items@, state@, max_weight as int, blacklist@, use_blacklist, i as int)->0 == (
            k0 as int, k1 as int, ki as int),
            found ==> forall|j: int| 0 <= j < i && !(use_blacklist && blacklist@[j]) ==> move_le(
                #[trigger] move_key(items@, state@, max_weight as int, j),
                j,
                (k0 as int, k1 as int),
                ki as int,
            ),
        decreases n - i,
    {
        if !(use_blacklist && blacklist[i]) {
            let item = items[i];
            proof {
                lemma_flip(items@, state@, i as int);
                lemma_range_le_suffix(items@, flip(state@, i as int), 0);
                lemma_range_le_suffix(items@, state@, 0);
            }
            let (new_weight, new_cost) = if state[i] {
                (weight - item.weight, cost - item.cost)
            } else {
                (weight + item.weight, cost + item.cost)
            };
            let key0 = if new_weight > max_weight {
                u32::MAX - new_weight + max_weight
            } else {
                u32::MAX
            };
            assert((key0 as int, new_cost as int) == move_key(items@, state@, max_weight as int, i as int));
            let ghost o = (k0 as int, k1 as int);
            let ghost oi = ki as int;
            let ghost ofound = found;
            if !found || key0 > k0 || (key0 == k0 && new_cost >= k1) {
                proof {
                    assert forall|j: int| 0 <= j < i && !(use_blacklist && blacklist@[j]) implies move_le(
                        #[trigger] move_key(items@, state@, max_weight as int, j),
                        j,
                        (key0 as int, new_cost as int),
                        i as int,
                    ) by {
                        if ofound {
                            assert(move_le(move_key(items@, state@, max_weight as int, j), j, o, oi));
                        } else {
                            assert(blacklist@[j]);
                        }
                    }
                }
                found = true;
                k0 = key0;
                k1 = new_cost;
                ki = i;
            }
        }
        i = i + 1;
    }
    if found {
        Some((k0, k1, ki))
    } else {
        None
    }
}

/// A copy of a selection.
fn copy_state(state: &Vec<bool>) -> (r: Vec<bool>)
    ensures
        r@ == state@,
{
    let mut r: Vec<bool> = Vec::new();
    let mut i: usize = 0;
    while i < state.len()
        invariant
            i <= state@.len(),
            r@ == state@.subrange(0, i as int),
        decreases state@.len() - i,
    {
        r.push(state[i]);
        i = i + 1;
        proof {
            assert(r@ =~= state@.subrange(0, i as int));
        }
    }
    assert(r@ =~= state@);
    r
}

impl SolverTrait for TabuSearchSolver {
    open spec fn valid(&self) -> bool {
        true
    }

    /// The best state that fitted among those the search observed: the
    /// state each iteration starts from and the state its move reaches. No
    /// selection where none of them fitted (or no iteration ran).
    fn construction(&self, problem: &Problem) -> (r: Solution)
        ensures
            ({
                let its = self.iterations as nat;
                let items = problem.items@;
                let cap = problem.max_weight as int;
                let ms = self.memory_size as nat;
                &&& (r.items is Some) == (its > 0 && exists|j: nat| j <= its && #[trigger] observed_fits(items, cap, ms, j))
                &&& r.items is Some ==> exists|j: nat| j <= its && #[trigger] observed_fits(items, cap, ms, j)
                    && r.items->0@ == observed(items, cap, ms, j)
                &&& its > 0 ==> forall|j: nat| j <= its && #[trigger] observed_fits(items, cap, ms, j) ==> range_cost(
                    items,
                    observed(items, cap, ms, j),
                    0,
                    items.len() as int,
                ) <= r.cost
            }),
    {
        let items = &problem.items;
        let n = items.len();
        let max_weight = problem.max_weight;
        let ghost cap = max_weight as int;
        let ghost ms = self.memory_size as nat;
        let mut state = vec![true; n];
        let mut best_solution: Option<Vec<bool>> = None;
        let mut best_cost: u32 = 0;
        let mut tabu = TabuMemory::new(n, self.memory_size);
        let mut blacklist = vec![false; n];
        proof {
            assert(state@ =~= Seq::new(n as nat, |i: int| true));
        }
        let mut iteration: usize = 0;
        while iteration < self.iterations
            invariant
                n == items@.len() == problem.size,
                items@ == problem.items@,
                cap == max_weight,
                ms == self.memory_size,
                suffix_cost(items@, 0) <= u32::MAX,
                suffix_weight(items@, 0) <= u32::MAX,
                state@.len() == n,
                blacklist@.len() == n,
                tabu.wf(),
                tabu.problem_size == n,
                tabu.capacity == ms,
                iteration <= self.iterations,
                (state@, tabu.view_slots(), tabu.size as int, tabu.target as int) == tabu_config(
                    items@,
                    cap,
                    ms,
                    iteration as nat,
                ),
                iteration == 0 ==> best_solution is None,
                iteration > 0 ==> (best_solution is Some) == (exists|j: nat| j <= iteration
                    && #[trigger] observed_fits(items@, cap, ms, j)),
                iteration > 0 ==> forall|j: nat| j <= iteration && #[trigger] observed_fits(items@, cap, ms, j)
                    ==> range_cost(items@, observed(items@, cap, ms, j), 0, n as int) <= best_cost,
                match best_solution {
                    Some(b) => {
                        &&& b@.len() == n
                        &&& best_cost == range_cost(items@, b@, 0, n as int)
                        &&& range_weight(items@, b@, 0, n as int) <= max_weight
                        &&& exists|j: nat| j <= iteration && #[trigger] observed_fits(items@, cap, ms, j)
                            && b@ == observed(items@, cap, ms, j)
                    },
                    None => best_cost == 0,
                },
            decreases self.iterations - iteration,
        {
            let ghost cfg = tabu_config(items@, cap, ms, iteration as nat);
            let ghost i0 = iteration as nat;
            let (cost, weight) = cost_weight(state.as_slice(), items.as_slice());
            // the state this iteration starts from is observed too
            if weight <= max_weight && (best_solution.is_none() || best_cost < cost) {
                best_solution = Some(copy_state(&state));
                best_cost = cost;
            }
            proof {
                assert(observed(items@, cap, ms, i0) == state@);
                assert(observed_fits(items@, cap, ms, i0) == (weight <= max_weight));
                assert forall|j: nat| j <= i0 && #[trigger] observed_fits(items@, cap, ms, j) implies range_cost(
                    items@,
                    observed(items@, cap, ms, j),
                    0,
                    n as int,
                ) <= best_cost by {}
                assert((best_solution is Some) == (exists|j: nat| j <= i0 && #[trigger] observed_fits(items@, cap, ms, j)));
            }
            tabu.blacklist(state.as_slice(), &mut blacklist);
            let first = best_move(items, &state, &blacklist, cost, weight, max_weight, true);
            let found = match first {
                Some(m) => Some(m),
                // every move is tabu: take the best one regardless
                None => best_move(items, &state, &blacklist, cost, weight, max_weight, false),
            };
            let ghost k1 = (iteration + 1) as nat;
            proof {
                assert(blacklist@ == tabu_blacklist(cfg.1, cfg.2, cfg.0));
            }
            if let Some(cost_fn) = found {
                tabu.insert(state.as_slice());
                let index_to_switch = cost_fn.2;
                let ghost before = state@;
                let flipped = !state[index_to_switch];
                state.set(index_to_switch, flipped);
                assert(state@ == flip(before, index_to_switch as int));
                assert(chosen_move(items@, cfg.0, cap, tabu_blacklist(cfg.1, cfg.2, cfg.0)) == Some(index_to_switch as int));
                assert(observed(items@, cap, ms, k1) == state@);
                proof {
                    lemma_flip(items@, before, index_to_switch as int);
                    lemma_range_le_suffix(items@, state@, 0);
                }
                if cost_fn.0 == u32::MAX && (best_solution.is_none() || best_cost < cost_fn.1) {
                    best_solution = Some(copy_state(&state));
                    best_cost = cost_fn.1;
                }
                proof {
                    assert(observed_fits(items@, cap, ms, k1) == (cost_fn.0 == u32::MAX));
                }
            } else {
                assert(chosen_move(items@, cfg.0, cap, tabu_blacklist(cfg.1, cfg.2, cfg.0)) is None);
                assert(tabu_config(items@, cap, ms, k1) == cfg);
            }
            proof {
                assert forall|j: nat| j <= k1 && #[trigger] observed_fits(items@, cap, ms, j) implies range_cost(
                    items@,
                    observed(items@, cap, ms, j),
                    0,
                    n as int,
                ) <= best_cost by {
                    if j < k1 {
                    }
                }
                assert((best_solution is Some) == (exists|j: nat| j <= k1 && #[trigger] observed_fits(items@, cap, ms, j))) by {
                    if observed_fits(items@, cap, ms, k1) {
                        assert(best_solution is Some);
                    }
                }
            }
            iteration = iteration + 1;
        }
        match best_solution {
            Some(b) => Solution { id: problem.id, size: problem.size, cost: best_cost, items: Some(b) },
            None => Solution::none(problem.id, problem.size),
        }
    }
}

} // verus!
