//! The search engine: breadth-first exploration of a `StateSpace` that
//! returns a minimum-length plan to a goal state, or reports that no goal
//! is reachable, together with statistics about the work done.

use vstd::prelude::*;
use std::collections::HashMap;
use std::collections::HashSet;
use crate::space::{
    Direction, StateSpace, apply_plan, valid_plan, reachable, reachable_non_goals, solvable,
    lemma_apply_plan_snoc, lemma_reachable_step, lemma_reachable_refl,
};
use crate::frontier::Frontier;

verus! {

broadcast use vstd::std_specs::hash::group_hash_axioms;

/// Statistics of one search call.
pub struct Stats {
    /// Number of states expanded during the search: states whose successors
    /// were generated. Each state is expanded at most once.
    pub expanded: usize,
    /// Wall-clock time spent in the search call.
    pub runtime: std::time::Duration,
}

impl Stats {
    /// Creates a new `Stats` instance with the given expanded states count
    /// and runtime.
    pub fn new(expanded: usize, runtime: std::time::Duration) -> (r: Stats)
        ensures
            r.expanded == expanded,
            r.runtime == runtime,
    {
        Stats { expanded, runtime }
    }
}

/// A reading of the monotonic clock. Relies on `std::time::Instant::now`;
/// nothing can be promised of a clock reading.
#[verifier::external_body]
fn instant_now() -> std::time::Instant {
    std::time::Instant::now()
}

/// The time that passed since `start` was taken. Relies on
/// `std::time::Instant::elapsed`; the result depends on the clock, so
/// nothing can be promised of it.
#[verifier::external_body]
fn instant_elapsed(start: &std::time::Instant) -> std::time::Duration {
    start.elapsed()
}

/// The clock type of the statistics collector. Relies on
/// `std::time::Instant`, carried through opaquely.
#[verifier::external_type_specification]
#[verifier::external_body]
pub struct ExInstant(std::time::Instant);

/// Well-formed search records. `m` maps each discovered state to its cost:
/// one for the initial state, and one more than its parent's cost for a
/// state discovered as a successor. `p` maps each discovered state except
/// the initial one to the parent it was discovered from and the action that
/// led to it.
pub open spec fn records_wf<S: StateSpace>(
    space: &S,
    init: u64,
    m: Map<u64, u128>,
    p: Map<u64, (u64, Direction)>,
) -> bool {
    &&& m.contains_key(init)
    &&& m[init] == 1
    &&& !p.contains_key(init)
    &&& forall|s: u64| #[trigger] m.contains_key(s) && s != init ==> p.contains_key(s)
    &&& forall|s: u64| #[trigger]
        p.contains_key(s) ==> m.contains_key(s) && m.contains_key(p[s].0) && space.transition(
            p[s].0,
            p[s].1,
        ) == Some(s) && m[p[s].0] + 1 == m[s]
}

/// Walks the predecessor records back from `state` to the initial state and
/// returns the recorded actions in execution order: the plan that the
/// records witness for `state`.
fn backtrack_moves<S: StateSpace>(
    space: &S,
    state: u64,
    predecessors: &HashMap<u64, (u64, Direction)>,
    Ghost(init): Ghost<u64>,
    Ghost(m): Ghost<Map<u64, u128>>,
) -> (path: Vec<Direction>)
    requires
        records_wf(space, init, m, predecessors@),
        m.contains_key(state),
    ensures
        apply_plan(space, init, path@) == Some(state),
        path@.len() == m[state] - 1,
{
    let mut path: Vec<Direction> = Vec::new();
    let mut cur: u64 = state;
    loop
        invariant
            records_wf(space, init, m, predecessors@),
            m.contains_key(cur),
            apply_plan(space, cur, path@) == Some(state),
            path@.len() == m[state] - m[cur],
        ensures
            m.contains_key(cur),
            !predecessors@.contains_key(cur),
            apply_plan(space, cur, path@) == Some(state),
            path@.len() == m[state] - m[cur],
        decreases m[cur],
    {
        match predecessors.get(&cur) {
            None => {
                break ;
            },
            Some(entry) => {
                let parent = entry.0;
                let action = entry.1;
                let ghost before = path@;
                path.insert(0, action);
                proof {
                    assert(predecessors@.contains_key(cur));
                    assert(path@[0] == action);
                    assert(path@.subrange(1, path@.len() as int) =~= before);
                    assert(space.transition(parent, action) == Some(cur));
                    assert(apply_plan(space, parent, path@) == apply_plan(space, cur, before));
                }
                cur = parent;
            },
        }
    }
    proof {
        assert(cur == init);
    }
    path
}

/// Runs `plan` from `init` step by step and reports whether it is a valid
/// solution: every step legal and the final state a goal.
pub fn is_valid_plan<S: StateSpace>(space: &S, init: u64, plan: &Vec<Direction>) -> (r: bool)
    ensures
        r == valid_plan(space, init, plan@),
{
    let mut cur: u64 = init;
    let mut i: usize = 0;
    proof {
        assert(plan@.subrange(0, plan@.len() as int) =~= plan@);
    }
    while i < plan.len()
        invariant
            i <= plan@.len(),
            apply_plan(space, init, plan@) == apply_plan(
                space,
                cur,
                plan@.subrange(i as int, plan@.len() as int),
            ),
        decreases plan@.len() - i,
    {
        let ghost suffix = plan@.subrange(i as int, plan@.len() as int);
        proof {
            assert(suffix[0] == plan@[i as int]);
            assert(suffix.subrange(1, suffix.len() as int) =~= plan@.subrange(
                i + 1,
                plan@.len() as int,
            ));
        }
        match space.apply(cur, plan[i]) {
            Some(t) => {
                cur = t;
                i = i + 1;
            },
            None => {
                return false;
            },
        }
    }
    proof {
        assert(plan@.subrange(i as int, plan@.len() as int) =~= Seq::<Direction>::empty());
    }
    space.is_goal(cur)
}

/// Whether the search may stop at `state`: the goal predicate holds there.
fn check_end_search<S: StateSpace>(space: &S, state: u64) -> (r: bool)
    ensures
        r == space.goal(state),
{
    space.is_goal(state)
}

/// Some entry of the frontier holds the state `x`.
spec fn in_frontier(f: Seq<(u64, u64)>, x: u64) -> bool {
    exists|i: int| 0 <= i < f.len() && (#[trigger] f[i]).0 == x
}

/// Every frontier entry names a recorded state and carries priority one.
spec fn frontier_recorded(m: Map<u64, u128>, f: Seq<(u64, u64)>) -> bool {
    forall|i: int| 0 <= i < f.len() ==> m.contains_key((#[trigger] f[i]).0) && f[i].1 == 1
}

/// Recorded costs never decrease along the frontier: older entries are at
/// least as cheap as younger ones.
spec fn frontier_sorted(m: Map<u64, u128>, f: Seq<(u64, u64)>) -> bool {
    forall|i: int, j: int|
        0 <= i <= j < f.len() ==> m[(#[trigger] f[i]).0] <= m[(#[trigger] f[j]).0]
}

/// The frontier spans at most two consecutive cost layers.
spec fn frontier_span(m: Map<u64, u128>, f: Seq<(u64, u64)>) -> bool {
    forall|i: int, j: int|
        0 <= i < f.len() && 0 <= j < f.len() ==> m[(#[trigger] f[j]).0] <= m[(#[trigger] f[i]).0]
            + 1
}

/// An expanded state costs no more than any state still on the frontier.
spec fn expanded_before_frontier(m: Map<u64, u128>, e: Set<u64>, f: Seq<(u64, u64)>) -> bool {
    forall|x: u64, i: int|
        #[trigger] e.contains(x) && 0 <= i < f.len() ==> m[x] <= m[(#[trigger] f[i]).0]
}

/// Every legal successor of an expanded state is recorded, at most one cost
/// layer after its parent.
spec fn expanded_closed<S: StateSpace>(space: &S, m: Map<u64, u128>, e: Set<u64>) -> bool {
    forall|x: u64, a: Direction|
        #[trigger] e.contains(x) && (#[trigger] space.transition(x, a)) is Some ==> m.contains_key(
            space.transition(x, a)->Some_0,
        ) && m[space.transition(x, a)->Some_0] <= m[x] + 1
}

/// Every recorded state was expanded or still waits on the frontier.
spec fn records_covered(m: Map<u64, u128>, e: Set<u64>, f: Seq<(u64, u64)>) -> bool {
    forall|x: u64| #[trigger] m.contains_key(x) ==> e.contains(x) || in_frontier(f, x)
}

/// Recorded costs are positive and bounded by the number of records.
spec fn costs_bounded(m: Map<u64, u128>) -> bool {
    forall|x: u64| #[trigger] m.contains_key(x) ==> 1 <= m[x] <= m.dom().len()
}

/// No recorded state satisfies the goal predicate.
spec fn no_goal_recorded<S: StateSpace>(space: &S, m: Map<u64, u128>) -> bool {
    forall|x: u64| #[trigger] m.contains_key(x) ==> !space.goal(x)
}

/// Every recorded state is reachable from the initial state.
spec fn all_reachable<S: StateSpace>(space: &S, init: u64, m: Map<u64, u128>) -> bool {
    forall|x: u64| #[trigger] m.contains_key(x) ==> reachable(space, init, x)
}

/// The invariant of the main search loop, over the cost records `m`, the
/// predecessor records `p`, the expanded set `e` and the frontier `f`.
spec fn search_inv<S: StateSpace>(
    space: &S,
    init: u64,
    m: Map<u64, u128>,
    p: Map<u64, (u64, Direction)>,
    e: Set<u64>,
    f: Seq<(u64, u64)>,
) -> bool {
    &&& records_wf(space, init, m, p)
    &&& no_goal_recorded(space, m)
    &&& all_reachable(space, init, m)
    &&& costs_bounded(m)
    &&& forall|x: u64| #[trigger] e.contains(x) ==> m.contains_key(x)
    &&& frontier_recorded(m, f)
    &&& records_covered(m, e, f)
    &&& frontier_sorted(m, f)
    &&& frontier_span(m, f)
    &&& expanded_before_frontier(m, e, f)
    &&& expanded_closed(space, m, e)
}

/// The set of all `u64` states is finite, with one element per value.
proof fn lemma_u64_universe()
    ensures
        Set::<u64>::full().finite(),
        Set::<u64>::full().len() == u64::MAX as nat + 1,
{
    <u64 as vstd::set_lib::FiniteRange>::range_properties(0, u64::MAX);
    let r = <u64 as vstd::set_lib::FiniteRange>::range_set(0, u64::MAX);
    assert(!r.contains(u64::MAX));
    assert(Set::<u64>::full() =~= r.insert(u64::MAX));
}

/// The state reached by the first `k` steps of a plan.
spec fn plan_prefix_state<S: StateSpace>(
    space: &S,
    init: u64,
    plan: Seq<Direction>,
    k: int,
) -> Option<u64> {
    apply_plan(space, init, plan.subrange(0, k))
}

/// After `k` steps, `plan` stands on a state that is discovered but not yet
/// expanded, and whose recorded cost is at most `k + 1`.
spec fn blocked_at<S: StateSpace>(
    space: &S,
    init: u64,
    m: Map<u64, u128>,
    e: Set<u64>,
    plan: Seq<Direction>,
    k: int,
) -> bool {
    &&& 0 <= k <= plan.len()
    &&& plan_prefix_state(space, init, plan, k) is Some
    &&& m.contains_key(plan_prefix_state(space, init, plan, k)->Some_0)
    &&& !e.contains(plan_prefix_state(space, init, plan, k)->Some_0)
    &&& m[plan_prefix_state(space, init, plan, k)->Some_0] <= k + 1
}

/// Any legal plan from the initial state either ends on an expanded state of
/// cost at most one more than its length, or passes through a discovered but
/// not yet expanded state early enough for its recorded cost.
proof fn lemma_plan_blocked<S: StateSpace>(
    space: &S,
    init: u64,
    m: Map<u64, u128>,
    e: Set<u64>,
    plan: Seq<Direction>,
    s: u64,
)
    requires
        m.contains_key(init),
        m[init] == 1,
        expanded_closed(space, m, e),
        forall|x: u64| #[trigger] e.contains(x) ==> m.contains_key(x),
        apply_plan(space, init, plan) == Some(s),
    ensures
        (e.contains(s) && m.contains_key(s) && m[s] <= plan.len() + 1) || exists|k: int|
            blocked_at(space, init, m, e, plan, k),
    decreases plan.len(),
{
    if plan.len() == 0 {
        assert(s == init);
        if !e.contains(init) {
            assert(plan.subrange(0, 0) =~= plan);
            assert(blocked_at(space, init, m, e, plan, 0));
        }
    } else {
        let n = plan.len() as int;
        let q = plan.subrange(0, n - 1);
        let a = plan[n - 1];
        assert(plan =~= q.push(a));
        lemma_apply_plan_snoc(space, init, q, a);
        let t = apply_plan(space, init, q)->Some_0;
        assert(apply_plan(space, init, q) == Some(t));
        assert(space.transition(t, a) == Some(s));
        lemma_plan_blocked(space, init, m, e, q, t);
        if e.contains(t) && m.contains_key(t) && m[t] <= q.len() + 1 {
            assert(m.contains_key(s) && m[s] <= m[t] + 1);
            if !e.contains(s) {
                assert(plan.subrange(0, n) =~= plan);
                assert(blocked_at(space, init, m, e, plan, n));
            }
        } else {
            let k = choose|k: int| blocked_at(space, init, m, e, q, k);
            assert(q.subrange(0, k) =~= plan.subrange(0, k));
            assert(blocked_at(space, init, m, e, plan, k));
        }
    }
}

/// When the search pops the front of the frontier, its recorded cost is a
/// lower bound on the length of every valid plan.
proof fn lemma_pop_lower_bound<S: StateSpace>(
    space: &S,
    init: u64,
    m: Map<u64, u128>,
    e: Set<u64>,
    f: Seq<(u64, u64)>,
)
    requires
        m.contains_key(init),
        m[init] == 1,
        expanded_closed(space, m, e),
        forall|x: u64| #[trigger] e.contains(x) ==> m.contains_key(x),
        no_goal_recorded(space, m),
        records_covered(m, e, f),
        frontier_sorted(m, f),
        f.len() > 0,
    ensures
        forall|q: Seq<Direction>| #[trigger]
            valid_plan(space, init, q) ==> m[f[0].0] <= q.len(),
{
    let s = f[0].0;
    assert forall|q: Seq<Direction>| #[trigger] valid_plan(space, init, q) implies m[s]
        <= q.len() by {
        let g = apply_plan(space, init, q)->Some_0;
        assert(apply_plan(space, init, q) == Some(g));
        assert(space.goal(g));
        lemma_plan_blocked(space, init, m, e, q, g);
        if e.contains(g) && m.contains_key(g) && m[g] <= q.len() + 1 {
            assert(false);
        } else {
            let k = choose|k: int| blocked_at(space, init, m, e, q, k);
            let x = plan_prefix_state(space, init, q, k)->Some_0;
            if k == q.len() {
                assert(q.subrange(0, k) =~= q);
                assert(x == g);
                assert(false);
            }
            assert(in_frontier(f, x));
            let i = choose|i: int| 0 <= i < f.len() && (#[trigger] f[i]).0 == x;
            assert(m[s] <= m[f[i].0]);
            assert(m[x] <= k + 1);
            assert(m[s] <= q.len());
        }
    }
}

/// The fixed order in which actions are tried at every expansion.
spec fn direction_order(i: int) -> Direction {
    if i == 0 {
        Direction::Up
    } else if i == 1 {
        Direction::Right
    } else if i == 2 {
        Direction::Down
    } else {
        Direction::Left
    }
}

/// The `i`-th action of the fixed enumeration order.
fn direction_of(i: usize) -> (r: Direction)
    requires
        i < 4,
    ensures
        r == direction_order(i as int),
{
    if i == 0 {
        Direction::Up
    } else if i == 1 {
        Direction::Right
    } else if i == 2 {
        Direction::Down
    } else {
        Direction::Left
    }
}

/// The fixed enumeration order reaches every action.
proof fn lemma_direction_order_covers(a: Direction)
    ensures
        exists|i: int| 0 <= i < 4 && direction_order(i) == a,
{
    match a {
        Direction::Up => {
            assert(direction_order(0) == a);
        },
        Direction::Right => {
            assert(direction_order(1) == a);
        },
        Direction::Down => {
            assert(direction_order(2) == a);
        },
        Direction::Left => {
            assert(direction_order(3) == a);
        },
    }
}

/// A state of a shorter frontier is still on any extension of it.
proof fn lemma_in_frontier_extend(f1: Seq<(u64, u64)>, f2: Seq<(u64, u64)>, x: u64)
    requires
        f2.len() >= f1.len(),
        f2.subrange(0, f1.len() as int) == f1,
        in_frontier(f1, x),
    ensures
        in_frontier(f2, x),
{
    let i = choose|i: int| 0 <= i < f1.len() && (#[trigger] f1[i]).0 == x;
    assert(f2.subrange(0, f1.len() as int)[i] == f2[i]);
    assert((f2[i]).0 == x);
}

/// Expands one popped state: tries every action in the fixed order, records
/// and enqueues each newly discovered successor, and stops at once when a
/// successor satisfies the goal predicate, returning it.
#[verifier::rlimit(100)]
fn expand_state<S: StateSpace>(
    space: &S,
    s: u64,
    path_costs: &mut HashMap<u64, u128>,
    predecessors: &mut HashMap<u64, (u64, Direction)>,
    heap: &mut Frontier,
    Ghost(init): Ghost<u64>,
    Ghost(e): Ghost<Set<u64>>,
) -> (found: Option<u64>)
    requires
        records_wf(space, init, old(path_costs)@, old(predecessors)@),
        no_goal_recorded(space, old(path_costs)@),
        all_reachable(space, init, old(path_costs)@),
        costs_bounded(old(path_costs)@),
        forall|x: u64| #[trigger] e.contains(x) ==> old(path_costs)@.contains_key(x),
        frontier_recorded(old(path_costs)@, old(heap)@),
        forall|x: u64| #[trigger]
            old(path_costs)@.contains_key(x) ==> e.contains(x) || in_frontier(old(heap)@, x) || x
                == s,
        frontier_sorted(old(path_costs)@, old(heap)@),
        expanded_before_frontier(old(path_costs)@, e, old(heap)@),
        expanded_closed(space, old(path_costs)@, e),
        old(path_costs)@.contains_key(s),
        !e.contains(s),
        !space.goal(s),
        forall|x: u64| #[trigger] e.contains(x) ==> old(path_costs)@[x] <= old(path_costs)@[s],
        forall|i: int|
            0 <= i < old(heap)@.len() ==> old(path_costs)@[s] <= old(path_costs)@[(#[trigger] old(
                heap,
            )@[i]).0],
        forall|i: int|
            0 <= i < old(heap)@.len() ==> old(path_costs)@[(#[trigger] old(heap)@[i]).0] <= old(
                path_costs,
            )@[s] + 1,
    ensures
        records_wf(space, init, final(path_costs)@, final(predecessors)@),
        all_reachable(space, init, final(path_costs)@),
        forall|x: u64| #[trigger]
            old(path_costs)@.contains_key(x) ==> final(path_costs)@.contains_key(x)
                && final(path_costs)@[x] == old(path_costs)@[x],
        match found {
            None => search_inv(
                space,
                init,
                final(path_costs)@,
                final(predecessors)@,
                e.insert(s),
                final(heap)@,
            ),
            Some(g) => space.goal(g) && final(path_costs)@.contains_key(g) && final(path_costs)@[g]
                == old(path_costs)@[s] + 1,
        },
{
    let cost: u128 = *path_costs.get(&s).unwrap();
    let ghost m0 = path_costs@;
    let ghost f0 = heap@;
    let mut idx: usize = 0;
    proof {
        assert(heap@.subrange(0, f0.len() as int) =~= f0);
    }
    while idx < 4
        invariant
            idx <= 4,
            m0 == old(path_costs)@,
            !e.contains(s),
            !space.goal(s),
            cost == m0[s],
            m0.contains_key(s),
            records_wf(space, init, m0, old(predecessors)@),
            costs_bounded(m0),
            forall|x: u64| #[trigger] e.contains(x) ==> m0.contains_key(x) && m0[x] <= m0[s],
            frontier_recorded(m0, f0),
            frontier_sorted(m0, f0),
            forall|x: u64| #[trigger]
                m0.contains_key(x) ==> e.contains(x) || in_frontier(f0, x) || x == s,
            forall|i: int| 0 <= i < f0.len() ==> m0[s] <= m0[(#[trigger] f0[i]).0],
            forall|i: int| 0 <= i < f0.len() ==> m0[(#[trigger] f0[i]).0] <= m0[s] + 1,
            expanded_closed(space, m0, e),
            no_goal_recorded(space, m0),
            records_wf(space, init, path_costs@, predecessors@),
            no_goal_recorded(space, path_costs@),
            all_reachable(space, init, path_costs@),
            costs_bounded(path_costs@),
            forall|x: u64| #[trigger]
                m0.contains_key(x) ==> path_costs@.contains_key(x) && path_costs@[x] == m0[x],
            forall|x: u64| #[trigger]
                path_costs@.contains_key(x) && !m0.contains_key(x) ==> path_costs@[x] == m0[s] + 1
                    && in_frontier(heap@, x),
            heap@.len() >= f0.len(),
            heap@.subrange(0, f0.len() as int) == f0,
            forall|i: int|
                f0.len() <= i < heap@.len() ==> (#[trigger] heap@[i]).1 == 1
                    && path_costs@.contains_key(heap@[i].0) && path_costs@[heap@[i].0] == m0[s] + 1,
            forall|j: int|
                0 <= j < idx && (space.transition(s, #[trigger] direction_order(j))) is Some
                    ==> path_costs@.contains_key(space.transition(s, direction_order(j))->Some_0)
                    && path_costs@[space.transition(s, direction_order(j))->Some_0] <= m0[s] + 1,
        decreases 4 - idx,
    {
        let a = direction_of(idx);
        match space.apply(s, a) {
            None => {},
            Some(t) => {
                let ghost m1 = path_costs@;
                let ghost f1 = heap@;
                proof {
                    lemma_u64_universe();
                    assert(m1.dom().subset_of(Set::<u64>::full()));
                    vstd::set_lib::lemma_len_subset(m1.dom(), Set::<u64>::full());
                    if m1.contains_key(t) {
                        if m0.contains_key(t) {
                            if e.contains(t) {
                                assert(m1[t] <= m0[s]);
                            } else if in_frontier(f0, t) {
                                let i = choose|i: int|
                                    0 <= i < f0.len() && (#[trigger] f0[i]).0 == t;
                                assert(m1[t] <= m0[s] + 1);
                            } else {
                                assert(t == s);
                            }
                        }
                        assert(m1[t] <= m0[s] + 1);
                    }
                }
                let record = match path_costs.get(&t) {
                    None => true,
                    Some(c) => cost + 1 < *c,
                };
                proof {
                    assert(record == !m1.contains_key(t));
                }
                if record {
                    path_costs.insert(t, cost + 1);
                    predecessors.insert(t, (s, a));
                    heap.insert(t, 1);
                    proof {
                        assert(t != init);
                        lemma_reachable_step(space, init, s, a, t);
                        assert(m1.dom().subset_of(path_costs@.dom()));
                        vstd::set_lib::lemma_len_subset(m1.dom(), path_costs@.dom());
                        assert(path_costs@.dom() =~= m1.dom().insert(t));
                        assert(path_costs@.dom().len() == m1.dom().len() + 1);
                        assert(heap@.subrange(0, f1.len() as int) =~= f1);
                        assert(heap@.subrange(0, f0.len() as int) =~= f1.subrange(
                            0,
                            f0.len() as int,
                        ));
                        assert(in_frontier(heap@, t)) by {
                            assert((heap@[heap@.len() - 1]).0 == t);
                        }
                        assert forall|x: u64| #[trigger]
                            path_costs@.contains_key(x) && !m0.contains_key(x) implies path_costs@[x]
                            == m0[s] + 1 && in_frontier(heap@, x) by {
                            if x != t {
                                lemma_in_frontier_extend(f1, heap@, x);
                            }
                        }
                    }
                }
                if space.is_goal(t) {
                    proof {
                        assert(record);
                        assert(path_costs@[t] == m0[s] + 1);
                        assert forall|x: u64| #[trigger]
                            m0.contains_key(x) implies path_costs@.contains_key(x)
                            && path_costs@[x] == m0[x] by {}
                    }
                    return Some(t);
                }
                proof {
                    if !record {
                        assert(path_costs@.contains_key(t) && path_costs@[t] <= m0[s] + 1);
                    }
                }
            },
        }
        idx = idx + 1;
    }
    proof {
        let m2 = path_costs@;
        let f2 = heap@;
        let e2 = e.insert(s);
        assert forall|x: u64, a: Direction| #[trigger]
            e2.contains(x) && (#[trigger] space.transition(x, a)) is Some implies m2.contains_key(
            space.transition(x, a)->Some_0,
        ) && m2[space.transition(x, a)->Some_0] <= m2[x] + 1 by {
            if x == s {
                lemma_direction_order_covers(a);
                let j = choose|j: int| 0 <= j < 4 && direction_order(j) == a;
                assert((space.transition(s, direction_order(j))) is Some);
            } else {
                assert(e.contains(x));
                assert(m0.contains_key(space.transition(x, a)->Some_0));
            }
        }
        assert forall|i: int, j: int| 0 <= i <= j < f2.len() implies m2[(#[trigger] f2[i]).0]
            <= m2[(#[trigger] f2[j]).0] by {
            if i < f0.len() {
                assert(f2[i] == f2.subrange(0, f0.len() as int)[i]);
                assert(m2[f2[i].0] == m0[f0[i].0]);
            }
            if j < f0.len() {
                assert(f2[j] == f2.subrange(0, f0.len() as int)[j]);
                assert(m2[f2[j].0] == m0[f0[j].0]);
            }
        }
        assert forall|i: int, j: int|
            0 <= i < f2.len() && 0 <= j < f2.len() implies m2[(#[trigger] f2[j]).0]
            <= m2[(#[trigger] f2[i]).0] + 1 by {
            if i < f0.len() {
                assert(f2[i] == f2.subrange(0, f0.len() as int)[i]);
                assert(m2[f2[i].0] == m0[f0[i].0]);
                assert(m0[s] <= m0[f0[i].0]);
            }
            if j < f0.len() {
                assert(f2[j] == f2.subrange(0, f0.len() as int)[j]);
                assert(m2[f2[j].0] == m0[f0[j].0]);
                assert(m0[f0[j].0] <= m0[s] + 1);
            }
        }
        assert forall|x: u64, i: int| #[trigger]
            e2.contains(x) && 0 <= i < f2.len() implies m2[x] <= m2[(#[trigger] f2[i]).0] by {
            if i < f0.len() {
                assert(f2[i] == f2.subrange(0, f0.len() as int)[i]);
                assert(m2[f2[i].0] == m0[f0[i].0]);
                assert(m0[s] <= m0[f0[i].0]);
            }
            if x == s {
            } else {
                assert(e.contains(x));
                assert(m0[x] <= m0[s]);
            }
        }
        assert forall|x: u64| #[trigger] m2.contains_key(x) implies e2.contains(x) || in_frontier(
            f2,
            x,
        ) by {
            if m0.contains_key(x) {
                if in_frontier(f0, x) {
                    lemma_in_frontier_extend(f0, f2, x);
                }
            }
        }
        assert forall|i: int| 0 <= i < f2.len() implies m2.contains_key((#[trigger] f2[i]).0)
            && f2[i].1 == 1 by {
            if i < f0.len() {
                assert(f2[i] == f2.subrange(0, f0.len() as int)[i]);
            }
        }
    }
    None
}

/// Facts about the frontier after its front entry is popped: the remaining
/// entries keep their order properties, and the popped state is a minimum
/// whose cost every remaining entry exceeds by at most one.
proof fn lemma_frontier_shift(m: Map<u64, u128>, e: Set<u64>, f0: Seq<(u64, u64)>)
    requires
        frontier_recorded(m, f0),
        frontier_sorted(m, f0),
        frontier_span(m, f0),
        expanded_before_frontier(m, e, f0),
        f0.len() > 0,
    ensures
        frontier_recorded(m, f0.remove(0)),
        frontier_sorted(m, f0.remove(0)),
        frontier_span(m, f0.remove(0)),
        expanded_before_frontier(m, e, f0.remove(0)),
        forall|i: int|
            0 <= i < f0.remove(0).len() ==> m[f0[0].0] <= m[(#[trigger] f0.remove(0)[i]).0] && m[(
            #[trigger] f0.remove(0)[i]).0] <= m[f0[0].0] + 1,
        forall|x: u64|
            #[trigger] in_frontier(f0, x) ==> x == f0[0].0 || in_frontier(f0.remove(0), x),
{
    let f1 = f0.remove(0);
    assert(f1 =~= f0.subrange(1, f0.len() as int));
    assert(forall|i: int| 0 <= i < f1.len() ==> #[trigger] f1[i] == f0[i + 1]);
    assert forall|x: u64| #[trigger]
        in_frontier(f0, x) implies x == f0[0].0 || in_frontier(f1, x) by {
        let i = choose|i: int| 0 <= i < f0.len() && (#[trigger] f0[i]).0 == x;
        if i > 0 {
            assert(f1[i - 1].0 == x);
        }
    }
}

/// `n` counts the members of some set of distinct reachable non-goal
/// states: an expansion count never counts a state twice, nor a state the
/// search could not have discovered.
pub open spec fn counts_distinct_states<S: StateSpace>(space: &S, init: u64, n: nat) -> bool {
    exists|es: Set<u64>|
        {
            &&& #[trigger] es.len() == n
            &&& es.finite()
            &&& forall|x: u64| #[trigger] es.contains(x) ==> reachable(space, init, x)
                && !space.goal(x)
        }
}

/// Breadth-first search for a shortest plan from `init` to a goal state.
///
/// Seeds the frontier with the initial state, then repeatedly pops the
/// minimum-priority state, discards it when already expanded, and otherwise
/// generates its successors in the fixed action order, recording cost and
/// predecessor for each state on first discovery and stopping as soon as a
/// generated successor satisfies the goal predicate.
///
/// Returns the pair of the outcome and the statistics of the call:
/// `Some(path)` holds a valid plan no longer than any valid plan, and
/// `None` means no goal state is reachable, in which case every reachable
/// non-goal state was expanded exactly once.
pub fn search<S: StateSpace>(space: &S, init: u64) -> (r: (Option<Vec<Direction>>, Stats))
    ensures
        match r.0 {
            Some(path) => valid_plan(space, init, path@) && forall|q: Seq<Direction>| #[trigger]
                valid_plan(space, init, q) ==> path@.len() <= q.len(),
            None => !solvable(space, init) && reachable_non_goals(space, init).finite()
                && r.1.expanded == reachable_non_goals(space, init).len(),
        },
        space.goal(init) ==> (r.0 matches Some(path) && path@.len() == 0 && r.1.expanded == 0),
        counts_distinct_states(space, init, r.1.expanded as nat),
{
    let start = instant_now();
    if check_end_search(space, init) {
        let runtime = instant_elapsed(&start);
        proof {
            let es = Set::<u64>::empty();
            assert(es.len() == 0nat && es.finite() && forall|x: u64| #[trigger]
                es.contains(x) ==> reachable(space, init, x) && !space.goal(x));
        }
        return (Some(Vec::new()), Stats::new(0, runtime));
    }
    let mut heap = Frontier::new();
    let mut path_costs: HashMap<u64, u128> = HashMap::new();
    let mut predecessors: HashMap<u64, (u64, Direction)> = HashMap::new();
    let mut expanded: HashSet<u64> = HashSet::new();

    heap.insert(init, 1);
    path_costs.insert(init, 1);
    proof {
        lemma_u64_universe();
        lemma_reachable_refl(space, init);
        assert(path_costs@.dom() =~= Set::<u64>::empty().insert(init));
        assert(heap@[0].0 == init && heap@[0].1 == 1);
        assert(in_frontier(heap@, init));
    }
    while !heap.is_empty()
        invariant
            search_inv(space, init, path_costs@, predecessors@, expanded@, heap@),
            !space.goal(init),
            expanded@.finite(),
            expanded@.len() <= Set::<u64>::full().len(),
            Set::<u64>::full().finite(),
        decreases Set::<u64>::full().len() - expanded@.len(), heap@.len(),
    {
        let ghost f0 = heap@;
        let ghost m0 = path_costs@;
        let ghost e0 = expanded@;
        let popped = heap.pop_min();
        let s = popped.unwrap();
        proof {
            let i = choose|i: int|
                {
                    &&& 0 <= i < f0.len()
                    &&& popped == Some((#[trigger] f0[i]).0)
                    &&& heap@ == f0.remove(i)
                    &&& forall|j: int| 0 <= j < f0.len() ==> f0[i].1 <= (#[trigger] f0[j]).1
                    &&& forall|j: int| 0 <= j < i ==> f0[i].1 < (#[trigger] f0[j]).1
                };
            if i != 0 {
                assert(f0[i].1 < f0[0].1);
                assert(f0[i].1 == 1 && f0[0].1 == 1);
            }
            assert(s == f0[0].0);
            assert(heap@ == f0.remove(0));
            lemma_frontier_shift(m0, e0, f0);
        }
        if expanded.contains(&s) {
            proof {
                assert forall|x: u64| #[trigger]
                    path_costs@.contains_key(x) implies expanded@.contains(x) || in_frontier(
                    heap@,
                    x,
                ) by {
                    if !expanded@.contains(x) {
                        assert(in_frontier(f0, x));
                    }
                }
            }
            continue ;
        }
        // A goal state is never recorded: the search returns the moment one
        // is generated, so a popped state cannot be a goal. The check is the
        // documented step of the loop, and this exit is proved unreachable.
        if check_end_search(space, s) {
            proof {
                assert(path_costs@.contains_key(s));
                assert(false);
            }
            let runtime = instant_elapsed(&start);
            return (Some(Vec::new()), Stats::new(expanded.len(), runtime));
        }
        let ghost lower = m0[s];
        proof {
            lemma_pop_lower_bound(space, init, m0, e0, f0);
        }
        let found = expand_state(
            space,
            s,
            &mut path_costs,
            &mut predecessors,
            &mut heap,
            Ghost(init),
            Ghost(e0),
        );
        expanded.insert(s);
        proof {
            assert(expanded@ == e0.insert(s));
            assert(expanded@.subset_of(Set::<u64>::full()));
            vstd::set_lib::lemma_len_subset(expanded@, Set::<u64>::full());
        }
        match found {
            None => {},
            Some(g) => {
                let path = backtrack_moves(
                    space,
                    g,
                    &predecessors,
                    Ghost(init),
                    Ghost(path_costs@),
                );
                let runtime = instant_elapsed(&start);
                let n = expanded.len();
                proof {
                    assert(path@.len() == lower);
                    assert(valid_plan(space, init, path@));
                    assert forall|x: u64| #[trigger]
                        expanded@.contains(x) implies reachable(space, init, x) && !space.goal(
                        x,
                    ) by {
                        if x != s {
                            assert(e0.contains(x));
                            assert(m0.contains_key(x));
                        }
                    }
                    assert(counts_distinct_states(space, init, n as nat));
                }
                return (Some(path), Stats::new(n, runtime));
            },
        }
    }
    let runtime = instant_elapsed(&start);
    let n = expanded.len();
    proof {
        let rng = reachable_non_goals(space, init);
        assert forall|x: u64| #[trigger] rng.contains(x) implies expanded@.contains(x) by {
            let plan = choose|plan: Seq<Direction>| apply_plan(space, init, plan) == Some(x);
            lemma_plan_blocked(space, init, path_costs@, expanded@, plan, x);
            if !expanded@.contains(x) {
                let k = choose|k: int| blocked_at(space, init, path_costs@, expanded@, plan, k);
                let y = plan_prefix_state(space, init, plan, k)->Some_0;
                assert(path_costs@.contains_key(y) && !expanded@.contains(y));
                assert(in_frontier(heap@, y));
                let i = choose|i: int| 0 <= i < heap@.len() && (#[trigger] heap@[i]).0 == y;
                assert(false);
            }
        }
        assert forall|x: u64| #[trigger] expanded@.contains(x) implies rng.contains(x) by {
            assert(path_costs@.contains_key(x));
            assert(reachable(space, init, x) && !space.goal(x));
        }
        assert(expanded@ =~= rng);
        assert(!solvable(space, init)) by {
            if solvable(space, init) {
                let q = choose|q: Seq<Direction>| valid_plan(space, init, q);
                let g = apply_plan(space, init, q)->Some_0;
                lemma_plan_blocked(space, init, path_costs@, expanded@, q, g);
                if expanded@.contains(g) {
                    assert(path_costs@.contains_key(g));
                    assert(false);
                } else {
                    let k = choose|k: int|
                        blocked_at(space, init, path_costs@, expanded@, q, k);
                    let y = plan_prefix_state(space, init, q, k)->Some_0;
                    assert(in_frontier(heap@, y));
                    let i = choose|i: int| 0 <= i < heap@.len() && (#[trigger] heap@[i]).0 == y;
                    assert(false);
                }
            }
        }
        assert(counts_distinct_states(space, init, n as nat));
    }
    (None, Stats::new(n, runtime))
}

/// Two optimal outcomes agree on length: any two valid plans that are both
/// no longer than every valid plan have the same length. With the contract
/// of `search`, the length of a returned plan is therefore a function of
/// the space and the initial state alone, the same on every call.
pub proof fn lemma_optimal_length_unique<S: StateSpace>(
    space: &S,
    init: u64,
    p1: Seq<Direction>,
    p2: Seq<Direction>,
)
    requires
        valid_plan(space, init, p1),
        valid_plan(space, init, p2),
        forall|q: Seq<Direction>| #[trigger] valid_plan(space, init, q) ==> p1.len() <= q.len(),
        forall|q: Seq<Direction>| #[trigger] valid_plan(space, init, q) ==> p2.len() <= q.len(),
    ensures
        p1.len() == p2.len(),
{
    assert(p1.len() <= p2.len());
    assert(p2.len() <= p1.len());
}

} // verus!
