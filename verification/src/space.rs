//! The interface between the search engine and the puzzle domain it
//! explores: actions, the transition function, the goal predicate, and
//! what it means for a sequence of actions to solve an instance.

use vstd::prelude::*;

verus! {

/// A symbolic move of the search domain. The engine tries the four
/// directions in this fixed order at every expansion, which makes the
/// result deterministic when several equally short solutions exist.
#[derive(Clone, Copy, Debug, PartialEq, Eq, Structural)]
pub enum Direction {
    Up,
    Right,
    Down,
    Left,
}

/// A state space explored by the engine. States are identified by `u64`
/// values chosen by the domain; the engine treats them as opaque keys.
///
/// `transition` and `goal` are the mathematical description of the domain;
/// `apply` and `is_goal` are their executable counterparts, and every
/// implementation must prove that they agree.
pub trait StateSpace: Sized {
    /// The successor reached from `s` by `a`, or `None` when the move is
    /// illegal in `s`. A pure function of the state and the action.
    spec fn transition(&self, s: u64, a: Direction) -> Option<u64>;

    /// Whether `s` satisfies the goal predicate.
    spec fn goal(&self, s: u64) -> bool;

    /// Apply one action to a state.
    fn apply(&self, s: u64, a: Direction) -> (r: Option<u64>)
        ensures
            r == self.transition(s, a),
    ;

    /// Test a state against the goal predicate.
    fn is_goal(&self, s: u64) -> (r: bool)
        ensures
            r == self.goal(s),
    ;
}

/// The state reached by running `plan` from `s`, or `None` when some step
/// of the plan is illegal in the state where it is attempted.
pub open spec fn apply_plan<S: StateSpace>(space: &S, s: u64, plan: Seq<Direction>) -> Option<u64>
    decreases plan.len(),
{
    if plan.len() == 0 {
        Some(s)
    } else {
        match space.transition(s, plan[0]) {
            Some(t) => apply_plan(space, t, plan.subrange(1, plan.len() as int)),
            None => None,
        }
    }
}

/// A plan solves the instance `(space, s)` when every step is legal and
/// the state it ends in satisfies the goal predicate.
pub open spec fn valid_plan<S: StateSpace>(space: &S, s: u64, plan: Seq<Direction>) -> bool {
    match apply_plan(space, s, plan) {
        Some(t) => space.goal(t),
        None => false,
    }
}

/// `s` can be reached from `init` by some sequence of legal moves.
pub open spec fn reachable<S: StateSpace>(space: &S, init: u64, s: u64) -> bool {
    exists|plan: Seq<Direction>| apply_plan(space, init, plan) == Some(s)
}

/// The distinct non-goal states reachable from `init`.
pub open spec fn reachable_non_goals<S: StateSpace>(space: &S, init: u64) -> Set<u64> {
    Set::new(|s: u64| reachable(space, init, s) && !space.goal(s))
}

/// Some plan solves the instance `(space, init)`.
pub open spec fn solvable<S: StateSpace>(space: &S, init: u64) -> bool {
    exists|plan: Seq<Direction>| valid_plan(space, init, plan)
}

/// Running a plan extended by one action first runs the plan, then takes
/// the extra action from wherever the plan ended.
pub proof fn lemma_apply_plan_snoc<S: StateSpace>(
    space: &S,
    s: u64,
    plan: Seq<Direction>,
    a: Direction,
)
    ensures
        apply_plan(space, s, plan.push(a)) == (match apply_plan(space, s, plan) {
            Some(t) => space.transition(t, a),
            None => None::<u64>,
        }),
    decreases plan.len(),
{
    let ext = plan.push(a);
    if plan.len() == 0 {
        assert(ext[0] == a);
        assert(ext.subrange(1, ext.len() as int) =~= Seq::<Direction>::empty());
        match space.transition(s, a) {
            Some(t) => {
                assert(apply_plan(space, t, Seq::<Direction>::empty()) == Some(t));
                assert(apply_plan(space, s, ext) == Some(t));
            },
            None => {
                assert(apply_plan(space, s, ext) is None);
            },
        }
    } else {
        assert(ext[0] == plan[0]);
        match space.transition(s, plan[0]) {
            Some(t) => {
                let rest = plan.subrange(1, plan.len() as int);
                assert(ext.subrange(1, ext.len() as int) =~= rest.push(a));
                lemma_apply_plan_snoc(space, t, rest, a);
                assert(apply_plan(space, s, ext) == apply_plan(space, t, rest.push(a)));
                assert(apply_plan(space, s, plan) == apply_plan(space, t, rest));
            },
            None => {
                assert(apply_plan(space, s, ext) is None);
            },
        }
    }
}

/// A state reachable from `init` stays reachable after one more legal move.
pub proof fn lemma_reachable_step<S: StateSpace>(space: &S, init: u64, s: u64, a: Direction, t: u64)
    requires
        reachable(space, init, s),
        space.transition(s, a) == Some(t),
    ensures
        reachable(space, init, t),
{
    let plan = choose|plan: Seq<Direction>| apply_plan(space, init, plan) == Some(s);
    lemma_apply_plan_snoc(space, init, plan, a);
    assert(apply_plan(space, init, plan.push(a)) == Some(t));
}

/// The initial state is always reachable, by the empty plan.
pub proof fn lemma_reachable_refl<S: StateSpace>(space: &S, init: u64)
    ensures
        reachable(space, init, init),
{
    assert(apply_plan(space, init, Seq::<Direction>::empty()) == Some(init));
}

} // verus!
