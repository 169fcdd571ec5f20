//! Single-agent state-space search: given an initial state, a transition
//! function and a goal predicate, find a minimum-length sequence of actions
//! that reaches a goal state, by breadth-first exploration of the space.

pub mod space;
pub mod frontier;
pub mod grid;
pub mod search;
