use pathsearch::frontier::Frontier;
use pathsearch::grid::GridSpace;
use pathsearch::space::{Direction, StateSpace};

#[test]
fn frontier_pops_minimum_priority_first_in_first_out() {
    let mut frontier = Frontier::new();
    assert!(frontier.is_empty());
    frontier.insert(10, 2);
    frontier.insert(11, 1);
    frontier.insert(12, 2);
    frontier.insert(13, 1);
    assert!(!frontier.is_empty());
    // minimum priority first, ties by insertion order
    assert_eq!(frontier.pop_min(), Some(11));
    assert_eq!(frontier.pop_min(), Some(13));
    assert_eq!(frontier.pop_min(), Some(10));
    assert_eq!(frontier.pop_min(), Some(12));
    assert_eq!(frontier.pop_min(), None);
    assert!(frontier.is_empty());
}

#[test]
fn grid_moves_respect_borders_and_walls() {
    // 3 columns, 2 rows, a wall in the middle of the top row
    let space = GridSpace::new(3, 2, 5, vec![1]);
    // top-left corner: no up, no left, right enters the wall
    assert_eq!(space.apply(0, Direction::Up), None);
    assert_eq!(space.apply(0, Direction::Left), None);
    assert_eq!(space.apply(0, Direction::Right), None);
    assert_eq!(space.apply(0, Direction::Down), Some(3));
    // bottom-right corner: no down, no right
    assert_eq!(space.apply(5, Direction::Down), None);
    assert_eq!(space.apply(5, Direction::Right), None);
    assert_eq!(space.apply(5, Direction::Up), Some(2));
    assert_eq!(space.apply(5, Direction::Left), Some(4));
    // a state outside the grid has no legal moves
    assert_eq!(space.apply(6, Direction::Up), None);
}

#[test]
fn degenerate_grid_has_no_moves() {
    let empty = GridSpace::new(0, 5, 0, Vec::new());
    assert_eq!(empty.apply(0, Direction::Right), None);
    let flat = GridSpace::new(5, 0, 0, Vec::new());
    assert_eq!(flat.apply(0, Direction::Down), None);
}

#[test]
fn grid_goal_predicate_matches_goal_cell() {
    let space = GridSpace::new(4, 4, 9, Vec::new());
    assert!(space.is_goal(9));
    assert!(!space.is_goal(8));
}
