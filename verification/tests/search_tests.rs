use pathsearch::grid::GridSpace;
use pathsearch::search::{is_valid_plan, search, Stats};
use pathsearch::space::Direction;

fn open_grid(width: u64, height: u64, goal_cell: u64) -> GridSpace {
    GridSpace::new(width, height, goal_cell, Vec::new())
}

fn walled_grid(width: u64, height: u64, goal_cell: u64, walls: &[u64]) -> GridSpace {
    GridSpace::new(width, height, goal_cell, walls.to_vec())
}

/// The instances used by `test_search`: the known optimal cost, the grid,
/// and the initial cell.
fn instances() -> Vec<(u64, GridSpace, u64)> {
    vec![
        (2, open_grid(3, 1, 2), 0),
        (0, open_grid(1, 1, 0), 0),
        (4, open_grid(5, 1, 0), 4),
        (4, open_grid(3, 3, 8), 0),
        (6, open_grid(4, 4, 15), 0),
        (4, open_grid(5, 5, 0), 12),
        (2, open_grid(2, 2, 2), 1),
        (9, open_grid(10, 1, 9), 0),
        (9, open_grid(1, 10, 9), 0),
        (4, open_grid(6, 5, 27), 3),
        (6, open_grid(7, 7, 0), 24),
        (5, open_grid(3, 4, 0), 11),
        (8, open_grid(8, 2, 8), 7),
        (10, open_grid(9, 3, 26), 0),
        (4, walled_grid(3, 3, 8, &[4]), 0),
        (4, walled_grid(3, 3, 2, &[1]), 0),
        (4, open_grid(5, 5, 22), 2),
        (8, open_grid(2, 8, 15), 0),
        (10, open_grid(6, 6, 0), 35),
        (3, walled_grid(4, 4, 3, &[5, 6]), 0),
    ]
}

#[test]
fn test_search() {
    // validates that search does return the optimal plan on the first 20 instances

    for (expected_cost, space, init) in &instances()[0..20] {
        let (path, _stats) = search(space, *init);
        let path = path.expect("no plan");
        assert!(is_valid_plan(space, *init, &path));
        assert_eq!(path.len(), *expected_cost as usize);
    }
}

#[test]
fn immediate_termination_on_goal_start() {
    let space = open_grid(3, 3, 4);
    let (path, stats) = search(&space, 4);
    let path = path.expect("no plan");
    assert_eq!(path.len(), 0);
    assert_eq!(stats.expanded, 0);
}

#[test]
fn three_state_line_scenario() {
    // start, mid, goal on a straight line: a plan of two moves, and only
    // start and mid expanded, since the goal test short-circuits on
    // discovery of the goal.
    let space = open_grid(3, 1, 2);
    let (path, stats) = search(&space, 0);
    let path = path.expect("no plan");
    assert_eq!(path, vec![Direction::Right, Direction::Right]);
    assert_eq!(path.len(), 2);
    assert_eq!(stats.expanded, 2);
}

#[test]
fn search_is_idempotent() {
    let first_space = walled_grid(4, 4, 15, &[5]);
    let second_space = walled_grid(4, 4, 15, &[5]);
    let (path1, stats1) = search(&first_space, 0);
    let (path2, stats2) = search(&second_space, 0);
    assert_eq!(path1.expect("no plan"), path2.expect("no plan"));
    assert_eq!(stats1.expanded, stats2.expanded);
}

#[test]
fn exhaustion_reports_no_plan_and_counts_each_state_once() {
    // A wall cuts the line in two: the goal is unreachable, the search
    // reports that, and the expansion count is exactly the number of
    // distinct reachable non-goal states.
    let space = walled_grid(5, 1, 4, &[2]);
    let (path, stats) = search(&space, 0);
    assert!(path.is_none());
    assert_eq!(stats.expanded, 2);

    // A whole walled row: three reachable cells, each expanded once.
    let space = walled_grid(3, 3, 8, &[3, 4, 5]);
    let (path, stats) = search(&space, 0);
    assert!(path.is_none());
    assert_eq!(stats.expanded, 3);
}

#[test]
fn detour_around_walls_is_optimal() {
    // The direct second row is blocked, so the shortest plan goes around.
    let space = walled_grid(3, 3, 5, &[4]);
    let (path, stats) = search(&space, 3);
    let path = path.expect("no plan");
    assert!(is_valid_plan(&space, 3, &path));
    assert_eq!(path.len(), 4);
    assert!(stats.expanded >= 4);
}

#[test]
fn tie_breaking_follows_enumeration_order() {
    // Two equally short plans exist; the search returns the one that reaches
    // the goal from the earliest expanded state, by the first action in the
    // fixed enumeration order that works.
    let space = open_grid(2, 2, 3);
    let (path, _stats) = search(&space, 0);
    assert_eq!(path.expect("no plan"), vec![Direction::Right, Direction::Down]);
}

#[test]
fn valid_plan_checks_every_step() {
    let space = open_grid(3, 1, 2);
    assert!(is_valid_plan(&space, 0, &vec![Direction::Right, Direction::Right]));
    // ends one short of the goal
    assert!(!is_valid_plan(&space, 0, &vec![Direction::Right]));
    // walks off the grid
    assert!(!is_valid_plan(&space, 0, &vec![Direction::Left, Direction::Right]));
    // walks into a wall
    let walled = walled_grid(3, 1, 2, &[1]);
    assert!(!is_valid_plan(&walled, 0, &vec![Direction::Right, Direction::Right]));
    // the empty plan solves only a goal start
    assert!(is_valid_plan(&space, 2, &Vec::new()));
    assert!(!is_valid_plan(&space, 0, &Vec::new()));
}

#[test]
fn stats_new_keeps_fields() {
    let stats = Stats::new(7, std::time::Duration::from_millis(3));
    assert_eq!(stats.expanded, 7);
    assert_eq!(stats.runtime, std::time::Duration::from_millis(3));
}
