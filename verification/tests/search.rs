use pathfinder::grid::{Grid, OutOfBounds};
use pathfinder::path_finder::{ConfigError, PathFinder, StepOutcome};
use pathfinder::point::{dist_sq, Point};
use pathfinder::state::{Node, Status, MAX_ITERATIONS};

fn grid_from_rows(rows: &[&str]) -> Grid {
    let height = rows.len();
    let width = rows[0].len();
    let mut solid = Vec::new();
    for row in rows {
        for cell in row.chars() {
            solid.push(cell == '#');
        }
    }
    Grid::generate(Point::new(width as i32, height as i32), &solid)
}

fn points(coordinates: &[(i32, i32)]) -> Vec<Point> {
    coordinates.iter().map(|&(x, y)| Point::new(x, y)).collect()
}

/// Steps until a terminal outcome; returns it with the number of calls made.
fn run(finder: &mut PathFinder) -> (StepOutcome, usize) {
    let mut calls = 0;
    loop {
        calls += 1;
        assert!(calls <= MAX_ITERATIONS + 1, "no terminal outcome within the cap");
        match finder.iterate() {
            StepOutcome::Running => {}
            outcome => return (outcome, calls),
        }
    }
}

fn node_at(finder: &PathFinder, x: i32, y: i32) -> Option<Node> {
    finder.get_node(&Point::new(x, y)).unwrap().copied()
}

#[test]
fn iteration_cap_is_250() {
    assert_eq!(MAX_ITERATIONS, 250);
}

#[test]
fn open_grid_reaches_goal() {
    let grid = Grid::generate(Point::new(5, 5), &vec![false; 25]);
    let mut finder = PathFinder::new(Point::new(0, 0), Point::new(4, 4), &grid).unwrap();
    let (outcome, calls) = run(&mut finder);
    match outcome {
        StepOutcome::Succeeded { iterations, path } => {
            assert!(iterations <= MAX_ITERATIONS);
            assert_eq!(path.first(), Some(&Point::new(0, 0)));
            assert_eq!(path.last(), Some(&Point::new(4, 4)));
            let moves = path.len() - 1;
            assert!(4 <= moves && moves <= 8);
        }
        _ => panic!("no path on an open grid"),
    }
    assert!(calls <= MAX_ITERATIONS);
    assert_eq!(finder.status(), Status::Succeeded);
}

#[test]
fn open_grid_takes_the_diagonal() {
    let grid = Grid::generate(Point::new(5, 5), &vec![false; 25]);
    let mut finder = PathFinder::new(Point::new(0, 0), Point::new(4, 4), &grid).unwrap();
    let (outcome, calls) = run(&mut finder);
    assert_eq!(
        outcome,
        StepOutcome::Succeeded {
            iterations: 6,
            path: points(&[(0, 0), (1, 1), (2, 2), (3, 3), (4, 4)]),
        }
    );
    assert_eq!(calls, 7);
    assert_eq!(
        finder.expanded(),
        &points(&[(0, 0), (1, 1), (2, 2), (3, 3), (3, 4), (4, 3), (4, 4)])
    );
}

#[test]
fn path_moves_between_adjacent_passable_cells() {
    let grid = grid_from_rows(&[".....", ".###.", ".#...", ".#.#.", "...#."]);
    let start = Point::new(0, 0);
    let end = Point::new(4, 4);
    let mut finder = PathFinder::new(start, end, &grid).unwrap();
    match run(&mut finder).0 {
        StepOutcome::Succeeded { path, .. } => {
            assert_eq!(path[0], start);
            assert_eq!(path[path.len() - 1], end);
            for step in path.windows(2) {
                let dx = (step[0].x - step[1].x).abs();
                let dy = (step[0].y - step[1].y).abs();
                assert!(dx <= 1 && dy <= 1 && (dx, dy) != (0, 0));
            }
            for pos in &path {
                assert_eq!(grid.get_tile(pos), Ok(pathfinder::grid::Tile::Empty));
            }
        }
        _ => panic!("the goal can be reached"),
    }
}

#[test]
fn full_height_wall_fails() {
    let grid = grid_from_rows(&["..#..", "..#..", "..#..", "..#..", "..#.."]);
    let mut finder = PathFinder::new(Point::new(0, 0), Point::new(4, 4), &grid).unwrap();
    let (outcome, calls) = run(&mut finder);
    assert_eq!(outcome, StepOutcome::Failed { iterations: 10 });
    assert_eq!(calls, 11);
    assert!(calls <= MAX_ITERATIONS);
    assert_eq!(finder.status(), Status::Failed);
    assert_eq!(
        finder.expanded(),
        &points(&[
            (0, 0), (1, 1), (1, 2), (1, 3), (1, 4), (0, 3), (0, 4), (0, 2), (0, 1), (1, 0)
        ])
    );
    assert!(finder.frontier().is_empty());
}

#[test]
fn full_width_wall_fails() {
    let grid = grid_from_rows(&[".....", ".....", "#####", ".....", "....."]);
    let mut finder = PathFinder::new(Point::new(0, 0), Point::new(4, 4), &grid).unwrap();
    let (outcome, calls) = run(&mut finder);
    assert_eq!(outcome, StepOutcome::Failed { iterations: 10 });
    assert_eq!(calls, 11);
    assert!(calls <= MAX_ITERATIONS);
    assert_eq!(
        finder.expanded(),
        &points(&[
            (0, 0), (1, 1), (2, 1), (3, 1), (4, 1), (3, 0), (4, 0), (2, 0), (0, 1), (1, 0)
        ])
    );
}

#[test]
fn wall_is_never_crossed_from_the_far_side() {
    let grid = grid_from_rows(&["..#..", "..#..", "..#..", "..#..", "..#.."]);
    let mut finder = PathFinder::new(Point::new(4, 0), Point::new(0, 4), &grid).unwrap();
    let (outcome, _) = run(&mut finder);
    assert!(matches!(outcome, StepOutcome::Failed { .. }));
    for pos in finder.expanded() {
        assert!(pos.x > 2);
    }
}

#[test]
fn iteration_cap_ends_the_search() {
    // The goal sits in a closed corner of a grid with far more than 250
    // reachable cells, and no full row or column is solid.
    let mut solid = vec![false; 40 * 40];
    for (x, y) in [(37, 37), (38, 37), (39, 37), (37, 38), (37, 39)] {
        solid[x + y * 40] = true;
    }
    let grid = Grid::generate(Point::new(40, 40), &solid);
    let mut finder = PathFinder::new(Point::new(0, 0), Point::new(39, 39), &grid).unwrap();
    for _ in 0..250 {
        assert_eq!(finder.iterate(), StepOutcome::Running);
    }
    assert_eq!(finder.iterations(), 250);
    assert_eq!(finder.status(), Status::Running);
    assert_eq!(finder.iterate(), StepOutcome::Failed { iterations: 251 });
    assert_eq!(finder.status(), Status::Failed);
    assert_eq!(finder.expanded().len(), 251);
    assert_eq!(finder.frontier().len(), 138);
}

#[test]
fn finished_search_repeats_its_outcome() {
    let grid = Grid::generate(Point::new(5, 5), &vec![false; 25]);
    let mut finder = PathFinder::new(Point::new(0, 0), Point::new(4, 4), &grid).unwrap();
    let (outcome, _) = run(&mut finder);
    let expanded = finder.expanded().clone();
    let frontier = finder.frontier().clone();
    assert_eq!(finder.iterate(), outcome);
    assert_eq!(finder.iterate(), outcome);
    assert_eq!(finder.expanded(), &expanded);
    assert_eq!(finder.frontier(), &frontier);

    let walled = grid_from_rows(&[".#.", ".#.", ".#."]);
    let mut finder = PathFinder::new(Point::new(0, 0), Point::new(2, 2), &walled).unwrap();
    let (outcome, _) = run(&mut finder);
    assert_eq!(outcome, StepOutcome::Failed { iterations: 3 });
    assert_eq!(finder.iterate(), StepOutcome::Failed { iterations: 3 });
}

#[test]
fn start_equal_to_goal_succeeds_at_once() {
    let grid = Grid::generate(Point::new(3, 3), &vec![false; 9]);
    let mut finder = PathFinder::new(Point::new(1, 1), Point::new(1, 1), &grid).unwrap();
    assert_eq!(
        finder.iterate(),
        StepOutcome::Succeeded { iterations: 0, path: points(&[(1, 1)]) }
    );
    assert_eq!(finder.expanded(), &points(&[(1, 1)]));
    assert!(finder.frontier().is_empty());
}

#[test]
fn single_cell_grid() {
    let grid = Grid::generate(Point::new(1, 1), &vec![false]);
    let mut finder = PathFinder::new(Point::new(0, 0), Point::new(0, 0), &grid).unwrap();
    assert_eq!(
        finder.iterate(),
        StepOutcome::Succeeded { iterations: 0, path: points(&[(0, 0)]) }
    );
}

#[test]
fn new_search_is_in_its_initial_state() {
    let grid = Grid::generate(Point::new(3, 3), &vec![false; 9]);
    let finder = PathFinder::new(Point::new(1, 1), Point::new(2, 2), &grid).unwrap();
    assert_eq!(finder.start(), Point::new(1, 1));
    assert_eq!(finder.end(), Point::new(2, 2));
    assert_eq!(finder.status(), Status::Running);
    assert_eq!(finder.iterations(), 0);
    assert_eq!(finder.frontier(), &points(&[(1, 1)]));
    assert!(finder.expanded().is_empty());
    assert_eq!(
        node_at(&finder, 1, 1),
        Some(Node { g_cost: 0, h_cost: 0, parent: None, open: true })
    );
    for (x, y) in [(0, 0), (1, 0), (2, 0), (0, 1), (2, 1), (0, 2), (1, 2), (2, 2)] {
        assert_eq!(node_at(&finder, x, y), None);
    }
}

#[test]
fn first_step_discovers_the_block_around_the_start() {
    let grid = Grid::generate(Point::new(3, 3), &vec![false; 9]);
    let mut finder = PathFinder::new(Point::new(1, 1), Point::new(2, 2), &grid).unwrap();
    assert_eq!(finder.iterate(), StepOutcome::Running);
    assert_eq!(finder.iterations(), 1);
    assert_eq!(finder.expanded(), &points(&[(1, 1)]));
    // Columns first, top to bottom within a column.
    assert_eq!(
        finder.frontier(),
        &points(&[(0, 0), (0, 1), (0, 2), (1, 0), (1, 2), (2, 0), (2, 1), (2, 2)])
    );
    let parent = Some(Point::new(1, 1));
    assert_eq!(
        node_at(&finder, 1, 1),
        Some(Node { g_cost: 0, h_cost: 0, parent: None, open: false })
    );
    assert_eq!(node_at(&finder, 0, 0), Some(Node { g_cost: 2, h_cost: 8, parent, open: true }));
    assert_eq!(node_at(&finder, 0, 1), Some(Node { g_cost: 1, h_cost: 5, parent, open: true }));
    assert_eq!(node_at(&finder, 0, 2), Some(Node { g_cost: 2, h_cost: 4, parent, open: true }));
    assert_eq!(node_at(&finder, 1, 0), Some(Node { g_cost: 1, h_cost: 5, parent, open: true }));
    assert_eq!(node_at(&finder, 1, 2), Some(Node { g_cost: 1, h_cost: 1, parent, open: true }));
    assert_eq!(node_at(&finder, 2, 0), Some(Node { g_cost: 2, h_cost: 4, parent, open: true }));
    assert_eq!(node_at(&finder, 2, 1), Some(Node { g_cost: 1, h_cost: 1, parent, open: true }));
    assert_eq!(node_at(&finder, 2, 2), Some(Node { g_cost: 2, h_cost: 0, parent, open: true }));
}

#[test]
fn f_cost_is_the_sum_of_both_costs() {
    let node = Node { g_cost: 3, h_cost: 13, parent: None, open: true };
    assert_eq!(node.f_cost(), 16);
    assert!(node.open());
    let closed = Node { g_cost: 0, h_cost: 0, parent: Some(Point::new(1, 2)), open: false };
    assert_eq!(closed.f_cost(), 0);
    assert!(!closed.open());
}

#[test]
fn ties_go_to_the_cell_discovered_first() {
    // After the first step (1, 2) and (2, 1) both have the least cost 2;
    // (1, 2) entered the frontier first.
    let grid = Grid::generate(Point::new(4, 4), &vec![false; 16]);
    let mut finder = PathFinder::new(Point::new(1, 1), Point::new(3, 3), &grid).unwrap();
    assert_eq!(finder.iterate(), StepOutcome::Running);
    let f = |x: i32, y: i32| node_at(&finder, x, y).unwrap().f_cost();
    assert_eq!(f(2, 2), 4);
    assert_eq!(f(1, 2), 6);
    assert_eq!(f(2, 1), 6);
    assert_eq!(finder.iterate(), StepOutcome::Running);
    assert_eq!(finder.expanded(), &points(&[(1, 1), (2, 2)]));
}

#[test]
fn solid_and_outside_cells_are_never_discovered() {
    let grid = grid_from_rows(&[".#.", "...", "#.."]);
    let mut finder = PathFinder::new(Point::new(0, 0), Point::new(2, 2), &grid).unwrap();
    assert_eq!(finder.iterate(), StepOutcome::Running);
    assert_eq!(finder.frontier(), &points(&[(0, 1), (1, 1)]));
    assert_eq!(node_at(&finder, 1, 0), None);
    run(&mut finder);
    assert_eq!(node_at(&finder, 1, 0), None);
    assert_eq!(node_at(&finder, 0, 2), None);
}

#[test]
fn cheaper_candidate_replaces_an_open_node() {
    let grid = grid_from_rows(&["..#", "..#", "..."]);
    let mut finder = PathFinder::new(Point::new(1, 2), Point::new(0, 0), &grid).unwrap();
    assert_eq!(finder.iterate(), StepOutcome::Running);
    assert_eq!(finder.iterate(), StepOutcome::Running);
    // Reached diagonally from (0, 1), which itself was reached diagonally.
    assert_eq!(
        node_at(&finder, 1, 0),
        Some(Node { g_cost: 4, h_cost: 1, parent: Some(Point::new(0, 1)), open: true })
    );
    let frontier = finder.frontier().clone();
    assert_eq!(finder.iterate(), StepOutcome::Running);
    // Two straight moves through (1, 1) are cheaper.
    assert_eq!(
        node_at(&finder, 1, 0),
        Some(Node { g_cost: 2, h_cost: 1, parent: Some(Point::new(1, 1)), open: true })
    );
    // The cell keeps its single place in the frontier.
    let occurrences = finder.frontier().iter().filter(|p| **p == Point::new(1, 0)).count();
    assert_eq!(occurrences, 1);
    assert!(frontier.contains(&Point::new(1, 0)));
    assert_eq!(
        finder.iterate(),
        StepOutcome::Succeeded { iterations: 3, path: points(&[(1, 2), (0, 1), (0, 0)]) }
    );
    assert_eq!(finder.expanded(), &points(&[(1, 2), (0, 1), (1, 1), (0, 0)]));
}

#[test]
fn costlier_candidate_leaves_an_open_node_alone() {
    // (0, 1) is first reached straight from the start with cost 1; the
    // later candidate through (1, 0) would cost 3.
    let grid = Grid::generate(Point::new(3, 3), &vec![false; 9]);
    let mut finder = PathFinder::new(Point::new(0, 0), Point::new(2, 0), &grid).unwrap();
    assert_eq!(finder.iterate(), StepOutcome::Running);
    let before = node_at(&finder, 0, 1);
    assert_eq!(
        before,
        Some(Node { g_cost: 1, h_cost: 5, parent: Some(Point::new(0, 0)), open: true })
    );
    assert_eq!(finder.iterate(), StepOutcome::Running);
    assert_eq!(finder.expanded(), &points(&[(0, 0), (1, 0)]));
    assert_eq!(node_at(&finder, 0, 1), before);
}

#[test]
fn expanded_cells_are_never_changed_again() {
    let grid = Grid::generate(Point::new(5, 5), &vec![false; 25]);
    let mut finder = PathFinder::new(Point::new(2, 2), Point::new(4, 0), &grid).unwrap();
    let mut seen: Vec<(Point, Node)> = Vec::new();
    loop {
        let outcome = finder.iterate();
        for (pos, node) in &seen {
            assert_eq!(finder.get_node(pos), Ok(Some(node)));
        }
        let last = *finder.expanded().last().unwrap();
        let node = *finder.get_node(&last).unwrap().unwrap();
        assert!(!node.open());
        seen.push((last, node));
        if outcome != StepOutcome::Running {
            break;
        }
    }
}

#[test]
fn cost_grows_by_one_or_two_per_move() {
    let grid = grid_from_rows(&[".....", ".###.", ".#...", ".#.#.", "...#."]);
    let start = Point::new(0, 0);
    let mut finder = PathFinder::new(start, Point::new(4, 4), &grid).unwrap();
    let mut checked = 0;
    loop {
        let outcome = finder.iterate();
        for y in 0..5 {
            for x in 0..5 {
                let pos = Point::new(x, y);
                let node = match finder.get_node(&pos).unwrap() {
                    Some(node) => *node,
                    None => continue,
                };
                if pos == start {
                    assert_eq!(node.g_cost, 0);
                    assert_eq!(node.parent, None);
                    continue;
                }
                let parent = node.parent.unwrap();
                let parent_node = *finder.get_node(&parent).unwrap().unwrap();
                assert!(!parent_node.open());
                let orthogonal = parent.x == pos.x || parent.y == pos.y;
                let expected = if orthogonal { 1 } else { 2 };
                assert_eq!(node.g_cost - parent_node.g_cost, expected);
                assert_eq!(dist_sq(&parent, &pos), expected);
                assert_eq!(node.h_cost, dist_sq(&pos, &Point::new(4, 4)));
                checked += 1;
            }
        }
        if outcome != StepOutcome::Running {
            break;
        }
    }
    assert!(checked > 0);
}

#[test]
fn orthogonal_and_diagonal_costs_after_the_first_expansion() {
    let grid = Grid::generate(Point::new(3, 3), &vec![false; 9]);
    let mut finder = PathFinder::new(Point::new(1, 1), Point::new(0, 0), &grid).unwrap();
    finder.iterate();
    for (x, y) in [(1, 0), (0, 1), (2, 1), (1, 2)] {
        assert_eq!(node_at(&finder, x, y).unwrap().g_cost, 1);
    }
    for (x, y) in [(0, 0), (2, 0), (0, 2), (2, 2)] {
        assert_eq!(node_at(&finder, x, y).unwrap().g_cost, 2);
    }
}

#[test]
fn lists_agree_with_membership_flags() {
    let grid = grid_from_rows(&[".....", ".###.", ".#...", ".#.#.", "...#."]);
    let mut finder = PathFinder::new(Point::new(0, 0), Point::new(4, 4), &grid).unwrap();
    loop {
        let outcome = finder.iterate();
        for y in 0..5 {
            for x in 0..5 {
                let pos = Point::new(x, y);
                let in_frontier = finder.frontier().iter().filter(|p| **p == pos).count();
                let in_expanded = finder.expanded().iter().filter(|p| **p == pos).count();
                match finder.get_node(&pos).unwrap() {
                    Some(node) if node.open() => assert_eq!((in_frontier, in_expanded), (1, 0)),
                    Some(_) => assert_eq!((in_frontier, in_expanded), (0, 1)),
                    None => assert_eq!((in_frontier, in_expanded), (0, 0)),
                }
            }
        }
        if outcome != StepOutcome::Running {
            break;
        }
    }
}

#[test]
fn two_runs_expand_the_same_cells() {
    let rows = [".....", ".###.", ".#...", ".#.#.", "...#."];
    let first_grid = grid_from_rows(&rows);
    let second_grid = grid_from_rows(&rows);
    let mut first = PathFinder::new(Point::new(0, 0), Point::new(4, 4), &first_grid).unwrap();
    let mut second = PathFinder::new(Point::new(0, 0), Point::new(4, 4), &second_grid).unwrap();
    loop {
        let a = first.iterate();
        let b = second.iterate();
        assert_eq!(a, b);
        assert_eq!(first.expanded(), second.expanded());
        assert_eq!(first.frontier(), second.frontier());
        assert_eq!(first.iterations(), second.iterations());
        if a != StepOutcome::Running {
            break;
        }
    }
}

#[test]
fn solid_start_is_a_config_error() {
    let grid = grid_from_rows(&["#..", "...", "..."]);
    let made = PathFinder::new(Point::new(0, 0), Point::new(2, 2), &grid);
    assert_eq!(made.err(), Some(ConfigError::StartSolid));
}

#[test]
fn solid_goal_is_a_config_error() {
    let grid = grid_from_rows(&["...", "...", "..#"]);
    let made = PathFinder::new(Point::new(0, 0), Point::new(2, 2), &grid);
    assert_eq!(made.err(), Some(ConfigError::EndSolid));
}

#[test]
fn start_outside_the_grid_is_a_config_error() {
    let grid = Grid::generate(Point::new(3, 3), &vec![false; 9]);
    for start in [Point::new(3, 0), Point::new(0, 3), Point::new(-1, 0), Point::new(0, -1)] {
        let made = PathFinder::new(start, Point::new(2, 2), &grid);
        assert_eq!(made.err(), Some(ConfigError::StartOutOfBounds));
    }
}

#[test]
fn goal_outside_the_grid_is_a_config_error() {
    let grid = Grid::generate(Point::new(3, 3), &vec![false; 9]);
    for end in [Point::new(3, 0), Point::new(0, 3), Point::new(-1, 0), Point::new(0, -1)] {
        let made = PathFinder::new(Point::new(0, 0), end, &grid);
        assert_eq!(made.err(), Some(ConfigError::EndOutOfBounds));
    }
}

#[test]
fn start_is_examined_before_the_goal() {
    let grid = grid_from_rows(&["#..", "...", "..#"]);
    let made = PathFinder::new(Point::new(0, 0), Point::new(2, 2), &grid);
    assert_eq!(made.err(), Some(ConfigError::StartSolid));
    let made = PathFinder::new(Point::new(5, 5), Point::new(2, 2), &grid);
    assert_eq!(made.err(), Some(ConfigError::StartOutOfBounds));
    let made = PathFinder::new(Point::new(0, 0), Point::new(9, 9), &grid);
    assert_eq!(made.err(), Some(ConfigError::StartSolid));
}

#[test]
fn no_search_on_an_empty_grid() {
    let grid = Grid::generate(Point::new(0, 0), &Vec::new());
    let made = PathFinder::new(Point::new(0, 0), Point::new(0, 0), &grid);
    assert_eq!(made.err(), Some(ConfigError::StartOutOfBounds));
}

#[test]
fn get_node_tells_absence_from_out_of_bounds() {
    let grid = Grid::generate(Point::new(3, 2), &vec![false; 6]);
    let finder = PathFinder::new(Point::new(0, 0), Point::new(2, 1), &grid).unwrap();
    assert_eq!(finder.get_node(&Point::new(2, 1)), Ok(None));
    assert!(matches!(finder.get_node(&Point::new(0, 0)), Ok(Some(_))));
    for pos in [Point::new(3, 0), Point::new(0, 2), Point::new(3, 2), Point::new(-1, 0), Point::new(0, -1)] {
        assert_eq!(finder.get_node(&pos), Err(OutOfBounds { pos }));
    }
}

#[test]
fn last_column_and_row_can_be_reached() {
    let grid = Grid::generate(Point::new(4, 3), &vec![false; 12]);
    let mut finder = PathFinder::new(Point::new(0, 0), Point::new(3, 2), &grid).unwrap();
    match run(&mut finder).0 {
        StepOutcome::Succeeded { path, .. } => assert_eq!(path.last(), Some(&Point::new(3, 2))),
        _ => panic!("the far corner can be reached"),
    }
    let mut back = PathFinder::new(Point::new(3, 2), Point::new(0, 0), &grid).unwrap();
    assert!(matches!(run(&mut back).0, StepOutcome::Succeeded { .. }));
}
