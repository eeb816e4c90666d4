//! Pathfinder behaviour: shortest paths, blocked cells, determinism, and
//! the trivial start-equals-goal case.

use snake_autopilot::grid::{Cell, Direction, Grid};
use snake_autopilot::pathfinder::{find_path, path_next_step};

fn cell(x: usize, y: usize) -> Cell {
    Cell::new(x, y)
}

fn grid(w: usize, h: usize) -> Grid {
    Grid::new(w, h).unwrap()
}

#[test]
fn straight_line_path_is_shortest() {
    let g = grid(10, 10);
    let path = find_path(&g, cell(5, 5), cell(8, 5), &vec![cell(5, 5)]);
    // Manhattan distance 3: four cells from head to food inclusive.
    assert_eq!(path.len(), 4);
    assert_eq!(path[0], cell(5, 5));
    assert_eq!(path[1], cell(6, 5));
    assert_eq!(path[2], cell(7, 5));
    assert_eq!(path[3], cell(8, 5));
}

#[test]
fn path_around_wall_has_exact_detour_length() {
    // A vertical wall at x = 2 with a single gap at y = 4 on a 5x5 grid.
    let g = grid(5, 5);
    let occupied = vec![cell(2, 0), cell(2, 1), cell(2, 2), cell(2, 3), cell(0, 0)];
    let path = find_path(&g, cell(0, 0), cell(4, 0), &occupied);
    // Shortest route: up to y = 4, through the gap, back down: 12 steps.
    assert_eq!(path.len(), 13);
    assert_eq!(path[0], cell(0, 0));
    assert_eq!(path[12], cell(4, 0));
    // Consecutive cells differ by one unit step.
    for w in path.windows(2) {
        let dx = (w[0].x as i64 - w[1].x as i64).abs();
        let dy = (w[0].y as i64 - w[1].y as i64).abs();
        assert_eq!(dx + dy, 1);
    }
}

#[test]
fn path_never_enters_occupied_cells_or_leaves_bounds() {
    let g = grid(6, 6);
    let occupied = vec![
        cell(1, 1),
        cell(1, 2),
        cell(2, 1),
        cell(3, 3),
        cell(4, 2),
        cell(0, 0),
    ];
    let path = find_path(&g, cell(0, 0), cell(5, 5), &occupied);
    assert!(!path.is_empty());
    for (i, c) in path.iter().enumerate() {
        assert!(c.x < 6 && c.y < 6);
        if i > 0 {
            assert!(!occupied.contains(c));
        }
    }
}

#[test]
fn repeated_calls_return_identical_paths() {
    // A grid with many equally short routes: every tie must break the same
    // way on every invocation.
    let g = grid(8, 8);
    let occupied = vec![cell(3, 3), cell(4, 4), cell(2, 5)];
    let first = find_path(&g, cell(1, 1), cell(6, 6), &occupied);
    for _ in 0..5 {
        let again = find_path(&g, cell(1, 1), cell(6, 6), &occupied);
        assert_eq!(first, again);
    }
}

#[test]
fn unreachable_goal_gives_empty_path() {
    // The goal sits behind a full wall.
    let g = grid(5, 5);
    let occupied = vec![
        cell(2, 0),
        cell(2, 1),
        cell(2, 2),
        cell(2, 3),
        cell(2, 4),
    ];
    let path = find_path(&g, cell(0, 2), cell(4, 2), &occupied);
    assert!(path.is_empty());
}

#[test]
fn start_equals_goal_emits_no_step() {
    let g = grid(10, 10);
    let path = find_path(&g, cell(5, 5), cell(5, 5), &vec![]);
    // The degenerate path holds the single cell; there is no second cell to
    // step to.
    assert_eq!(path.len(), 1);
    assert_eq!(path.get(1), None);
    let step = path_next_step(&g, cell(5, 5), cell(5, 5), &vec![]);
    assert_eq!(step, None);
}

#[test]
fn start_cell_is_passable_even_though_occupied() {
    // The head's own cell is in the occupancy snapshot but is the search
    // origin; a path out of it must still be found.
    let g = grid(4, 4);
    let occupied = vec![cell(0, 0), cell(0, 1)];
    let path = find_path(&g, cell(0, 0), cell(3, 0), &occupied);
    assert_eq!(path.len(), 4);
}

#[test]
fn duplicate_occupancy_entries_are_harmless() {
    let g = grid(6, 6);
    let once = vec![cell(2, 2), cell(3, 3)];
    let twice = vec![cell(2, 2), cell(2, 2), cell(3, 3), cell(3, 3), cell(2, 2)];
    let a = find_path(&g, cell(0, 0), cell(5, 5), &once);
    let b = find_path(&g, cell(0, 0), cell(5, 5), &twice);
    assert_eq!(a, b);
}

#[test]
fn occupancy_entries_outside_the_grid_are_ignored() {
    let g = grid(4, 4);
    let occupied = vec![cell(9, 9), cell(100, 0)];
    let path = find_path(&g, cell(0, 0), cell(3, 3), &occupied);
    assert_eq!(path.len(), 7);
}

#[test]
fn next_step_follows_fixed_direction_order() {
    // Both +X and +Y begin equally short routes; +X comes first in the
    // fixed order and must win the tie.
    let g = grid(5, 5);
    let step = path_next_step(&g, cell(1, 1), cell(2, 2), &vec![cell(1, 1)]);
    assert_eq!(step, Some(Direction::PosX));
}

#[test]
fn next_step_routes_around_a_block() {
    // The direct +X neighbour is occupied; the shortest route starts
    // differently.
    let g = grid(5, 5);
    let occupied = vec![cell(1, 1), cell(2, 1)];
    let step = path_next_step(&g, cell(1, 1), cell(3, 1), &occupied);
    // Routes via -X are longer; +Y and -Y both begin length-4 routes, and
    // +Y comes first in the fixed order.
    assert_eq!(step, Some(Direction::PosY));
}

#[test]
fn grid_constructor_rejects_empty_dimensions() {
    assert!(Grid::new(0, 5).is_none());
    assert!(Grid::new(5, 0).is_none());
    assert!(Grid::new(0, 0).is_none());
    assert!(Grid::new(1, 1).is_some());
    assert!(Grid::new(usize::MAX, usize::MAX).is_none());
}

#[test]
fn one_by_one_grid_trivial_cases() {
    let g = grid(1, 1);
    let path = find_path(&g, cell(0, 0), cell(0, 0), &vec![]);
    assert_eq!(path.len(), 1);
    let step = path_next_step(&g, cell(0, 0), cell(0, 0), &vec![]);
    assert_eq!(step, None);
}

#[test]
fn out_of_bounds_start_finds_no_path() {
    // A head outside the grid is a broken upstream invariant; the decision
    // is abandoned rather than recovered.
    let g = grid(4, 4);
    let path = find_path(&g, cell(7, 7), cell(1, 1), &vec![]);
    assert!(path.is_empty());
}
