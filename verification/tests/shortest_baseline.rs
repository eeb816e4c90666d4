//! The pathfinder's length against an independent brute-force
//! breadth-first baseline, exhaustively over every obstacle set of a small
//! grid and on a few larger ones.

use snake_autopilot::grid::{Cell, Grid};
use snake_autopilot::pathfinder::find_path;

/// An independent shortest-distance computation over the same movement
/// rules: 4-connected unit steps, occupied cells block, except that the
/// start cell is always passable.
fn baseline_dist(
    w: usize,
    h: usize,
    occupied: &[(usize, usize)],
    start: (usize, usize),
    goal: (usize, usize),
) -> Option<usize> {
    let passable = |p: (usize, usize)| -> bool {
        p.0 < w && p.1 < h && (p == start || !occupied.contains(&p))
    };
    if !passable(start) || !passable(goal) {
        return None;
    }
    let mut dist = vec![usize::MAX; w * h];
    let idx = |p: (usize, usize)| p.1 * w + p.0;
    let mut queue = std::collections::VecDeque::new();
    dist[idx(start)] = 0;
    queue.push_back(start);
    while let Some(p) = queue.pop_front() {
        if p == goal {
            return Some(dist[idx(p)]);
        }
        let mut neighbors = Vec::new();
        if p.0 + 1 < w {
            neighbors.push((p.0 + 1, p.1));
        }
        if p.0 > 0 {
            neighbors.push((p.0 - 1, p.1));
        }
        if p.1 + 1 < h {
            neighbors.push((p.0, p.1 + 1));
        }
        if p.1 > 0 {
            neighbors.push((p.0, p.1 - 1));
        }
        for nb in neighbors {
            if passable(nb) && dist[idx(nb)] == usize::MAX {
                dist[idx(nb)] = dist[idx(p)] + 1;
                queue.push_back(nb);
            }
        }
    }
    None
}

fn check_against_baseline(
    w: usize,
    h: usize,
    occupied: &[(usize, usize)],
    start: (usize, usize),
    goal: (usize, usize),
) {
    let g = Grid::new(w, h).unwrap();
    let occ: Vec<Cell> = occupied.iter().map(|&(x, y)| Cell::new(x, y)).collect();
    let path = find_path(&g, Cell::new(start.0, start.1), Cell::new(goal.0, goal.1), &occ);
    match baseline_dist(w, h, occupied, start, goal) {
        Some(d) => {
            assert_eq!(
                path.len(),
                d + 1,
                "length mismatch on {w}x{h}, occ {occupied:?}, {start:?} -> {goal:?}"
            );
            // The path is a real route: endpoints, adjacency, and no
            // occupied cell after the start.
            assert_eq!((path[0].x, path[0].y), start);
            assert_eq!((path[d].x, path[d].y), goal);
            for i in 0..d {
                let dx = (path[i].x as i64 - path[i + 1].x as i64).abs();
                let dy = (path[i].y as i64 - path[i + 1].y as i64).abs();
                assert_eq!(dx + dy, 1);
            }
            for c in path.iter().skip(1) {
                assert!(!occupied.contains(&(c.x, c.y)));
                assert!(c.x < w && c.y < h);
            }
        },
        None => {
            assert!(
                path.is_empty(),
                "expected no path on {w}x{h}, occ {occupied:?}, {start:?} -> {goal:?}"
            );
        },
    }
}

#[test]
fn matches_baseline_on_every_obstacle_set_of_a_3x3_grid() {
    // All 512 obstacle subsets, corner to corner.
    for mask in 0u32..512 {
        let occupied: Vec<(usize, usize)> = (0..9)
            .filter(|b| mask & (1 << b) != 0)
            .map(|b| (b % 3, b / 3))
            .collect();
        check_against_baseline(3, 3, &occupied, (0, 0), (2, 2));
    }
}

#[test]
fn matches_baseline_on_assorted_larger_grids() {
    check_against_baseline(8, 6, &[], (0, 0), (7, 5));
    check_against_baseline(
        8,
        6,
        &[(3, 0), (3, 1), (3, 2), (3, 3), (3, 4), (0, 0)],
        (0, 0),
        (7, 0),
    );
    check_against_baseline(
        6,
        6,
        &[(1, 1), (2, 1), (3, 1), (4, 1), (4, 2), (4, 3), (1, 3), (2, 3)],
        (0, 0),
        (3, 2),
    );
    check_against_baseline(12, 1, &[(6, 0)], (2, 0), (10, 0));
    check_against_baseline(5, 5, &[(0, 1), (1, 1), (2, 1), (3, 1), (4, 3)], (0, 0), (4, 4));
}
