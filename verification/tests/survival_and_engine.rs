//! Survival evaluator behaviour and end-to-end decision engine scenarios.

use snake_autopilot::grid::{Cell, Direction, Grid};
use snake_autopilot::survival::{flood_fill, is_valid_move, survival_mode};
use snake_autopilot::engine::Autopilot;

fn cell(x: usize, y: usize) -> Cell {
    Cell::new(x, y)
}

fn grid(w: usize, h: usize) -> Grid {
    Grid::new(w, h).unwrap()
}

#[test]
fn flood_fill_counts_connected_free_cells() {
    // A 3x3 grid with its centre blocked: 8 free cells, all connected.
    let g = grid(3, 3);
    let occupied = vec![cell(1, 1)];
    assert_eq!(flood_fill(&g, cell(0, 0), &occupied), 8);
    // A blocked or out-of-bounds start has no area at all.
    assert_eq!(flood_fill(&g, cell(1, 1), &occupied), 0);
    assert_eq!(flood_fill(&g, cell(5, 5), &occupied), 0);
}

#[test]
fn flood_fill_respects_walls() {
    // A full vertical wall splits a 5x2 grid into 2x2 and 2x2 halves.
    let g = grid(5, 2);
    let occupied = vec![cell(2, 0), cell(2, 1)];
    assert_eq!(flood_fill(&g, cell(0, 0), &occupied), 4);
    assert_eq!(flood_fill(&g, cell(4, 1), &occupied), 4);
}

#[test]
fn is_valid_move_checks_bounds_and_occupancy() {
    let g = grid(4, 4);
    let occupied = vec![cell(2, 2)];
    assert!(is_valid_move(&g, cell(0, 0), &occupied));
    assert!(!is_valid_move(&g, cell(2, 2), &occupied));
    assert!(!is_valid_move(&g, cell(4, 0), &occupied));
    assert!(!is_valid_move(&g, cell(0, 4), &occupied));
}

#[test]
fn enclosed_head_gets_no_survival_direction() {
    // The head is surrounded on all four sides by body cells.
    let g = grid(5, 5);
    let occupied = vec![cell(2, 2), cell(1, 2), cell(3, 2), cell(2, 1), cell(2, 3)];
    assert_eq!(survival_mode(&g, cell(2, 2), &occupied), None);
}

#[test]
fn cornered_head_gets_no_survival_direction() {
    // In the grid corner, two sides are walls and two are body cells.
    let g = grid(5, 5);
    let occupied = vec![cell(0, 0), cell(1, 0), cell(0, 1)];
    assert_eq!(survival_mode(&g, cell(0, 0), &occupied), None);
}

#[test]
fn survival_picks_the_larger_region() {
    // A single row of 11 cells with the head at x = 3: moving -X opens a
    // region of 3 cells, moving +X a region of 7 cells.
    let g = grid(11, 1);
    let occupied = vec![cell(3, 0)];
    assert_eq!(flood_fill(&g, cell(2, 0), &occupied), 3);
    assert_eq!(flood_fill(&g, cell(4, 0), &occupied), 7);
    assert_eq!(survival_mode(&g, cell(3, 0), &occupied), Some(Direction::PosX));
    // Mirrored: the larger region lies on the -X side.
    let occupied2 = vec![cell(7, 0)];
    assert_eq!(survival_mode(&g, cell(7, 0), &occupied2), Some(Direction::NegX));
}

#[test]
fn survival_tie_keeps_first_direction_in_order() {
    // Equal regions of 3 cells on both sides: +X is examined first and a
    // tie must not displace it.
    let g = grid(7, 1);
    let occupied = vec![cell(3, 0)];
    assert_eq!(survival_mode(&g, cell(3, 0), &occupied), Some(Direction::PosX));
}

#[test]
fn engine_walks_straight_to_food_in_three_ticks() {
    // 10x10 grid, head at (5,5), food three cells along +X: the engine
    // commands +X on three consecutive ticks and reaches the food.
    let g = grid(10, 10);
    let mut ap = Autopilot::new();
    ap.toggle();
    assert!(ap.is_enabled());
    let food = cell(8, 5);
    let mut head = cell(5, 5);
    for _ in 0..3 {
        let occupied = vec![head];
        let decision = ap.decide(&g, head, food, &occupied);
        assert_eq!(decision, Some(Direction::PosX));
        head = cell(head.x + 1, head.y);
    }
    assert_eq!(head, food);
}

#[test]
fn engine_falls_back_to_survival_in_dead_end() {
    // The head sits in a dead-end corridor; the food lies behind a full
    // wall and cannot be reached. The engine must fall back to the
    // survival evaluator and command the corridor's open end (-X).
    let g = grid(5, 3);
    let occupied = vec![
        cell(3, 1), // head
        cell(4, 1),
        cell(1, 0),
        cell(1, 1),
        cell(1, 2),
        cell(2, 0),
        cell(3, 0),
        cell(4, 0),
        cell(2, 2),
        cell(3, 2),
        cell(4, 2),
    ];
    let food = cell(0, 1);
    let mut ap = Autopilot::new();
    ap.toggle();
    let decision = ap.decide(&g, cell(3, 1), food, &occupied);
    assert_eq!(decision, Some(Direction::NegX));
}

#[test]
fn disengaged_engine_emits_nothing_until_reengaged() {
    let g = grid(10, 10);
    let mut ap = Autopilot::new();
    // Starts disengaged.
    assert!(!ap.is_enabled());
    assert_eq!(ap.decide(&g, cell(5, 5), cell(8, 5), &vec![cell(5, 5)]), None);
    // Engaged: a decision comes.
    ap.toggle();
    assert_eq!(
        ap.decide(&g, cell(5, 5), cell(8, 5), &vec![cell(5, 5)]),
        Some(Direction::PosX)
    );
    // Disengaged mid-sequence: no further direction, whatever the inputs.
    ap.toggle();
    assert_eq!(ap.decide(&g, cell(5, 5), cell(8, 5), &vec![cell(5, 5)]), None);
    assert_eq!(ap.decide(&g, cell(1, 1), cell(9, 9), &vec![]), None);
    assert_eq!(ap.decide(&g, cell(0, 0), cell(0, 1), &vec![cell(0, 0)]), None);
    // Re-engaged: decisions resume.
    ap.toggle();
    assert_eq!(
        ap.decide(&g, cell(5, 5), cell(8, 5), &vec![cell(5, 5)]),
        Some(Direction::PosX)
    );
}

#[test]
fn tick_updates_the_register_only_on_a_decision() {
    let g = grid(10, 10);
    let mut ap = Autopilot::new();
    let mut commanded = Direction::NegY;
    // Disengaged: the register keeps its value.
    ap.tick(&g, cell(5, 5), cell(8, 5), &vec![cell(5, 5)], &mut commanded);
    assert_eq!(commanded, Direction::NegY);
    // Engaged with a path: the register is overwritten.
    ap.toggle();
    ap.tick(&g, cell(5, 5), cell(8, 5), &vec![cell(5, 5)], &mut commanded);
    assert_eq!(commanded, Direction::PosX);
    // Engaged but fully enclosed: no decision, the register keeps the
    // previous command and the snake sails on.
    let enclosure = vec![cell(2, 2), cell(1, 2), cell(3, 2), cell(2, 1), cell(2, 3)];
    ap.tick(&g, cell(2, 2), cell(8, 5), &enclosure, &mut commanded);
    assert_eq!(commanded, Direction::PosX);
}

#[test]
fn head_on_food_falls_back_to_survival() {
    // With the head already on the food, the pathfinder emits no step; the
    // engine then consults the survival evaluator like the game does.
    let g = grid(5, 5);
    let mut ap = Autopilot::new();
    ap.toggle();
    let decision = ap.decide(&g, cell(2, 2), cell(2, 2), &vec![cell(2, 2)]);
    // All four neighbours are free and open into the same region; the tie
    // keeps the first direction in order.
    assert_eq!(decision, Some(Direction::PosX));
}
