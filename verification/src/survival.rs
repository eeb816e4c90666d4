//! The flood-fill survival evaluator: when no path to the food exists, pick
//! the cardinal direction whose cell opens into the largest connected free
//! area, examining candidates in the fixed order +X, -X, +Y, -Y and keeping
//! the first on ties.

use vstd::prelude::*;
use crate::grid::{Cell, Direction, Grid, GhostCell};
use crate::search::{SearchSpace, passable, region, space_of, bfs_distances,
    lemma_unreachable_target};
use crate::pathfinder::{view_cells, build_blocked};

verus! {

/// The arena the survival evaluator searches: every body cell blocks the
/// way; unlike pathfinding there is no origin exception, since the head's
/// own cell stays covered. Only in-grid cells need blocking.
pub open spec fn free_space(g: Grid, occ: Seq<GhostCell>) -> SearchSpace {
    SearchSpace { grid: g, blocked: Set::new(|c: GhostCell| g.contains(c) && occ.contains(c)) }
}

/// The number of free cells 4-connected to `c`, `c` included; 0 when `c`
/// itself is blocked or outside the grid.
pub open spec fn area_from(g: Grid, occ: Seq<GhostCell>, c: GhostCell) -> nat {
    region(free_space(g, occ), c).len()
}

/// The reachable free area behind one candidate direction from `start`.
pub open spec fn candidate_area(
    g: Grid,
    occ: Seq<GhostCell>,
    start: GhostCell,
    d: Direction,
) -> nat {
    area_from(g, occ, d.spec_step(start))
}

/// The direction the survival evaluator picks: the first direction in the
/// fixed order +X, -X, +Y, -Y whose candidate cell opens into the largest
/// free area; none when no candidate cell is passable.
pub open spec fn survival_choice(g: Grid, occ: Seq<GhostCell>, start: GhostCell) -> Option<
    Direction,
> {
    let a0 = candidate_area(g, occ, start, Direction::PosX);
    let a1 = candidate_area(g, occ, start, Direction::NegX);
    let a2 = candidate_area(g, occ, start, Direction::PosY);
    let a3 = candidate_area(g, occ, start, Direction::NegY);
    if a0 == 0 && a1 == 0 && a2 == 0 && a3 == 0 {
        None
    } else if a0 >= a1 && a0 >= a2 && a0 >= a3 {
        Some(Direction::PosX)
    } else if a1 >= a2 && a1 >= a3 {
        Some(Direction::NegX)
    } else if a2 >= a3 {
        Some(Direction::PosY)
    } else {
        Some(Direction::NegY)
    }
}

/// Whether `pos` is inside the grid and not covered by the body: the
/// validity test for a candidate move.
pub fn is_valid_move(g: &Grid, pos: Cell, occupied: &Vec<Cell>) -> (r: bool)
    ensures
        r == passable(free_space(*g, view_cells(occupied@)), pos@),
{
    if !g.in_bounds(pos) {
        return false;
    }
    let mut i: usize = 0;
    while i < occupied.len()
        invariant
            i <= occupied@.len(),
            forall|k: int| 0 <= k < i ==> occupied@[k]@ != pos@,
        decreases occupied@.len() - i,
    {
        if occupied[i] == pos {
            proof {
                assert(view_cells(occupied@)[i as int] == pos@);
            }
            return false;
        }
        i = i + 1;
    }
    proof {
        if view_cells(occupied@).contains(pos@) {
            let k = choose|k: int|
                0 <= k < view_cells(occupied@).len() && view_cells(occupied@)[k] == pos@;
            assert(occupied@[k]@ == pos@);
        }
    }
    true
}

/// The reachable free area behind one candidate direction, or 0 when the
/// candidate cell is out of bounds.
fn area_of(g: &Grid, blocked: &Vec<bool>, start: Cell, d: Direction) -> (a: usize)
    requires
        g.wf(),
        blocked@.len() == g.area(),
    ensures
        a == region(space_of(*g, blocked@), d.spec_step(start@)).len(),
{
    match g.step(start, d) {
        Some(cand) => {
            let (_dist, cnt) = bfs_distances(g, blocked, cand);
            cnt
        },
        None => {
            proof {
                lemma_unreachable_target(space_of(*g, blocked@), d.spec_step(start@));
            }
            0
        },
    }
}

/// The flood-fill area count: how many free cells are 4-connected to
/// `from`, `from` included; 0 when `from` is covered or outside the grid.
pub fn flood_fill(g: &Grid, from: Cell, occupied: &Vec<Cell>) -> (area: usize)
    requires
        g.wf(),
    ensures
        area == area_from(*g, view_cells(occupied@), from@),
{
    let blocked = build_blocked(g, occupied, None);
    proof {
        let s = free_space(*g, view_cells(occupied@));
        assert forall|c: GhostCell| space_of(*g, blocked@).blocked.contains(c)
            == s.blocked.contains(c) by {
            if g.contains(c) {
                crate::grid::lemma_idx_bounds(c.x, c.y, g.width as int, g.height as int);
            }
        }
        assert(space_of(*g, blocked@).blocked =~= s.blocked);
        assert(space_of(*g, blocked@) == s);
    }
    let (_dist, cnt) = bfs_distances(g, &blocked, from);
    cnt
}

/// The survival move: the first direction in the fixed order +X, -X, +Y, -Y
/// whose candidate cell opens into the strictly largest free area seen so
/// far. Returns no direction exactly when every candidate area is 0, in
/// particular when the head is enclosed on all four sides.
pub fn survival_mode(g: &Grid, start: Cell, occupied: &Vec<Cell>) -> (r: Option<Direction>)
    requires
        g.wf(),
    ensures
        r == survival_choice(*g, view_cells(occupied@), start@),
        (r is None) <==> (forall|d: Direction|
            candidate_area(*g, view_cells(occupied@), start@, d) == 0),
{
    let ghost occ = view_cells(occupied@);
    let blocked = build_blocked(g, occupied, None);
    proof {
        let s = free_space(*g, occ);
        assert forall|c: GhostCell| space_of(*g, blocked@).blocked.contains(c)
            == s.blocked.contains(c) by {
            if g.contains(c) {
                crate::grid::lemma_idx_bounds(c.x, c.y, g.width as int, g.height as int);
            }
        }
        assert(space_of(*g, blocked@).blocked =~= s.blocked);
        assert(space_of(*g, blocked@) == s);
    }
    let a0 = area_of(g, &blocked, start, Direction::PosX);
    let a1 = area_of(g, &blocked, start, Direction::NegX);
    let a2 = area_of(g, &blocked, start, Direction::PosY);
    let a3 = area_of(g, &blocked, start, Direction::NegY);
    let mut largest: usize = 0;
    let mut best: Option<Direction> = None;
    if a0 > largest {
        largest = a0;
        best = Some(Direction::PosX);
    }
    if a1 > largest {
        largest = a1;
        best = Some(Direction::NegX);
    }
    if a2 > largest {
        largest = a2;
        best = Some(Direction::PosY);
    }
    if a3 > largest {
        largest = a3;
        best = Some(Direction::NegY);
    }
    proof {
        assert forall|d: Direction| (best is None) implies candidate_area(*g, occ, start@, d)
            == 0 by {
            match d {
                Direction::PosX => {},
                Direction::NegX => {},
                Direction::PosY => {},
                Direction::NegY => {},
            }
        }
        if !(best is None) {
            assert(candidate_area(*g, occ, start@, Direction::PosX) != 0 || candidate_area(
                *g,
                occ,
                start@,
                Direction::NegX,
            ) != 0 || candidate_area(*g, occ, start@, Direction::PosY) != 0 || candidate_area(
                *g,
                occ,
                start@,
                Direction::NegY,
            ) != 0);
        }
    }
    best
}

/// When every neighbouring cell is covered or outside the grid, the
/// evaluator returns no direction: a fully enclosed head has no move.
pub proof fn lemma_survival_enclosed(g: Grid, occ: Seq<GhostCell>, start: GhostCell)
    requires
        forall|d: Direction| !passable(free_space(g, occ), #[trigger] d.spec_step(start)),
    ensures
        survival_choice(g, occ, start) is None,
{
    assert forall|d: Direction| #[trigger] candidate_area(g, occ, start, d) == 0 by {
        lemma_unreachable_target(free_space(g, occ), d.spec_step(start));
    }
    assert(candidate_area(g, occ, start, Direction::PosX) == 0);
    assert(candidate_area(g, occ, start, Direction::NegX) == 0);
    assert(candidate_area(g, occ, start, Direction::PosY) == 0);
    assert(candidate_area(g, occ, start, Direction::NegY) == 0);
}

/// The chosen direction's free area is at least as large as that of every
/// other candidate direction, and its candidate cell is passable: the
/// evaluator maximises the reachable area.
pub proof fn lemma_survival_maximal(
    g: Grid,
    occ: Seq<GhostCell>,
    start: GhostCell,
    d: Direction,
    d2: Direction,
)
    requires
        survival_choice(g, occ, start) == Some(d),
    ensures
        candidate_area(g, occ, start, d2) <= candidate_area(g, occ, start, d),
        passable(free_space(g, occ), d.spec_step(start)),
{
    assert(candidate_area(g, occ, start, d) >= candidate_area(g, occ, start, d2)) by {
        match d2 {
            Direction::PosX => {},
            Direction::NegX => {},
            Direction::PosY => {},
            Direction::NegY => {},
        }
    }
    assert(candidate_area(g, occ, start, d) >= 1) by {
        match d {
            Direction::PosX => {},
            Direction::NegX => {},
            Direction::PosY => {},
            Direction::NegY => {},
        }
    }
    if !passable(free_space(g, occ), d.spec_step(start)) {
        lemma_unreachable_target(free_space(g, occ), d.spec_step(start));
    }
}

} // verus!
