//! The bounded integer coordinate space the snake moves on, and the four
//! cardinal move directions.

use vstd::prelude::*;

verus! {

/// A grid position in specification space: unbounded integer coordinates,
/// so that stepping off the play area is representable.
pub struct GhostCell {
    pub x: int,
    pub y: int,
}

/// One discrete grid position. A cell is inside a grid of width `w` and
/// height `h` when `x < w` and `y < h`.
#[derive(Clone, Copy, PartialEq, Eq, Structural, Debug)]
pub struct Cell {
    pub x: usize,
    pub y: usize,
}

impl View for Cell {
    type V = GhostCell;

    open spec fn view(&self) -> GhostCell {
        GhostCell { x: self.x as int, y: self.y as int }
    }
}

impl Cell {
    pub fn new(x: usize, y: usize) -> (r: Cell)
        ensures
            r@ == (GhostCell { x: x as int, y: y as int }),
    {
        Cell { x, y }
    }
}

/// One of the four cardinal unit moves in grid space.
#[derive(Clone, Copy, PartialEq, Eq, Structural, Debug)]
pub enum Direction {
    PosX,
    NegX,
    PosY,
    NegY,
}

impl Direction {
    /// The cell one step in this direction from `c`.
    pub open spec fn spec_step(self, c: GhostCell) -> GhostCell {
        match self {
            Direction::PosX => GhostCell { x: c.x + 1, y: c.y },
            Direction::NegX => GhostCell { x: c.x - 1, y: c.y },
            Direction::PosY => GhostCell { x: c.x, y: c.y + 1 },
            Direction::NegY => GhostCell { x: c.x, y: c.y - 1 },
        }
    }

    pub open spec fn spec_opposite(self) -> Direction {
        match self {
            Direction::PosX => Direction::NegX,
            Direction::NegX => Direction::PosX,
            Direction::PosY => Direction::NegY,
            Direction::NegY => Direction::PosY,
        }
    }

}

/// The fixed order in which candidate directions are examined, used for
/// deterministic tie-breaking throughout: +X, -X, +Y, -Y.
pub open spec fn dir_at(i: int) -> Direction {
    if i == 0 {
        Direction::PosX
    } else if i == 1 {
        Direction::NegX
    } else if i == 2 {
        Direction::PosY
    } else {
        Direction::NegY
    }
}

pub fn dir_for(i: usize) -> (d: Direction)
    requires
        i < 4,
    ensures
        d == dir_at(i as int),
{
    match i {
        0 => Direction::PosX,
        1 => Direction::NegX,
        2 => Direction::PosY,
        _ => Direction::NegY,
    }
}

/// Every direction appears in the fixed examination order.
pub proof fn lemma_dir_covered(d: Direction)
    ensures
        exists|i: int| 0 <= i < 4 && dir_at(i) == d,
{
    match d {
        Direction::PosX => assert(dir_at(0) == d),
        Direction::NegX => assert(dir_at(1) == d),
        Direction::PosY => assert(dir_at(2) == d),
        Direction::NegY => assert(dir_at(3) == d),
    }
}

/// Two directions that lead from one cell to the same cell are the same
/// direction.
pub proof fn lemma_dir_unique(d1: Direction, d2: Direction, c: GhostCell)
    requires
        d1.spec_step(c) == d2.spec_step(c),
    ensures
        d1 == d2,
{
}

/// Stepping in a direction and then in its opposite returns to the same cell.
pub proof fn lemma_step_opposite(d: Direction, c: GhostCell)
    ensures
        d.spec_opposite().spec_step(d.spec_step(c)) == c,
{
}

/// The bounded play area: `width` x `height` cells with corner (0, 0).
#[derive(Clone, Copy, Debug)]
pub struct Grid {
    pub width: usize,
    pub height: usize,
}

impl Grid {
    /// A usable grid is non-empty and small enough that every cell has a
    /// distinct index in a linear array with one slot left over for a
    /// sentinel distance value.
    pub open spec fn wf(self) -> bool {
        self.width >= 1 && self.height >= 1 && self.width * self.height < usize::MAX
    }

    pub open spec fn area(self) -> int {
        self.width * self.height
    }

    /// Whether a cell lies inside the play area.
    pub open spec fn contains(self, c: GhostCell) -> bool {
        0 <= c.x < self.width && 0 <= c.y < self.height
    }

    /// The linear index of an in-bounds cell, row by row.
    pub open spec fn spec_idx(self, c: GhostCell) -> int {
        c.y * self.width + c.x
    }

    /// A grid is built only from dimensions that satisfy `wf`.
    pub fn new(width: usize, height: usize) -> (r: Option<Grid>)
        ensures
            match r {
                Some(g) => g.width == width && g.height == height && g.wf(),
                None => !(Grid { width, height }).wf(),
            },
    {
        if width >= 1 && height >= 1 {
            match width.checked_mul(height) {
                Some(a) if a < usize::MAX => Some(Grid { width, height }),
                _ => None,
            }
        } else {
            None
        }
    }

    pub fn in_bounds(&self, c: Cell) -> (r: bool)
        ensures
            r == self.contains(c@),
    {
        c.x < self.width && c.y < self.height
    }

    /// The linear index of an in-bounds cell.
    pub fn index_of(&self, c: Cell) -> (i: usize)
        requires
            self.wf(),
            self.contains(c@),
        ensures
            i == self.spec_idx(c@),
            i < self.area(),
    {
        proof {
            lemma_idx_bounds(c.x as int, c.y as int, self.width as int, self.height as int);
        }
        c.y * self.width + c.x
    }

    /// The in-bounds cell one step in direction `d` from `c`, if there is one.
    /// The origin itself need not be in bounds.
    pub fn step(&self, c: Cell, d: Direction) -> (r: Option<Cell>)
        ensures
            match r {
                Some(n) => self.contains(d.spec_step(c@)) && n@ == d.spec_step(c@),
                None => !self.contains(d.spec_step(c@)),
            },
    {
        match d {
            Direction::PosX => {
                if c.x < self.width && c.x + 1 < self.width && c.y < self.height {
                    Some(Cell { x: c.x + 1, y: c.y })
                } else {
                    None
                }
            },
            Direction::NegX => {
                if c.x >= 1 && c.x - 1 < self.width && c.y < self.height {
                    Some(Cell { x: c.x - 1, y: c.y })
                } else {
                    None
                }
            },
            Direction::PosY => {
                if c.y < self.height && c.y + 1 < self.height && c.x < self.width {
                    Some(Cell { x: c.x, y: c.y + 1 })
                } else {
                    None
                }
            },
            Direction::NegY => {
                if c.y >= 1 && c.y - 1 < self.height && c.x < self.width {
                    Some(Cell { x: c.x, y: c.y - 1 })
                } else {
                    None
                }
            },
        }
    }
}

/// Row-by-row indexing keeps every in-bounds cell inside the linear array.
pub proof fn lemma_idx_bounds(x: int, y: int, w: int, h: int)
    by (nonlinear_arith)
    requires
        0 <= x < w,
        0 <= y < h,
    ensures
        0 <= y * w + x < h * w,
        0 <= y * w + x < w * h,
{
}

/// Row-by-row indexing gives distinct in-bounds cells distinct indices.
pub proof fn lemma_idx_injective(g: Grid, a: GhostCell, b: GhostCell)
    by (nonlinear_arith)
    requires
        g.contains(a),
        g.contains(b),
        g.spec_idx(a) == g.spec_idx(b),
    ensures
        a == b,
{
}

} // verus!
