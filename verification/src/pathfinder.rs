//! The deterministic shortest-path search from the snake's head to the food.
//!
//! A breadth-first search from the goal labels every cell with its exact
//! shortest 4-connected distance; the path is then read off by walking from
//! the start downhill along the labels, always taking the first direction in
//! the fixed order +X, -X, +Y, -Y. The returned path is therefore a shortest
//! path, and a function of the inputs alone: the same start, goal and
//! occupancy always give the identical path, also under tie conditions.

use vstd::prelude::*;
use crate::grid::{Cell, Direction, Grid, GhostCell};
use crate::grid::lemma_idx_bounds;
use crate::search::{SearchSpace, passable, reach, reachable, is_min_dist, space_of,
    bfs_distances, lemma_min_exists, lemma_min_unique, lemma_reach_extend, lemma_min_step};

verus! {

/// The view of a vector of cells.
pub open spec fn view_cells(cs: Seq<Cell>) -> Seq<GhostCell> {
    cs.map_values(|c: Cell| c@)
}

/// The arena a pathfinding run searches: body cells block the way, except
/// the search origin `start`, which is passable although the body covers it.
/// Only in-grid cells need blocking; cells outside the grid are impassable
/// already.
pub open spec fn path_space(g: Grid, occ: Seq<GhostCell>, start: GhostCell) -> SearchSpace {
    SearchSpace {
        grid: g,
        blocked: Set::new(|c: GhostCell| g.contains(c) && occ.contains(c) && c != start),
    }
}

/// Whether stepping `d` from `c` lands on a cell at shortest distance `k`
/// from the target.
pub open spec fn good_dir(
    s: SearchSpace,
    tgt: GhostCell,
    c: GhostCell,
    d: Direction,
    k: nat,
) -> bool {
    is_min_dist(s, tgt, d.spec_step(c), k)
}

/// The first direction in the fixed order +X, -X, +Y, -Y that steps onto a
/// cell at shortest distance `k`: the tie-breaking rule of the pathfinder.
pub open spec fn first_dir(s: SearchSpace, tgt: GhostCell, c: GhostCell, k: nat) -> Direction {
    if good_dir(s, tgt, c, Direction::PosX, k) {
        Direction::PosX
    } else if good_dir(s, tgt, c, Direction::NegX, k) {
        Direction::NegX
    } else if good_dir(s, tgt, c, Direction::PosY, k) {
        Direction::PosY
    } else {
        Direction::NegY
    }
}

/// The unique path the pathfinder returns: from `c`, `n` greedy steps, each
/// onto the first direction in fixed order that decreases the shortest
/// distance to the target.
pub open spec fn path_seq(s: SearchSpace, tgt: GhostCell, c: GhostCell, n: nat) -> Seq<GhostCell>
    decreases n,
{
    if n == 0 {
        seq![c]
    } else {
        seq![c] + path_seq(s, tgt, first_dir(s, tgt, c, (n - 1) as nat).spec_step(c), (n - 1) as nat)
    }
}

/// From any cell with a route, some direction in the fixed order decreases
/// the shortest distance, and `first_dir` picks one such direction.
pub proof fn lemma_first_dir_good(s: SearchSpace, tgt: GhostCell, c: GhostCell, n: nat)
    requires
        is_min_dist(s, tgt, c, n),
        n >= 1,
    ensures
        good_dir(s, tgt, c, first_dir(s, tgt, c, (n - 1) as nat), (n - 1) as nat),
{
    let d = lemma_min_step(s, tgt, c, n);
    assert(good_dir(s, tgt, c, d, (n - 1) as nat));
}

/// The greedy path has one cell per distance value: it starts at `c`, ends
/// at the target, every cell is passable, consecutive cells are one step
/// apart, and the cell at index `i` is at shortest distance `n - i`.
pub proof fn lemma_path_seq_props(s: SearchSpace, tgt: GhostCell, c: GhostCell, n: nat)
    requires
        is_min_dist(s, tgt, c, n),
    ensures
        path_seq(s, tgt, c, n).len() == n + 1,
        path_seq(s, tgt, c, n)[0] == c,
        path_seq(s, tgt, c, n)[n as int] == tgt,
        forall|i: int|
            0 <= i <= n ==> is_min_dist(s, tgt, #[trigger] path_seq(s, tgt, c, n)[i], (n - i) as nat),
        forall|i: int| 0 <= i <= n ==> passable(s, #[trigger] path_seq(s, tgt, c, n)[i]),
        forall|i: int|
            0 <= i < n ==> #[trigger] path_seq(s, tgt, c, n)[i + 1] == first_dir(
                s,
                tgt,
                path_seq(s, tgt, c, n)[i],
                (n - i - 1) as nat,
            ).spec_step(path_seq(s, tgt, c, n)[i]),
    decreases n,
{
    let p = path_seq(s, tgt, c, n);
    if n == 0 {
        assert(reach(s, tgt, c, 0));
        assert(p[0] == c);
    } else {
        lemma_first_dir_good(s, tgt, c, n);
        let d = first_dir(s, tgt, c, (n - 1) as nat);
        let c2 = d.spec_step(c);
        lemma_path_seq_props(s, tgt, c2, (n - 1) as nat);
        let p2 = path_seq(s, tgt, c2, (n - 1) as nat);
        assert(p == seq![c] + p2);
        assert forall|i: int| 0 <= i <= n implies is_min_dist(
            s,
            tgt,
            #[trigger] p[i],
            (n - i) as nat,
        ) && passable(s, p[i]) by {
            if i == 0 {
                assert(p[i] == c);
                assert(reach(s, tgt, c, n));
            } else {
                assert(p[i] == p2[i - 1]);
                assert(reach(s, tgt, p2[i - 1], (n - i) as nat));
            }
        }
        assert forall|i: int| 0 <= i < n implies #[trigger] p[i + 1] == first_dir(
            s,
            tgt,
            p[i],
            (n - i - 1) as nat,
        ).spec_step(p[i]) by {
            if i == 0 {
                assert(p[0] == c && p[1] == p2[0] && p2[0] == c2);
            } else {
                assert(p[i] == p2[i - 1] && p[i + 1] == p2[i]);
                assert(p2[(i - 1) + 1] == first_dir(
                    s,
                    tgt,
                    p2[i - 1],
                    ((n - 1) - (i - 1) - 1) as nat,
                ).spec_step(p2[i - 1]));
            }
        }
        assert(p[n as int] == p2[n - 1]);
    }
}

/// What passability means for a pathfinding run: every cell the returned
/// path may stand on lies inside the grid, and is a body cell only when it
/// is the search origin itself. The path never steps through an occupied
/// cell and never leaves the grid bounds.
pub proof fn lemma_passable_meaning(
    g: Grid,
    occ: Seq<GhostCell>,
    start: GhostCell,
    c: GhostCell,
)
    requires
        passable(path_space(g, occ, start), c),
    ensures
        g.contains(c),
        occ.contains(c) ==> c == start,
{
}

/// Consecutive cells of the sequence are one unit step apart.
pub open spec fn chained(p: Seq<GhostCell>) -> bool
    decreases p.len(),
{
    p.len() <= 1 || ((exists|d: Direction| d.spec_step(p[0]) == p[1]) && chained(p.skip(1)))
}

/// A concrete route: consecutive cells one step apart, all passable, leading
/// from `a` to `b`.
pub open spec fn valid_path(s: SearchSpace, p: Seq<GhostCell>, a: GhostCell, b: GhostCell) -> bool {
    &&& p.len() >= 1
    &&& p[0] == a
    &&& p[p.len() - 1] == b
    &&& forall|i: int| 0 <= i < p.len() ==> passable(s, #[trigger] p[i])
    &&& chained(p)
}

/// Any route witnesses reachability, with its step count as route length.
pub proof fn lemma_valid_path_reach(s: SearchSpace, p: Seq<GhostCell>, a: GhostCell, b: GhostCell)
    requires
        valid_path(s, p, a, b),
    ensures
        reach(s, b, a, (p.len() - 1) as nat),
    decreases p.len(),
{
    if p.len() == 1 {
        assert(a == b);
    } else {
        let p2 = p.skip(1);
        assert(p2.len() == p.len() - 1);
        assert forall|i: int| 0 <= i < p2.len() implies passable(s, #[trigger] p2[i]) by {
            assert(p2[i] == p[i + 1]);
        }
        assert(p2[0] == p[1] && p2[p2.len() - 1] == p[p.len() - 1]);
        assert(valid_path(s, p2, p[1], b));
        lemma_valid_path_reach(s, p2, p[1], b);
        let d = choose|d: Direction| #[trigger] d.spec_step(p[0]) == p[1];
        lemma_reach_extend(s, b, a, d, (p.len() - 2) as nat);
    }
}

/// The greedy path is chained: each cell is one step from the next.
pub proof fn lemma_path_seq_chained(s: SearchSpace, tgt: GhostCell, c: GhostCell, n: nat)
    requires
        is_min_dist(s, tgt, c, n),
    ensures
        chained(path_seq(s, tgt, c, n)),
    decreases n,
{
    let p = path_seq(s, tgt, c, n);
    if n > 0 {
        lemma_first_dir_good(s, tgt, c, n);
        let d = first_dir(s, tgt, c, (n - 1) as nat);
        let c2 = d.spec_step(c);
        let p2 = path_seq(s, tgt, c2, (n - 1) as nat);
        lemma_path_seq_props(s, tgt, c2, (n - 1) as nat);
        lemma_path_seq_chained(s, tgt, c2, (n - 1) as nat);
        assert(p == seq![c] + p2);
        assert(p[0] == c && p[1] == p2[0] && p2[0] == c2);
        assert(d.spec_step(p[0]) == p[1]);
        assert(p.skip(1) =~= p2);
    }
}

/// No route from `a` to `tgt` is shorter than the shortest distance: the
/// path the pathfinder returns is as short as any route.
pub proof fn lemma_no_shorter_path(
    s: SearchSpace,
    tgt: GhostCell,
    a: GhostCell,
    n: nat,
    p: Seq<GhostCell>,
)
    requires
        is_min_dist(s, tgt, a, n),
        valid_path(s, p, a, tgt),
    ensures
        p.len() >= n + 1,
{
    lemma_valid_path_reach(s, p, a, tgt);
}

/// A vector of `n` clear blocked-flags.
fn filled_false(n: usize) -> (r: Vec<bool>)
    ensures
        r@.len() == n,
        forall|i: int| 0 <= i < n ==> r@[i] == false,
{
    let mut v: Vec<bool> = Vec::new();
    let mut i: usize = 0;
    while i < n
        invariant
            i <= n,
            v@.len() == i,
            forall|k: int| 0 <= k < i ==> v@[k] == false,
        decreases n - i,
    {
        v.push(false);
        i = i + 1;
    }
    v
}

/// The blocked bitmap of an occupancy snapshot: one flag per grid cell, set
/// where some occupancy entry covers the cell, except the search origin when
/// one is given. Occupancy entries outside the grid are ignored; such cells
/// are impassable anyway.
#[verifier::loop_isolation(false)]
pub fn build_blocked(g: &Grid, occupied: &Vec<Cell>, origin: Option<Cell>) -> (r: Vec<bool>)
    requires
        g.wf(),
    ensures
        r@.len() == g.area(),
        forall|c: GhostCell| #![trigger g.spec_idx(c)]
            g.contains(c) ==> (r@[g.spec_idx(c)] <==> (view_cells(occupied@).contains(c) && (match
                origin {
                Some(o) => c != o@,
                None => true,
            }))),
{
    let n = g.width * g.height;
    let mut r = filled_false(n);
    proof {
        assert forall|c: GhostCell| #![trigger g.spec_idx(c)] g.contains(c) implies !r@[g.spec_idx(
            c,
        )] by {
            lemma_idx_bounds(c.x, c.y, g.width as int, g.height as int);
        }
        assert(occupied@.take(0) =~= Seq::<Cell>::empty());
        assert(view_cells(occupied@.take(0)).len() == 0);
    }
    let mut i: usize = 0;
    while i < occupied.len()
        invariant
            i <= occupied@.len(),
            r@.len() == n,
            forall|c: GhostCell| #![trigger g.spec_idx(c)]
                g.contains(c) ==> (r@[g.spec_idx(c)] <==> (view_cells(
                    occupied@.take(i as int),
                ).contains(c) && (match origin {
                    Some(o) => c != o@,
                    None => true,
                }))),
        decreases occupied@.len() - i,
    {
        let oc = occupied[i];
        let skip = match origin {
            Some(o) => oc.x == o.x && oc.y == o.y,
            None => false,
        };
        let ghost r0 = r@;
        if !skip && g.in_bounds(oc) {
            let oi = g.index_of(oc);
            r.set(oi, true);
        }
        proof {
            let pfx0 = view_cells(occupied@.take(i as int));
            let pfx1 = view_cells(occupied@.take(i as int + 1));
            assert(occupied@.take(i as int + 1) =~= occupied@.take(i as int).push(oc));
            assert(pfx1 =~= pfx0.push(oc@));
            assert forall|c: GhostCell| pfx1.contains(c) == (pfx0.contains(c) || c == oc@) by {
                if pfx0.contains(c) {
                    let q = choose|q: int| 0 <= q < pfx0.len() && pfx0[q] == c;
                    assert(pfx1[q] == c);
                }
                if c == oc@ {
                    assert(pfx1[pfx1.len() - 1] == c);
                }
                if pfx1.contains(c) {
                    let q = choose|q: int| 0 <= q < pfx1.len() && pfx1[q] == c;
                    if q < pfx0.len() {
                        assert(pfx0[q] == c);
                    }
                }
            }
            assert forall|c: GhostCell| #![trigger g.spec_idx(c)] g.contains(c) implies (r@[g.spec_idx(
                c,
            )] <==> (pfx1.contains(c) && (match origin {
                Some(o) => c != o@,
                None => true,
            }))) by {
                lemma_idx_bounds(c.x, c.y, g.width as int, g.height as int);
                if !skip && g.contains(oc@) {
                    lemma_idx_bounds(oc.x as int, oc.y as int, g.width as int, g.height as int);
                    if c != oc@ && g.spec_idx(c) == g.spec_idx(oc@) {
                        crate::grid::lemma_idx_injective(*g, c, oc@);
                    }
                } else {
                    assert(r@ == r0);
                }
            }
        }
        i = i + 1;
    }
    proof {
        assert(occupied@.take(occupied@.len() as int) =~= occupied@);
    }
    r
}

/// One greedy step down the distance labels: the first direction in the
/// fixed order whose cell is labelled one less than the current cell.
#[verifier::loop_isolation(false)]
fn next_on_path(
    g: &Grid,
    blocked: &Vec<bool>,
    dist: &Vec<usize>,
    tgt: Cell,
    cur: Cell,
    dcur: usize,
) -> (nb: Cell)
    requires
        g.wf(),
        blocked@.len() == g.area(),
        dist@.len() == g.area(),
        forall|c: GhostCell| #![trigger g.spec_idx(c)]
            g.contains(c) ==> ((dist@[g.spec_idx(c)] != usize::MAX) <==> reachable(
                space_of(*g, blocked@),
                tgt@,
                c,
            )),
        forall|c: GhostCell| #![trigger g.spec_idx(c)]
            g.contains(c) && dist@[g.spec_idx(c)] != usize::MAX ==> is_min_dist(
                space_of(*g, blocked@),
                tgt@,
                c,
                dist@[g.spec_idx(c)] as nat,
            ) && dist@[g.spec_idx(c)] <= g.area(),
        g.contains(cur@),
        is_min_dist(space_of(*g, blocked@), tgt@, cur@, dcur as nat),
        1 <= dcur <= g.area(),
    ensures
        nb@ == first_dir(space_of(*g, blocked@), tgt@, cur@, (dcur - 1) as nat).spec_step(cur@),
        g.contains(nb@),
        is_min_dist(space_of(*g, blocked@), tgt@, nb@, (dcur - 1) as nat),
{
    let ghost s = space_of(*g, blocked@);
    let want = dcur - 1;
    proof {
        lemma_first_dir_good(s, tgt@, cur@, dcur as nat);
    }
    match g.step(cur, Direction::PosX) {
        Some(c2) => {
            let bi = g.index_of(c2);
            if dist[bi] == want {
                proof {
                    assert(is_min_dist(s, tgt@, c2@, want as nat));
                }
                return c2;
            }
        },
        None => {},
    }
    proof {
        assert(!good_dir(s, tgt@, cur@, Direction::PosX, want as nat)) by {
            if good_dir(s, tgt@, cur@, Direction::PosX, want as nat) {
                let c2 = Direction::PosX.spec_step(cur@);
                assert(passable(s, c2) && g.contains(c2));
            }
        }
    }
    match g.step(cur, Direction::NegX) {
        Some(c2) => {
            let bi = g.index_of(c2);
            if dist[bi] == want {
                return c2;
            }
        },
        None => {},
    }
    proof {
        assert(!good_dir(s, tgt@, cur@, Direction::NegX, want as nat)) by {
            if good_dir(s, tgt@, cur@, Direction::NegX, want as nat) {
                let c2 = Direction::NegX.spec_step(cur@);
                assert(passable(s, c2) && g.contains(c2));
            }
        }
    }
    match g.step(cur, Direction::PosY) {
        Some(c2) => {
            let bi = g.index_of(c2);
            if dist[bi] == want {
                return c2;
            }
        },
        None => {},
    }
    proof {
        assert(!good_dir(s, tgt@, cur@, Direction::PosY, want as nat)) by {
            if good_dir(s, tgt@, cur@, Direction::PosY, want as nat) {
                let c2 = Direction::PosY.spec_step(cur@);
                assert(passable(s, c2) && g.contains(c2));
            }
        }
    }
    proof {
        assert(good_dir(s, tgt@, cur@, Direction::NegY, want as nat));
        assert(g.contains(Direction::NegY.spec_step(cur@)));
    }
    match g.step(cur, Direction::NegY) {
        Some(c2) => {
            proof {
                assert(c2@ == Direction::NegY.spec_step(cur@));
            }
            c2
        },
        None => {
            proof {
                assert(false);
            }
            cur
        },
    }
}

/// The shortest 4-connected path from `start` to `goal`, the snake's body
/// blocking the way except at the search origin `start`.
///
/// Returns the cells from `start` to `goal` inclusive, or an empty vector
/// when `goal` cannot be reached (also when `start` lies outside the grid).
/// The result is pinned to `path_seq`, the greedy walk down the shortest
/// distances with the fixed tie order +X, -X, +Y, -Y, so repeated calls on
/// identical inputs return identical paths, also under tie conditions.
#[verifier::loop_isolation(false)]
#[verifier::rlimit(100)]
pub fn find_path(g: &Grid, start: Cell, goal: Cell, occupied: &Vec<Cell>) -> (path: Vec<Cell>)
    requires
        g.wf(),
    ensures
        (path@.len() != 0) == reachable(
            path_space(*g, view_cells(occupied@), start@),
            goal@,
            start@,
        ),
        forall|n: nat|
            is_min_dist(path_space(*g, view_cells(occupied@), start@), goal@, start@, n)
                ==> view_cells(path@) == path_seq(
                path_space(*g, view_cells(occupied@), start@),
                goal@,
                start@,
                n,
            ),
        path@.len() != 0 ==> path@[0]@ == start@ && path@[path@.len() - 1]@ == goal@,
        path@.len() != 0 ==> is_min_dist(
            path_space(*g, view_cells(occupied@), start@),
            goal@,
            start@,
            (path@.len() - 1) as nat,
        ),
        forall|i: int|
            0 <= i < path@.len() ==> passable(
                path_space(*g, view_cells(occupied@), start@),
                #[trigger] path@[i]@,
            ),
        chained(view_cells(path@)),
        path@.len() != 0 ==> valid_path(
            path_space(*g, view_cells(occupied@), start@),
            view_cells(path@),
            start@,
            goal@,
        ),
{
    let ghost s = path_space(*g, view_cells(occupied@), start@);
    let blocked = build_blocked(g, occupied, Some(start));
    proof {
        assert forall|c: GhostCell| space_of(*g, blocked@).blocked.contains(c)
            == s.blocked.contains(c) by {
            if g.contains(c) {
                lemma_idx_bounds(c.x, c.y, g.width as int, g.height as int);
            }
        }
        assert(space_of(*g, blocked@).blocked =~= s.blocked);
        assert(space_of(*g, blocked@) == s);
    }
    let mut result: Vec<Cell> = Vec::new();
    if !g.in_bounds(start) {
        proof {
            assert forall|n: nat| !reach(s, goal@, start@, n) by {
                assert(!passable(s, start@));
            }
        }
        return result;
    }
    let (dist, _area) = bfs_distances(g, &blocked, goal);
    let si = g.index_of(start);
    if dist[si] == usize::MAX {
        return result;
    }
    let n0 = dist[si];
    proof {
        assert(is_min_dist(s, goal@, start@, n0 as nat));
        lemma_path_seq_props(s, goal@, start@, n0 as nat);
    }
    let ghost total = path_seq(s, goal@, start@, n0 as nat);
    let mut cur = start;
    let mut d = n0;
    result.push(cur);
    proof {
        assert(view_cells(result@) =~= total.take(1));
    }
    while d > 0
        invariant
            d <= n0,
            result@.len() == n0 - d + 1,
            cur == result@[result@.len() - 1],
            g.contains(cur@),
            cur@ == total[n0 - d],
            is_min_dist(s, goal@, cur@, d as nat),
            view_cells(result@) == total.take(n0 - d + 1),
        decreases d,
    {
        let nb = next_on_path(g, &blocked, &dist, goal, cur, d);
        proof {
            let i = n0 - d;
            assert(total[i + 1] == first_dir(s, goal@, total[i], (n0 - i - 1) as nat).spec_step(
                total[i],
            ));
            assert(nb@ == total[i + 1]);
            assert(view_cells(result@.push(nb)) =~= view_cells(result@).push(nb@));
            assert(total.take(i + 2) =~= total.take(i + 1).push(total[i + 1]));
        }
        result.push(nb);
        cur = nb;
        d = d - 1;
    }
    proof {
        assert(view_cells(result@) == total.take(n0 + 1));
        assert(total.take(n0 + 1) =~= total);
        assert(view_cells(result@) == total);
        assert(result@.len() == n0 + 1);
        assert forall|n: nat| is_min_dist(s, goal@, start@, n) implies view_cells(result@)
            == path_seq(s, goal@, start@, n) by {
            lemma_min_unique(s, goal@, start@, n, n0 as nat);
        }
        assert forall|i: int| 0 <= i < result@.len() implies passable(
            s,
            #[trigger] result@[i]@,
        ) by {
            assert(result@[i]@ == view_cells(result@)[i]);
        }
        lemma_path_seq_chained(s, goal@, start@, n0 as nat);
        assert(result@[0]@ == total[0]);
        assert(result@[result@.len() - 1]@ == total[n0 as int]);
        assert forall|i: int| 0 <= i < view_cells(result@).len() implies passable(
            s,
            #[trigger] view_cells(result@)[i],
        ) by {
            assert(view_cells(result@)[i] == result@[i]@);
        }
        assert(view_cells(result@)[0] == start@);
        assert(view_cells(result@)[view_cells(result@).len() - 1] == goal@);
        assert(valid_path(s, view_cells(result@), start@, goal@));
    }
    result
}

/// The direction leading from `from` to `to`, when `to` is one unit step
/// away.
fn step_dir(from: Cell, to: Cell) -> (r: Option<Direction>)
    ensures
        match r {
            Some(d) => d.spec_step(from@) == to@,
            None => forall|d: Direction| (#[trigger] d.spec_step(from@)) != to@,
        },
{
    if to.y == from.y {
        if to.x > from.x && to.x - from.x == 1 {
            Some(Direction::PosX)
        } else if from.x > to.x && from.x - to.x == 1 {
            Some(Direction::NegX)
        } else {
            None
        }
    } else if to.x == from.x {
        if to.y > from.y && to.y - from.y == 1 {
            Some(Direction::PosY)
        } else if from.y > to.y && from.y - to.y == 1 {
            Some(Direction::NegY)
        } else {
            None
        }
    } else {
        None
    }
}

/// The single externally needed result of a pathfinding run: the first step
/// after `start` on the shortest path to `goal`, as a direction.
///
/// No direction is emitted when no path exists, nor when the path has fewer
/// than two cells -- in particular, when `start` equals `goal` the head
/// already stands on the goal and no step is produced.
#[verifier::loop_isolation(false)]
pub fn path_next_step(g: &Grid, start: Cell, goal: Cell, occupied: &Vec<Cell>) -> (r: Option<
    Direction,
>)
    requires
        g.wf(),
    ensures
        forall|n: nat|
            is_min_dist(path_space(*g, view_cells(occupied@), start@), goal@, start@, n) && n >= 1
                ==> r == Some(
                first_dir(
                    path_space(*g, view_cells(occupied@), start@),
                    goal@,
                    start@,
                    (n - 1) as nat,
                ),
            ),
        (!reachable(path_space(*g, view_cells(occupied@), start@), goal@, start@) || is_min_dist(
            path_space(*g, view_cells(occupied@), start@),
            goal@,
            start@,
            0,
        )) ==> r is None,
        start@ == goal@ ==> r is None,
{
    let ghost s = path_space(*g, view_cells(occupied@), start@);
    let path = find_path(g, start, goal, occupied);
    proof {
        if start@ == goal@ && reachable(s, goal@, start@) {
            let n = choose|n: nat| reach(s, goal@, start@, n);
            assert(passable(s, start@));
            assert(reach(s, goal@, start@, 0));
            assert(is_min_dist(s, goal@, start@, 0));
        }
    }
    if path.len() >= 2 {
        let ghost n0 = (path@.len() - 1) as nat;
        proof {
            assert(is_min_dist(s, goal@, start@, n0));
            assert(view_cells(path@) == path_seq(s, goal@, start@, n0));
            lemma_path_seq_props(s, goal@, start@, n0);
            assert(path@[1]@ == path_seq(s, goal@, start@, n0)[1]);
            assert(path@[1]@ == first_dir(s, goal@, start@, (n0 - 1) as nat).spec_step(start@));
            assert(path@[0]@ == start@);
        }
        let d = step_dir(path[0], path[1]);
        proof {
            let fd = first_dir(s, goal@, start@, (n0 - 1) as nat);
            match d {
                Some(dd) => {
                    crate::grid::lemma_dir_unique(dd, fd, start@);
                },
                None => {
                    assert(fd.spec_step(path@[0]@) == path@[1]@);
                    assert(false);
                },
            }
            assert forall|n: nat|
                is_min_dist(s, goal@, start@, n) && n >= 1 implies d == Some(
                first_dir(s, goal@, start@, (n - 1) as nat),
            ) by {
                lemma_min_unique(s, goal@, start@, n, n0);
            }
        }
        d
    } else {
        proof {
            if path.len() == 1 {
                assert(is_min_dist(s, goal@, start@, 0));
            }
            assert forall|n: nat|
                is_min_dist(s, goal@, start@, n) && n >= 1 implies false by {
                if path.len() == 0 {
                    let m = lemma_min_exists(s, goal@, start@, n);
                    assert(reachable(s, goal@, start@));
                } else {
                    lemma_min_unique(s, goal@, start@, n, 0);
                }
            }
        }
        None
    }
}

} // verus!
