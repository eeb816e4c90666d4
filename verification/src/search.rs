//! Reachability over free cells, and the breadth-first search that computes,
//! for every cell, its exact shortest 4-connected distance to a target cell.
//! The pathfinder and the survival evaluator are both built on this search.

use vstd::prelude::*;
use crate::grid::{Cell, Direction, Grid, GhostCell};
use crate::grid::{dir_at, dir_for, lemma_dir_covered, lemma_step_opposite, lemma_idx_bounds,
    lemma_idx_injective};

verus! {

broadcast use vstd::set::group_set_axioms;

/// The arena one search runs in: a grid and the set of cells that may not
/// be entered.
pub struct SearchSpace {
    pub grid: Grid,
    pub blocked: Set<GhostCell>,
}

/// A cell a search may stand on: inside the grid and not blocked.
pub open spec fn passable(s: SearchSpace, c: GhostCell) -> bool {
    s.grid.contains(c) && !s.blocked.contains(c)
}

/// `c` reaches `tgt` in exactly `n` unit steps, every cell on the way
/// (both endpoints included) passable.
pub open spec fn reach(s: SearchSpace, tgt: GhostCell, c: GhostCell, n: nat) -> bool
    decreases n,
{
    passable(s, c) && if n == 0 {
        c == tgt
    } else {
        exists|d: Direction| reach(s, tgt, d.spec_step(c), (n - 1) as nat)
    }
}

/// `c` reaches `tgt` in some number of unit steps over passable cells.
pub open spec fn reachable(s: SearchSpace, tgt: GhostCell, c: GhostCell) -> bool {
    exists|n: nat| reach(s, tgt, c, n)
}

/// `n` is the length of a shortest passable route from `c` to `tgt`.
pub open spec fn is_min_dist(s: SearchSpace, tgt: GhostCell, c: GhostCell, n: nat) -> bool {
    reach(s, tgt, c, n) && forall|m: nat| m < n ==> !reach(s, tgt, c, m)
}

/// All cells from which `tgt` can be reached over passable cells.
pub open spec fn region(s: SearchSpace, tgt: GhostCell) -> Set<GhostCell> {
    Set::new(|c: GhostCell| reachable(s, tgt, c))
}

/// A route of some length yields a route of minimal length.
pub proof fn lemma_min_exists(s: SearchSpace, tgt: GhostCell, c: GhostCell, n: nat) -> (m: nat)
    requires
        reach(s, tgt, c, n),
    ensures
        m <= n,
        is_min_dist(s, tgt, c, m),
    decreases n,
{
    if forall|k: nat| k < n ==> !reach(s, tgt, c, k) {
        n
    } else {
        let k = choose|k: nat| k < n && reach(s, tgt, c, k);
        lemma_min_exists(s, tgt, c, k)
    }
}

/// Shortest route lengths are unique.
pub proof fn lemma_min_unique(s: SearchSpace, tgt: GhostCell, c: GhostCell, n1: nat, n2: nat)
    requires
        is_min_dist(s, tgt, c, n1),
        is_min_dist(s, tgt, c, n2),
    ensures
        n1 == n2,
{
}

/// Extending a route by one adjacent passable cell.
pub proof fn lemma_reach_extend(s: SearchSpace, tgt: GhostCell, c: GhostCell, d: Direction, n: nat)
    requires
        passable(s, c),
        reach(s, tgt, d.spec_step(c), n),
    ensures
        reach(s, tgt, c, n + 1),
{
}

/// A cell one step along a shortest route has a shortest route one shorter.
pub proof fn lemma_min_step(s: SearchSpace, tgt: GhostCell, c: GhostCell, n: nat) -> (d: Direction)
    requires
        is_min_dist(s, tgt, c, n),
        n >= 1,
    ensures
        is_min_dist(s, tgt, d.spec_step(c), (n - 1) as nat),
{
    let d = choose|d: Direction| reach(s, tgt, d.spec_step(c), (n - 1) as nat);
    let nb = d.spec_step(c);
    let m = lemma_min_exists(s, tgt, nb, (n - 1) as nat);
    if m < n - 1 {
        lemma_reach_extend(s, tgt, c, d, m);
        assert(reach(s, tgt, c, (m + 1) as nat));
        assert(false);
    }
    d
}

/// When the target itself is not passable, no cell reaches it.
pub proof fn lemma_unreachable_target(s: SearchSpace, tgt: GhostCell)
    requires
        !passable(s, tgt),
    ensures
        forall|c: GhostCell| !reachable(s, tgt, c),
        region(s, tgt) =~= Set::<GhostCell>::empty(),
        region(s, tgt).len() == 0,
{
    assert forall|c: GhostCell| !reachable(s, tgt, c) by {
        if reachable(s, tgt, c) {
            let n = choose|n: nat| reach(s, tgt, c, n);
            lemma_no_reach_unpassable_target(s, tgt, c, n);
        }
    }
}

proof fn lemma_no_reach_unpassable_target(s: SearchSpace, tgt: GhostCell, c: GhostCell, n: nat)
    requires
        !passable(s, tgt),
    ensures
        !reach(s, tgt, c, n),
    decreases n,
{
    if n > 0 && reach(s, tgt, c, n) {
        let d = choose|d: Direction| reach(s, tgt, d.spec_step(c), (n - 1) as nat);
        lemma_no_reach_unpassable_target(s, tgt, d.spec_step(c), (n - 1) as nat);
    }
}

/// The target reaches itself in zero steps whenever it is passable.
pub proof fn lemma_target_in_region(s: SearchSpace, tgt: GhostCell)
    requires
        passable(s, tgt),
    ensures
        reach(s, tgt, tgt, 0),
        is_min_dist(s, tgt, tgt, 0),
        region(s, tgt).contains(tgt),
{
}

/// The search space described by a grid and a row-by-row bitmap of blocked
/// cells.
pub open spec fn space_of(g: Grid, bl: Seq<bool>) -> SearchSpace {
    SearchSpace { grid: g, blocked: Set::new(|c: GhostCell| g.contains(c) && bl[g.spec_idx(c)]) }
}

/// The cells a distance array marks as visited (any value but the sentinel).
pub open spec fn seen_cells(g: Grid, dist: Seq<usize>) -> Set<GhostCell> {
    Set::new(|c: GhostCell| g.contains(c) && dist[g.spec_idx(c)] != usize::MAX)
}

/// Whether some cell of a vector views to `c`.
pub open spec fn in_cellvec(fr: Seq<Cell>, c: GhostCell) -> bool {
    exists|k: int| 0 <= k < fr.len() && fr[k]@ == c
}

pub proof fn lemma_in_cellvec_push(fr: Seq<Cell>, nb: Cell, c: GhostCell)
    ensures
        in_cellvec(fr.push(nb), c) <==> (in_cellvec(fr, c) || c == nb@),
{
    if in_cellvec(fr, c) {
        let k = choose|k: int| 0 <= k < fr.len() && fr[k]@ == c;
        assert(fr.push(nb)[k]@ == c);
    }
    if c == nb@ {
        assert(fr.push(nb)[fr.len() as int]@ == c);
    }
    if in_cellvec(fr.push(nb), c) {
        let k = choose|k: int| 0 <= k < fr.push(nb).len() && fr.push(nb)[k]@ == c;
        if k < fr.len() {
            assert(fr[k]@ == c);
        }
    }
}

spec fn rect(w: int, h: int) -> Set<GhostCell> {
    Set::new(|c: GhostCell| 0 <= c.x < w && 0 <= c.y < h)
}

spec fn row(w: int, y: int) -> Set<GhostCell> {
    Set::new(|c: GhostCell| 0 <= c.x < w && c.y == y)
}

proof fn lemma_row_len(w: int, y: int)
    requires
        w >= 0,
    ensures
        row(w, y).finite(),
        row(w, y).len() == w,
    decreases w,
{
    if w == 0 {
        assert(row(0, y) =~= Set::<GhostCell>::empty());
    } else {
        lemma_row_len(w - 1, y);
        assert(row(w, y) =~= row(w - 1, y).insert(GhostCell { x: w - 1, y }));
    }
}

proof fn lemma_rect_len(w: int, h: int)
    requires
        w >= 0,
        h >= 0,
    ensures
        rect(w, h).finite(),
        rect(w, h).len() == w * h,
    decreases h,
{
    if h == 0 {
        assert(rect(w, 0) =~= Set::<GhostCell>::empty());
        assert(w * 0 == 0) by (nonlinear_arith);
    } else {
        lemma_rect_len(w, h - 1);
        lemma_row_len(w, h - 1);
        assert(rect(w, h) =~= rect(w, h - 1).union(row(w, h - 1)));
        assert(rect(w, h - 1).disjoint(row(w, h - 1)));
        vstd::set_lib::lemma_set_disjoint_lens(rect(w, h - 1), row(w, h - 1));
        assert(w * h == w * (h - 1) + w) by (nonlinear_arith);
    }
}

/// Every cell of the grid, as a finite set of `g.area()` cells.
pub proof fn lemma_grid_cells(g: Grid)
    requires
        g.wf(),
    ensures
        Set::new(|c: GhostCell| g.contains(c)).finite(),
        Set::new(|c: GhostCell| g.contains(c)).len() == g.area(),
{
    lemma_rect_len(g.width as int, g.height as int);
    assert(Set::new(|c: GhostCell| g.contains(c)) =~= rect(g.width as int, g.height as int));
    assert(g.width * g.height == (g.width as int) * (g.height as int)) by (nonlinear_arith);
}

/// The visited set is a subset of the grid, hence finite and no larger than
/// the grid's area.
pub proof fn lemma_seen_bound(g: Grid, dist: Seq<usize>)
    requires
        g.wf(),
    ensures
        seen_cells(g, dist).finite(),
        seen_cells(g, dist).len() <= g.area(),
{
    lemma_grid_cells(g);
    vstd::set_lib::lemma_len_subset(seen_cells(g, dist), Set::new(|c: GhostCell| g.contains(c)));
}

/// Marking one unvisited cell grows the visited set by exactly that cell.
pub proof fn lemma_seen_insert(g: Grid, dist: Seq<usize>, c: GhostCell, v: usize)
    requires
        g.wf(),
        dist.len() == g.area(),
        g.contains(c),
        dist[g.spec_idx(c)] == usize::MAX,
        v != usize::MAX,
    ensures
        seen_cells(g, dist.update(g.spec_idx(c), v)) =~= seen_cells(g, dist).insert(c),
        seen_cells(g, dist.update(g.spec_idx(c), v)).len() == seen_cells(g, dist).len() + 1,
{
    lemma_idx_bounds(c.x, c.y, g.width as int, g.height as int);
    assert(0 <= g.spec_idx(c) < dist.len());
    let dist2 = dist.update(g.spec_idx(c), v);
    assert forall|cc: GhostCell| seen_cells(g, dist2).contains(cc) == seen_cells(
        g,
        dist,
    ).insert(c).contains(cc) by {
        if g.contains(cc) {
            lemma_idx_bounds(cc.x, cc.y, g.width as int, g.height as int);
            if cc != c && g.spec_idx(cc) == g.spec_idx(c) {
                lemma_idx_injective(g, cc, c);
            }
        }
    }
    assert(seen_cells(g, dist2) =~= seen_cells(g, dist).insert(c));
    lemma_seen_bound(g, dist);
    vstd::set::axiom_set_insert_len(seen_cells(g, dist), c);
}

/// Every visited cell's recorded value is its exact shortest distance to the
/// target.
pub open spec fn inv_exact(g: Grid, s: SearchSpace, tgt: GhostCell, dist: Seq<usize>) -> bool {
    forall|c: GhostCell| #![trigger g.spec_idx(c)]
        g.contains(c) && dist[g.spec_idx(c)] != usize::MAX ==> is_min_dist(
            s,
            tgt,
            c,
            dist[g.spec_idx(c)] as nat,
        )
}

/// A cell is visited exactly when its shortest distance is at most `lvl`.
pub open spec fn inv_seen_up_to(
    g: Grid,
    s: SearchSpace,
    tgt: GhostCell,
    dist: Seq<usize>,
    lvl: int,
) -> bool {
    forall|c: GhostCell| #![trigger g.spec_idx(c)]
        g.contains(c) ==> ((dist[g.spec_idx(c)] != usize::MAX) <==> (exists|m: nat|
            m <= lvl && reach(s, tgt, c, m)))
}

/// No recorded value exceeds `lvl`.
pub open spec fn inv_values_le(g: Grid, dist: Seq<usize>, lvl: int) -> bool {
    forall|c: GhostCell| #![trigger g.spec_idx(c)]
        g.contains(c) && dist[g.spec_idx(c)] != usize::MAX ==> dist[g.spec_idx(c)] <= lvl
}

/// Every passable neighbour of a visited cell with value below `lvl` has been
/// visited in turn.
pub open spec fn inv_neighbors_done(g: Grid, s: SearchSpace, dist: Seq<usize>, lvl: int) -> bool {
    forall|c: GhostCell, d: Direction| #![trigger d.spec_step(c), g.spec_idx(c)]
        g.contains(c) && dist[g.spec_idx(c)] != usize::MAX && dist[g.spec_idx(c)] < lvl && passable(
            s,
            d.spec_step(c),
        ) ==> dist[g.spec_idx(d.spec_step(c))] != usize::MAX
}

/// Every cell of the frontier is in the grid and recorded at value `lvl`.
pub open spec fn frontier_ok(g: Grid, dist: Seq<usize>, fr: Seq<Cell>, lvl: int) -> bool {
    forall|k: int|
        0 <= k < fr.len() ==> g.contains(#[trigger] fr[k]@) && dist[g.spec_idx(fr[k]@)] == lvl
}

/// Every cell recorded at value `lvl` stands in the frontier.
pub open spec fn frontier_complete(g: Grid, dist: Seq<usize>, fr: Seq<Cell>, lvl: int) -> bool {
    forall|c: GhostCell| #![trigger g.spec_idx(c)]
        g.contains(c) && dist[g.spec_idx(c)] == lvl ==> in_cellvec(fr, c)
}

/// A vector of `n` sentinel distance values.
fn filled_sentinel(n: usize) -> (r: Vec<usize>)
    ensures
        r@.len() == n,
        forall|i: int| 0 <= i < n ==> r@[i] == usize::MAX,
{
    let mut v: Vec<usize> = Vec::new();
    let mut i: usize = 0;
    while i < n
        invariant
            i <= n,
            v@.len() == i,
            forall|k: int| 0 <= k < i ==> v@[k] == usize::MAX,
        decreases n - i,
    {
        v.push(usize::MAX);
        i = i + 1;
    }
    v
}

proof fn lemma_area_pos(w: int, h: int)
    by (nonlinear_arith)
    requires
        w >= 1,
        h >= 1,
    ensures
        w * h >= 1,
{
}

/// Once a visited frontier has no successors left, every route to the target
/// ends at a visited cell.
proof fn lemma_bfs_complete(
    g: Grid,
    s: SearchSpace,
    tgt: GhostCell,
    dist: Seq<usize>,
    lvl: int,
    c: GhostCell,
    n: nat,
)
    requires
        g.wf(),
        s.grid == g,
        dist.len() == g.area(),
        lvl >= 0,
        inv_exact(g, s, tgt, dist),
        inv_seen_up_to(g, s, tgt, dist, lvl),
        inv_values_le(g, dist, lvl),
        inv_neighbors_done(g, s, dist, lvl),
        forall|cc: GhostCell| #![trigger g.spec_idx(cc)]
            g.contains(cc) ==> dist[g.spec_idx(cc)] != lvl,
        reach(s, tgt, c, n),
    ensures
        g.contains(c),
        dist[g.spec_idx(c)] != usize::MAX,
    decreases n,
{
    assert(passable(s, c));
    if n == 0 {
        assert(c == tgt);
        assert(exists|m: nat| m <= lvl && reach(s, tgt, c, m));
    } else {
        let d = choose|d: Direction| reach(s, tgt, d.spec_step(c), (n - 1) as nat);
        let nb = d.spec_step(c);
        lemma_bfs_complete(g, s, tgt, dist, lvl, nb, (n - 1) as nat);
        lemma_step_opposite(d, c);
        assert(dist[g.spec_idx(nb)] < lvl);
        assert(d.spec_opposite().spec_step(nb) == c);
        assert(dist[g.spec_idx(d.spec_opposite().spec_step(nb))] != usize::MAX);
    }
}

/// Breadth-first search over `space_of(*g, blocked@)` towards `tgt`.
///
/// Returns one distance slot per grid cell -- `usize::MAX` for cells from
/// which `tgt` cannot be reached, the exact shortest 4-connected distance
/// for the others -- together with the number of cells that reach `tgt`.
/// The frontier is expanded level by level, so the result is a function of
/// the inputs alone.
#[verifier::loop_isolation(false)]
#[verifier::rlimit(100)]
pub fn bfs_distances(g: &Grid, blocked: &Vec<bool>, tgt: Cell) -> (r: (Vec<usize>, usize))
    requires
        g.wf(),
        blocked@.len() == g.area(),
    ensures
        r.0@.len() == g.area(),
        forall|c: GhostCell| #![trigger g.spec_idx(c)]
            g.contains(c) ==> ((r.0@[g.spec_idx(c)] != usize::MAX) <==> reachable(
                space_of(*g, blocked@),
                tgt@,
                c,
            )),
        forall|c: GhostCell| #![trigger g.spec_idx(c)]
            g.contains(c) && r.0@[g.spec_idx(c)] != usize::MAX ==> is_min_dist(
                space_of(*g, blocked@),
                tgt@,
                c,
                r.0@[g.spec_idx(c)] as nat,
            ) && r.0@[g.spec_idx(c)] <= g.area(),
        r.1 == region(space_of(*g, blocked@), tgt@).len(),
        region(space_of(*g, blocked@), tgt@).finite(),
{
    let ghost s = space_of(*g, blocked@);
    let n = g.width * g.height;
    let mut dist: Vec<usize> = filled_sentinel(n);
    proof {
        lemma_area_pos(g.width as int, g.height as int);
        assert forall|c: GhostCell| !seen_cells(*g, dist@).contains(c) by {
            if g.contains(c) {
                lemma_idx_bounds(c.x, c.y, g.width as int, g.height as int);
            }
        }
        assert(seen_cells(*g, dist@) =~= Set::<GhostCell>::empty());
        lemma_grid_cells(*g);
    }
    // A target outside the grid, or blocked, is reachable from nowhere.
    let tgt_free = if g.in_bounds(tgt) {
        let ti = g.index_of(tgt);
        !blocked[ti]
    } else {
        false
    };
    if !tgt_free {
        proof {
            assert(!passable(s, tgt@));
            lemma_unreachable_target(s, tgt@);
            assert forall|c: GhostCell| #![trigger g.spec_idx(c)] g.contains(c) implies dist@[g.spec_idx(
                c,
            )] == usize::MAX by {
                lemma_idx_bounds(c.x, c.y, g.width as int, g.height as int);
            }
            assert(region(s, tgt@).finite());
        }
        return (dist, 0);
    }
    let ti = g.index_of(tgt);
    proof {
        assert(passable(s, tgt@));
    }
    let ghost dist_init = dist@;
    dist.set(ti, 0);
    let mut frontier: Vec<Cell> = Vec::new();
    frontier.push(tgt);
    let mut level: usize = 0;
    let mut count: usize = 1;
    proof {
        lemma_seen_insert(*g, dist_init, tgt@, 0);
        assert(seen_cells(*g, dist_init) =~= Set::<GhostCell>::empty());
        assert(seen_cells(*g, dist@).len() == 1);
        lemma_target_in_region(s, tgt@);
        assert forall|c: GhostCell| #![trigger g.spec_idx(c)] g.contains(c) implies ((dist@[g.spec_idx(
            c,
        )] != usize::MAX) <==> (exists|m: nat| m <= 0 && reach(s, tgt@, c, m))) by {
            lemma_idx_bounds(c.x, c.y, g.width as int, g.height as int);
            if dist@[g.spec_idx(c)] != usize::MAX {
                if c != tgt@ {
                    lemma_idx_injective(*g, c, tgt@);
                }
                assert(c == tgt@);
                assert(reach(s, tgt@, c, 0));
            }
            if exists|m: nat| m <= 0 && reach(s, tgt@, c, m) {
                assert(reach(s, tgt@, c, 0));
                assert(c == tgt@);
            }
        }
        assert(frontier@[0] == tgt);
    }
    while frontier.len() > 0
        invariant
            dist@.len() == n,
            passable(s, tgt@),
            inv_exact(*g, s, tgt@, dist@),
            inv_seen_up_to(*g, s, tgt@, dist@, level as int),
            inv_values_le(*g, dist@, level as int),
            inv_neighbors_done(*g, s, dist@, level as int),
            frontier_ok(*g, dist@, frontier@, level as int),
            frontier_complete(*g, dist@, frontier@, level as int),
            count == seen_cells(*g, dist@).len(),
            count <= n,
            level + frontier@.len() <= count,
        decreases n - count, frontier@.len(),
    {
        let ghost dist0 = dist@;
        let ghost count0 = count as int;
        let ghost lvl = level as int;
        proof {
            assert(0 <= lvl && lvl < n);
            assert(inv_exact(*g, s, tgt@, dist0));
            assert(inv_seen_up_to(*g, s, tgt@, dist0, lvl));
            assert(inv_values_le(*g, dist0, lvl));
            assert(inv_neighbors_done(*g, s, dist0, lvl));
            assert(frontier_ok(*g, dist0, frontier@, lvl));
            assert(frontier_complete(*g, dist0, frontier@, lvl));
        }
        let newlevel = level + 1;
        proof {
            assert(newlevel == lvl + 1 && newlevel <= n);
        }
        let mut next: Vec<Cell> = Vec::new();
        let mut j: usize = 0;
        while j < frontier.len()
            invariant
                j <= frontier@.len(),
                dist@.len() == n,
                forall|i: int| 0 <= i < n && dist0[i] != usize::MAX ==> dist@[i] == dist0[i],
                forall|c: GhostCell| #![trigger g.spec_idx(c)]
                    g.contains(c) ==> ((dist@[g.spec_idx(c)] != usize::MAX) <==> (dist0[g.spec_idx(
                        c,
                    )] != usize::MAX || in_cellvec(next@, c))),
                forall|k: int|
                    0 <= k < next@.len() ==> g.contains(#[trigger] next@[k]@) && dist@[g.spec_idx(
                        next@[k]@,
                    )] == newlevel && dist0[g.spec_idx(next@[k]@)] == usize::MAX,
                inv_exact(*g, s, tgt@, dist@),
                inv_values_le(*g, dist@, newlevel as int),
                forall|jj: int, d: Direction| #![trigger d.spec_step(frontier@[jj]@)]
                    0 <= jj < j && passable(s, d.spec_step(frontier@[jj]@)) ==> dist@[g.spec_idx(
                        d.spec_step(frontier@[jj]@),
                    )] != usize::MAX,
                count == seen_cells(*g, dist@).len(),
                count == count0 + next@.len(),
                count <= n,
            decreases frontier@.len() - j,
        {
            let cur = frontier[j];
            proof {
                assert(g.contains(cur@) && dist0[g.spec_idx(cur@)] == lvl);
                assert(dist@[g.spec_idx(cur@)] == lvl);
            }
            let mut k: usize = 0;
            while k < 4
                invariant
                    k <= 4,
                    j < frontier@.len(),
                    cur == frontier@[j as int],
                    dist@.len() == n,
                    forall|i: int| 0 <= i < n && dist0[i] != usize::MAX ==> dist@[i] == dist0[i],
                    forall|c: GhostCell| #![trigger g.spec_idx(c)]
                        g.contains(c) ==> ((dist@[g.spec_idx(c)] != usize::MAX) <==> (dist0[g.spec_idx(
                            c,
                        )] != usize::MAX || in_cellvec(next@, c))),
                    forall|kk: int|
                        0 <= kk < next@.len() ==> g.contains(#[trigger] next@[kk]@)
                            && dist@[g.spec_idx(next@[kk]@)] == newlevel && dist0[g.spec_idx(
                            next@[kk]@,
                        )] == usize::MAX,
                    inv_exact(*g, s, tgt@, dist@),
                    inv_values_le(*g, dist@, newlevel as int),
                    forall|jj: int, d: Direction| #![trigger d.spec_step(frontier@[jj]@)]
                        0 <= jj < j && passable(s, d.spec_step(frontier@[jj]@)) ==> dist@[g.spec_idx(
                            d.spec_step(frontier@[jj]@),
                        )] != usize::MAX,
                    forall|di: int|
                        0 <= di < k && passable(s, (#[trigger] dir_at(di)).spec_step(cur@))
                            ==> dist@[g.spec_idx(dir_at(di).spec_step(cur@))] != usize::MAX,
                    count == seen_cells(*g, dist@).len(),
                    count == count0 + next@.len(),
                    count <= n,
                decreases 4 - k,
            {
                let d = dir_for(k);
                match g.step(cur, d) {
                    Some(nb) => {
                        let bi = g.index_of(nb);
                        if !blocked[bi] && dist[bi] == usize::MAX {
                            proof {
                                assert(passable(s, nb@));
                            }
                            let ghost pre = dist@;
                            let ghost next0 = next@;
                            dist.set(bi, newlevel);
                            next.push(nb);
                            count = count + 1;
                            proof {
                                lemma_seen_insert(*g, pre, nb@, newlevel);
                                assert(seen_cells(*g, dist@).len() <= g.area()) by {
                                    lemma_seen_bound(*g, dist@);
                                }
                                lemma_idx_bounds(
                                    cur.x as int,
                                    cur.y as int,
                                    g.width as int,
                                    g.height as int,
                                );
                                if g.spec_idx(cur@) == g.spec_idx(nb@) {
                                    lemma_idx_injective(*g, cur@, nb@);
                                }
                                // The new cell's shortest distance is exactly newlevel.
                                assert(dist0[g.spec_idx(cur@)] == lvl && dist@[g.spec_idx(cur@)]
                                    == lvl);
                                assert(is_min_dist(s, tgt@, cur@, lvl as nat));
                                assert(reach(s, tgt@, cur@, lvl as nat));
                                lemma_step_opposite(d, cur@);
                                lemma_reach_extend(
                                    s,
                                    tgt@,
                                    nb@,
                                    d.spec_opposite(),
                                    lvl as nat,
                                );
                                assert(reach(s, tgt@, nb@, (lvl + 1) as nat));
                                assert forall|m: nat| m < newlevel implies !reach(
                                    s,
                                    tgt@,
                                    nb@,
                                    m,
                                ) by {
                                    if reach(s, tgt@, nb@, m) {
                                        assert(exists|mm: nat|
                                            mm <= lvl && reach(s, tgt@, nb@, mm));
                                        assert(dist0[g.spec_idx(nb@)] != usize::MAX);
                                    }
                                }
                                assert(is_min_dist(s, tgt@, nb@, newlevel as nat));
                                // Membership bookkeeping for the growth invariant.
                                assert forall|c: GhostCell| #![trigger g.spec_idx(c)]
                                    g.contains(c) implies ((dist@[g.spec_idx(c)] != usize::MAX)
                                    <==> (dist0[g.spec_idx(c)] != usize::MAX || in_cellvec(
                                    next@,
                                    c,
                                ))) by {
                                    lemma_in_cellvec_push(next0, nb, c);
                                    lemma_idx_bounds(c.x, c.y, g.width as int, g.height as int);
                                    if c != nb@ && g.spec_idx(c) == g.spec_idx(nb@) {
                                        lemma_idx_injective(*g, c, nb@);
                                    }
                                }
                                assert forall|kk: int| 0 <= kk < next@.len() implies g.contains(
                                    #[trigger] next@[kk]@,
                                ) && dist@[g.spec_idx(next@[kk]@)] == newlevel && dist0[g.spec_idx(
                                    next@[kk]@,
                                )] == usize::MAX by {
                                    if kk < next0.len() {
                                        assert(next@[kk] == next0[kk]);
                                        let cc = next0[kk]@;
                                        lemma_idx_bounds(
                                            cc.x,
                                            cc.y,
                                            g.width as int,
                                            g.height as int,
                                        );
                                        if g.spec_idx(cc) != g.spec_idx(nb@) {
                                            assert(dist@[g.spec_idx(cc)] == pre[g.spec_idx(cc)]);
                                        }
                                    } else {
                                        assert(next@[kk] == nb);
                                    }
                                }
                                // The exactness and bound invariants, cell by cell.
                                assert forall|c: GhostCell| #![trigger g.spec_idx(c)]
                                    g.contains(c) && dist@[g.spec_idx(c)] != usize::MAX implies
                                    is_min_dist(s, tgt@, c, dist@[g.spec_idx(c)] as nat)
                                    && dist@[g.spec_idx(c)] <= newlevel by {
                                    lemma_idx_bounds(c.x, c.y, g.width as int, g.height as int);
                                    if g.spec_idx(c) == g.spec_idx(nb@) {
                                        if c != nb@ {
                                            lemma_idx_injective(*g, c, nb@);
                                        }
                                        assert(dist@[g.spec_idx(c)] == newlevel);
                                    } else {
                                        assert(dist@[g.spec_idx(c)] == pre[g.spec_idx(c)]);
                                    }
                                }
                                // Cells already known visited stay visited.
                                assert forall|jj: int, d2: Direction|
                                    #![trigger d2.spec_step(frontier@[jj]@)]
                                    0 <= jj < j && passable(s, d2.spec_step(frontier@[jj]@))
                                    implies dist@[g.spec_idx(d2.spec_step(frontier@[jj]@))]
                                    != usize::MAX by {
                                    let cc = d2.spec_step(frontier@[jj]@);
                                    lemma_idx_bounds(cc.x, cc.y, g.width as int, g.height as int);
                                    if g.spec_idx(cc) != g.spec_idx(nb@) {
                                        assert(dist@[g.spec_idx(cc)] == pre[g.spec_idx(cc)]);
                                    }
                                }
                                assert forall|di: int|
                                    0 <= di < k + 1 && passable(
                                        s,
                                        (#[trigger] dir_at(di)).spec_step(cur@),
                                    ) implies dist@[g.spec_idx(dir_at(di).spec_step(cur@))]
                                    != usize::MAX by {
                                    let cc = dir_at(di).spec_step(cur@);
                                    lemma_idx_bounds(cc.x, cc.y, g.width as int, g.height as int);
                                    if g.spec_idx(cc) != g.spec_idx(nb@) {
                                        assert(dist@[g.spec_idx(cc)] == pre[g.spec_idx(cc)]);
                                    }
                                }
                            }
                        }
                    },
                    None => {
                    },
                }
                k = k + 1;
            }
            proof {
                assert forall|dd: Direction| passable(s, dd.spec_step(frontier@[j as int]@)) implies
                    dist@[g.spec_idx(dd.spec_step(frontier@[j as int]@))] != usize::MAX by {
                    lemma_dir_covered(dd);
                    let di = choose|di: int| 0 <= di < 4 && dir_at(di) == dd;
                    assert(dir_at(di).spec_step(cur@) == dd.spec_step(frontier@[j as int]@));
                }
            }
            j = j + 1;
        }
        proof {
            // Close the level: every cell at shortest distance lvl + 1 is now
            // visited, and `next` is exactly the new frontier.
            assert forall|c: GhostCell, m: nat| #![trigger reach(s, tgt@, c, m)]
                m <= lvl + 1 && reach(s, tgt@, c, m) implies (g.contains(c) && dist@[g.spec_idx(c)]
                != usize::MAX) by {
                assert(passable(s, c));
                lemma_idx_bounds(c.x, c.y, g.width as int, g.height as int);
                if m <= lvl {
                    assert(exists|mm: nat| mm <= lvl && reach(s, tgt@, c, mm));
                    assert(dist0[g.spec_idx(c)] != usize::MAX);
                } else {
                    if dist@[g.spec_idx(c)] == usize::MAX {
                        assert(dist0[g.spec_idx(c)] == usize::MAX);
                        let d = choose|d: Direction| reach(s, tgt@, d.spec_step(c), (m - 1) as nat);
                        let nb = d.spec_step(c);
                        assert(reach(s, tgt@, nb, (m - 1) as nat));
                        assert(exists|mm: nat| mm <= lvl && reach(s, tgt@, nb, mm));
                        assert(dist0[g.spec_idx(nb)] != usize::MAX);
                        let v = dist0[g.spec_idx(nb)];
                        assert(is_min_dist(s, tgt@, nb, v as nat));
                        assert(v <= lvl);
                        lemma_reach_extend(s, tgt@, c, d, v as nat);
                        if v < lvl {
                            assert(exists|mm: nat| mm <= lvl && reach(s, tgt@, c, mm));
                            assert(dist0[g.spec_idx(c)] != usize::MAX);
                            assert(false);
                        } else {
                            assert(in_cellvec(frontier@, nb));
                            let kk = choose|kk: int|
                                0 <= kk < frontier@.len() && frontier@[kk]@ == nb;
                            lemma_step_opposite(d, c);
                            assert(d.spec_opposite().spec_step(frontier@[kk]@) == c);
                            assert(dist@[g.spec_idx(c)] != usize::MAX);
                            assert(false);
                        }
                    }
                }
            }
            // The invariants for the next level.
            assert forall|c: GhostCell| #![trigger g.spec_idx(c)] g.contains(c) implies ((dist@[g.spec_idx(
                c,
            )] != usize::MAX) <==> (exists|m: nat| m <= lvl + 1 && reach(s, tgt@, c, m))) by {
                if dist@[g.spec_idx(c)] != usize::MAX {
                    if dist0[g.spec_idx(c)] != usize::MAX {
                        assert(exists|m: nat| m <= lvl && reach(s, tgt@, c, m));
                        let m = choose|m: nat| m <= lvl && reach(s, tgt@, c, m);
                        assert(m <= lvl + 1 && reach(s, tgt@, c, m));
                    } else {
                        assert(in_cellvec(next@, c));
                        let kk = choose|kk: int| 0 <= kk < next@.len() && next@[kk]@ == c;
                        assert(dist@[g.spec_idx(c)] == newlevel);
                        assert(reach(s, tgt@, c, newlevel as nat));
                    }
                }
            }
            assert forall|c: GhostCell, d: Direction| #![trigger d.spec_step(c), g.spec_idx(c)]
                g.contains(c) && dist@[g.spec_idx(c)] != usize::MAX && dist@[g.spec_idx(c)] < lvl
                + 1 && passable(s, d.spec_step(c)) implies dist@[g.spec_idx(d.spec_step(c))]
                != usize::MAX by {
                assert(dist0[g.spec_idx(c)] != usize::MAX || in_cellvec(next@, c));
                if in_cellvec(next@, c) {
                    let kk = choose|kk: int| 0 <= kk < next@.len() && next@[kk]@ == c;
                    assert(dist@[g.spec_idx(c)] == newlevel);
                    assert(false);
                } else {
                    assert(dist@[g.spec_idx(c)] == dist0[g.spec_idx(c)]);
                    if dist0[g.spec_idx(c)] < lvl {
                        assert(dist0[g.spec_idx(d.spec_step(c))] != usize::MAX);
                    } else {
                        assert(dist0[g.spec_idx(c)] == lvl);
                        assert(in_cellvec(frontier@, c));
                        let kk = choose|kk: int|
                            0 <= kk < frontier@.len() && frontier@[kk]@ == c;
                        assert(d.spec_step(frontier@[kk]@) == d.spec_step(c));
                        assert(dist@[g.spec_idx(d.spec_step(c))] != usize::MAX);
                    }
                }
            }
            assert forall|c: GhostCell| #![trigger g.spec_idx(c)]
                g.contains(c) && dist@[g.spec_idx(c)] == lvl + 1 implies in_cellvec(next@, c) by {
                if dist0[g.spec_idx(c)] != usize::MAX {
                    assert(dist0[g.spec_idx(c)] <= lvl);
                    assert(dist@[g.spec_idx(c)] == dist0[g.spec_idx(c)]);
                    assert(false);
                }
            }
        }
        frontier = next;
        level = newlevel;
    }
    proof {
        let lvl = level as int;
        assert forall|c: GhostCell| #![trigger g.spec_idx(c)]
            g.contains(c) implies dist@[g.spec_idx(c)] != lvl by {
            if dist@[g.spec_idx(c)] == lvl {
                assert(in_cellvec(frontier@, c));
            }
        }
        assert forall|c: GhostCell| #![trigger g.spec_idx(c)] g.contains(c) implies ((dist@[g.spec_idx(
            c,
        )] != usize::MAX) <==> reachable(s, tgt@, c)) by {
            lemma_idx_bounds(c.x, c.y, g.width as int, g.height as int);
            if dist@[g.spec_idx(c)] != usize::MAX {
                assert(exists|m: nat| m <= lvl && reach(s, tgt@, c, m));
                let m = choose|m: nat| m <= lvl && reach(s, tgt@, c, m);
                assert(reachable(s, tgt@, c));
            }
            if reachable(s, tgt@, c) {
                let nn = choose|nn: nat| reach(s, tgt@, c, nn);
                lemma_bfs_complete(*g, s, tgt@, dist@, lvl, c, nn);
            }
        }
        assert forall|c: GhostCell| seen_cells(*g, dist@).contains(c) == region(
            s,
            tgt@,
        ).contains(c) by {
            if region(s, tgt@).contains(c) {
                assert(reachable(s, tgt@, c));
                let nn = choose|nn: nat| reach(s, tgt@, c, nn);
                assert(passable(s, c));
                assert(g.contains(c));
            }
        }
        assert(seen_cells(*g, dist@) =~= region(s, tgt@));
        lemma_seen_bound(*g, dist@);
        assert(level <= n);
    }
    (dist, count)
}

} // verus!
