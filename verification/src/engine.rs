//! The autopilot decision engine: the enable switch, and the once-per-tick
//! decision that turns the pathfinder's next step -- or, when the food is
//! unreachable, the survival evaluator's pick -- into a single commanded
//! direction.

use vstd::prelude::*;
use crate::grid::{Cell, Direction, Grid, GhostCell};
use crate::search::{reachable, is_min_dist, lemma_min_exists, lemma_min_unique};
use crate::pathfinder::{view_cells, path_space, first_dir, path_next_step};
use crate::survival::{survival_choice, survival_mode};

verus! {

/// What the engine commands for one tick, as a function of the inputs
/// alone: the first step of the shortest path to the food when one exists;
/// otherwise the survival evaluator's pick; no command when neither
/// produces a direction. A trivial path (head already on the food) emits
/// no step and falls back to the survival evaluator, as the game does.
pub open spec fn spec_decide(
    g: Grid,
    head: GhostCell,
    food: GhostCell,
    occ: Seq<GhostCell>,
) -> Option<Direction> {
    let s = path_space(g, occ, head);
    if reachable(s, food, head) {
        let n = choose|n: nat| is_min_dist(s, food, head, n);
        if n >= 1 {
            Some(first_dir(s, food, head, (n - 1) as nat))
        } else {
            survival_choice(g, occ, head)
        }
    } else {
        survival_choice(g, occ, head)
    }
}

/// The autopilot: a single engaged/disengaged switch. Every tick's decision
/// is computed fresh from the inputs of that tick; no other state crosses
/// tick boundaries.
pub struct Autopilot {
    pub enabled: bool,
}

impl Autopilot {
    /// A new autopilot starts disengaged: human input stays authoritative
    /// until the player engages it.
    pub fn new() -> (r: Autopilot)
        ensures
            !r.enabled,
    {
        Autopilot { enabled: false }
    }

    /// Flip the switch, as the keypress or the button click does.
    pub fn toggle(&mut self)
        ensures
            final(self).enabled == !old(self).enabled,
    {
        self.enabled = !self.enabled;
    }

    pub fn is_enabled(&self) -> (r: bool)
        ensures
            r == self.enabled,
    {
        self.enabled
    }

    /// One tick's decision. While disengaged the engine computes nothing
    /// and emits nothing, whatever the inputs; while engaged the result is
    /// `spec_decide`, a function of head, food and occupancy alone, so
    /// repeated ticks on identical inputs command identical directions.
    pub fn decide(&self, g: &Grid, head: Cell, food: Cell, occupied: &Vec<Cell>) -> (r: Option<
        Direction,
    >)
        requires
            g.wf(),
        ensures
            !self.enabled ==> r is None,
            self.enabled ==> r == spec_decide(*g, head@, food@, view_cells(occupied@)),
    {
        if !self.enabled {
            return None;
        }
        let ghost s = path_space(*g, view_cells(occupied@), head@);
        let step = path_next_step(g, head, food, occupied);
        match step {
            Some(d) => {
                proof {
                    if !reachable(s, food@, head@) || is_min_dist(s, food@, head@, 0) {
                        assert(step is None);
                    }
                    let w = choose|n: nat| crate::search::reach(s, food@, head@, n);
                    let m = lemma_min_exists(s, food@, head@, w);
                    let n = choose|n: nat| is_min_dist(s, food@, head@, n);
                    lemma_min_unique(s, food@, head@, n, m);
                    if m == 0 {
                        assert(is_min_dist(s, food@, head@, 0));
                    }
                    assert(m >= 1);
                    assert(step == Some(first_dir(s, food@, head@, (m - 1) as nat)));
                }
                Some(d)
            },
            None => {
                let r = survival_mode(g, head, occupied);
                proof {
                    if reachable(s, food@, head@) {
                        let w = choose|n: nat| crate::search::reach(s, food@, head@, n);
                        let m = lemma_min_exists(s, food@, head@, w);
                        let n = choose|n: nat| is_min_dist(s, food@, head@, n);
                        lemma_min_unique(s, food@, head@, n, m);
                        if m >= 1 {
                            assert(step == Some(first_dir(s, food@, head@, (m - 1) as nat)));
                            assert(false);
                        }
                    }
                }
                r
            },
        }
    }

    /// One tick of the engine against the commanded-direction register.
    /// While engaged, a decision overwrites the register; with no decision,
    /// and always while disengaged, the register keeps its previous value
    /// and the mover continues on the previous heading.
    pub fn tick(
        &self,
        g: &Grid,
        head: Cell,
        food: Cell,
        occupied: &Vec<Cell>,
        next_direction: &mut Direction,
    )
        requires
            g.wf(),
        ensures
            *final(next_direction) == (if self.enabled {
                match spec_decide(*g, head@, food@, view_cells(occupied@)) {
                    Some(d) => d,
                    None => *old(next_direction),
                }
            } else {
                *old(next_direction)
            }),
    {
        match self.decide(g, head, food, occupied) {
            Some(d) => {
                *next_direction = d;
            },
            None => {},
        }
    }
}

} // verus!
