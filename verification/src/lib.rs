//! Autopilot for a grid-based snake game: a deterministic shortest-path
//! search from the snake's head to the food, a flood-fill survival
//! heuristic for when the food is unreachable, and the decision engine
//! that turns the two into a single next-direction command per tick.

pub mod grid;
pub mod search;
pub mod pathfinder;
pub mod survival;
pub mod engine;
