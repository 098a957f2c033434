//! Heuristic functions estimating the cost of reaching the goal.

pub mod blind;
pub mod goal_count;
pub mod hmax;
pub mod relaxed;
pub mod zero;

pub use blind::BlindHeuristic;
pub use goal_count::GoalCountHeuristic;
pub use relaxed::{HAdd, HFF, HMax};
pub use zero::HZero;
pub use crate::search::Heuristic;
