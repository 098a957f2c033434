//! A classical planner over grounded STRIPS-style tasks: bitset states,
//! grounding of a PDDL model, relaxed heuristics and several forward and
//! bidirectional search algorithms, each with a verified contract.

pub mod bitset;
pub mod error;
pub mod ground;
pub mod heuristic;
pub mod text;
pub mod task;
pub mod plan;
pub mod queue;
pub mod pddl_io;
pub mod pddl_model;
pub mod search;
pub mod table;
pub mod tui;
pub mod util;

pub use pddl_io::load_combined_str;
pub use search::SearchOutcome;
