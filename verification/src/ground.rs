//! Grounding: instantiating a parsed domain and problem into a task over
//! grounded facts and operators.

pub mod formula;
pub mod types;
pub mod cost;
pub mod effect;
pub mod bindings;
pub mod derived;
pub mod action;
pub use action::ground;
