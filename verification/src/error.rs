//! Error type for parsing, grounding and search.

use vstd::prelude::*;
use crate::text::{concat, debug_string, debug_text};

verus! {

/// Errors of parsing, grounding and search.
pub enum MiniplanError {
    /// The PDDL text could not be parsed or selected.
    Parse(String),
    /// A PDDL requirement is not supported.
    Unsupported(String),
    /// Types do not match.
    TypeMismatch(String),
    /// Grounding failed.
    Ground(String),
    /// A search limit was reached.
    SearchLimit(String),
    /// No plan exists.
    NoPlan,
    /// A planner lacks capabilities that the task needs.
    IncapablePlanner { planner: String, missing: String },
    /// Reading input failed; the message of the underlying I/O error.
    Io(String),
    /// No planner of this name is registered.
    InvalidPlanner(String),
    /// No heuristic of this name is registered.
    InvalidHeuristic(String),
    /// The planner cannot search tasks whose operators have conditional effects.
    UnsupportedConditionalEffects,
}

/// The human-readable message of an error.
pub open spec fn error_text(e: MiniplanError) -> Seq<char> {
    match e {
        MiniplanError::Parse(s) => "failed to parse PDDL: "@ + s@,
        MiniplanError::Unsupported(s) => "unsupported PDDL requirement: "@ + s@,
        MiniplanError::TypeMismatch(s) => "type mismatch: "@ + s@,
        MiniplanError::Ground(s) => "grounding error: "@ + s@,
        MiniplanError::SearchLimit(s) => "search limit reached: "@ + s@,
        MiniplanError::NoPlan => "no plan found"@,
        MiniplanError::IncapablePlanner { planner, missing } => "planner '"@ + planner@
            + "' cannot handle the given task; missing capabilities: "@ + debug_text(missing@),
        MiniplanError::Io(s) => "I/O error: "@ + s@,
        MiniplanError::InvalidPlanner(s) => "invalid planner name: "@ + s@,
        MiniplanError::InvalidHeuristic(s) => "invalid heuristic name: "@ + s@,
        MiniplanError::UnsupportedConditionalEffects => "conditional effects are not supported by this planner"@,
    }
}

impl MiniplanError {
    /// The human-readable message of this error.
    pub fn message(&self) -> (r: String)
        ensures
            r@ == error_text(*self),
    {
        match self {
            MiniplanError::Parse(s) => concat("failed to parse PDDL: ", s.as_str()),
            MiniplanError::Unsupported(s) => concat("unsupported PDDL requirement: ", s.as_str()),
            MiniplanError::TypeMismatch(s) => concat("type mismatch: ", s.as_str()),
            MiniplanError::Ground(s) => concat("grounding error: ", s.as_str()),
            MiniplanError::SearchLimit(s) => concat("search limit reached: ", s.as_str()),
            MiniplanError::NoPlan => String::from_str("no plan found"),
            MiniplanError::IncapablePlanner { planner, missing } => {
                let a = concat("planner '", planner.as_str());
                let b = concat(a.as_str(), "' cannot handle the given task; missing capabilities: ");
                let d = debug_string(missing.as_str());
                concat(b.as_str(), d.as_str())
            },
            MiniplanError::Io(s) => concat("I/O error: ", s.as_str()),
            MiniplanError::InvalidPlanner(s) => concat("invalid planner name: ", s.as_str()),
            MiniplanError::InvalidHeuristic(s) => concat("invalid heuristic name: ", s.as_str()),
            MiniplanError::UnsupportedConditionalEffects => String::from_str(
                "conditional effects are not supported by this planner",
            ),
        }
    }
}

} // verus!
