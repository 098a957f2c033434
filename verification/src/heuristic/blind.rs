//! The blind heuristic: 0 at a goal state, 1 elsewhere.

use vstd::prelude::*;
use crate::search::{HValue, Heuristic};
use crate::task::{State, Task, satisfies_goal};

verus! {

pub struct BlindHeuristic;

impl BlindHeuristic {
    /// 0 when the state satisfies the goal, 1 otherwise.
    pub fn value(&self, task: &Task, state: &State) -> (h: HValue)
        ensures
            h == HValue(Some(if satisfies_goal(state@, task.goal_pos@, task.goal_neg@) { 0u64 } else { 1u64 })),
    {
        if state.satisfies(&task.goal_pos, &task.goal_neg) {
            HValue(Some(0))
        } else {
            HValue(Some(1))
        }
    }
}

impl Heuristic for BlindHeuristic {
    /// Any state can be estimated.
    open spec fn accepts(&self, task: &Task, s: Seq<bool>) -> bool {
        true
    }

    open spec fn estimate_of(&self, task: &Task, s: Seq<bool>) -> Option<u64> {
        Some(if satisfies_goal(s, task.goal_pos@, task.goal_neg@) { 0u64 } else { 1u64 })
    }

    fn name(&self) -> (r: &'static str)
        ensures
            r@ == "blind"@,
    {
        "blind"
    }

    fn estimate(&self, task: &Task, state: &State) -> HValue {
        self.value(task, state)
    }
}

} // verus!
