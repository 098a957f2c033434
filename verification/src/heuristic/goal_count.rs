//! The goal-count heuristic: the number of positive goal facts not yet true.

use vstd::prelude::*;
use crate::search::{HValue, Heuristic};
use crate::task::{State, Task, is_set};

verus! {

/// The number of positions below `k` set in `goal` but not in `s`.
pub open spec fn unmet_below(goal: Seq<bool>, s: Seq<bool>, k: int) -> nat
    decreases k,
{
    if k <= 0 {
        0
    } else {
        unmet_below(goal, s, k - 1) + if is_set(goal, k - 1) && !is_set(s, k - 1) { 1nat } else { 0nat }
    }
}

/// The number of positive goal facts that do not hold in `s`.
pub open spec fn unmet_goals(goal: Seq<bool>, s: Seq<bool>) -> nat {
    unmet_below(goal, s, goal.len() as int)
}

pub struct GoalCountHeuristic;

impl GoalCountHeuristic {
    pub fn value(&self, task: &Task, state: &State) -> (h: HValue)
        ensures
            h == HValue(Some(unmet_goals(task.goal_pos@, state@) as u64)),
    {
        let n = task.goal_pos.len();
        let mut count: u64 = 0;
        for i in 0..n
            invariant
                n == task.goal_pos@.len(),
                count == unmet_below(task.goal_pos@, state@, i as int),
                count <= i,
        {
            if task.goal_pos.contains(crate::task::FactId(i)) && !state.contains(crate::task::FactId(i)) {
                count = count + 1;
            }
        }
        HValue(Some(count))
    }
}

impl Heuristic for GoalCountHeuristic {
    /// Any state can be estimated.
    open spec fn accepts(&self, task: &Task, s: Seq<bool>) -> bool {
        true
    }

    open spec fn estimate_of(&self, task: &Task, s: Seq<bool>) -> Option<u64> {
        Some(unmet_goals(task.goal_pos@, s) as u64)
    }

    fn name(&self) -> (r: &'static str)
        ensures
            r@ == "goal-count"@,
    {
        "goal-count"
    }

    fn estimate(&self, task: &Task, state: &State) -> HValue {
        self.value(task, state)
    }
}

} // verus!
