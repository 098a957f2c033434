//! The zero heuristic: always 0, which turns A* into uniform-cost search.

use vstd::prelude::*;
use crate::search::{HValue, Heuristic};
use crate::task::{State, Task};

verus! {

pub struct HZero;

impl HZero {
    pub fn value(&self, task: &Task, state: &State) -> (h: HValue)
        ensures
            h == HValue(Some(0u64)),
    {
        HValue(Some(0))
    }
}

impl Heuristic for HZero {
    /// Any state can be estimated.
    open spec fn accepts(&self, task: &Task, s: Seq<bool>) -> bool {
        true
    }

    open spec fn estimate_of(&self, task: &Task, s: Seq<bool>) -> Option<u64> {
        Some(0u64)
    }

    fn name(&self) -> (r: &'static str)
        ensures
            r@ == "zero"@,
    {
        "zero"
    }

    fn estimate(&self, task: &Task, state: &State) -> HValue {
        self.value(task, state)
    }
}

} // verus!
