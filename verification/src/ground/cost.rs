//! Action costs from `total-cost` increases, and the problem's metric.

use vstd::prelude::*;
use crate::error::MiniplanError;
use crate::pddl_model::{ActionModel, CEffectModel, OptimizationModel, PddlProblem, PrimEffectModel};

verus! {

/// The amount of an effect that increases `total-cost` by a number.
pub open spec fn cost_increase(ce: CEffectModel) -> Option<u32> {
    match ce {
        CEffectModel::Effect(PrimEffectModel::AssignNumeric { increase, function, amount }) => if increase && function@
            == "total-cost"@ {
            amount
        } else {
            None
        },
        _ => None,
    }
}

/// The amount of the first effect from position `k` on that increases
/// `total-cost` by a number; 1 when there is none.
pub open spec fn first_cost(ces: Seq<CEffectModel>, k: int) -> u32
    decreases ces.len() - k,
{
    if k < 0 || k >= ces.len() {
        1
    } else {
        match cost_increase(ces[k]) {
            Some(v) => v,
            None => first_cost(ces, k + 1),
        }
    }
}

/// The cost of an action: the amount of its first top-level effect that
/// increases `total-cost` by a number, 1 when it has none.
pub open spec fn action_cost(action: ActionModel) -> u32 {
    match action.effect {
        Some(ces) => first_cost(ces@, 0),
        None => 1,
    }
}

/// The cost of an action, as `action_cost` says.
pub fn extract_action_cost(action: &ActionModel) -> (r: Result<u32, MiniplanError>)
    ensures
        r == Ok::<u32, MiniplanError>(action_cost(*action)),
{
    let effects = match &action.effect {
        Some(e) => e,
        None => {
            return Ok(1);
        },
    };
    proof {
        reveal_strlit("total-cost");
    }
    let total = String::from_str("total-cost");
    let n = effects.len();
    for i in 0..n
        invariant
            n == effects@.len(),
            action.effect == Some(*effects),
            total@ == "total-cost"@,
            first_cost(effects@, 0) == first_cost(effects@, i as int),
    {
        match &effects[i] {
            CEffectModel::Effect(PrimEffectModel::AssignNumeric { increase, function, amount }) => {
                if *increase && *function == total {
                    if let Some(v) = amount {
                        return Ok(*v);
                    }
                }
            },
            _ => {},
        }
    }
    Ok(1)
}

/// Whether the problem's metric is minimized.
pub fn has_action_costs_metric(problem: &PddlProblem) -> (r: bool)
    ensures
        r == (problem.metric matches Some(OptimizationModel::Minimize)),
{
    match &problem.metric {
        Some(OptimizationModel::Minimize) => true,
        _ => false,
    }
}

} // verus!
