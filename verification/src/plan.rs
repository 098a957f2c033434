//! Plans: sequences of operator steps with a total cost, and what it means
//! for a sequence of operators to solve a task.

use vstd::prelude::*;
use crate::text::{concat, decimal, decimal_string, all_digits, digits_value, lemma_decimal_reads_back};
use crate::task::{OpId, Task, applicable_in, successor, satisfies_goal, lemma_successor_len};

verus! {

/// One step of a plan.
pub struct PlanStep {
    pub op_id: OpId,
    pub op_name: String,
}

/// A sequence of steps and its total cost.
pub struct Plan {
    pub steps: Vec<PlanStep>,
    /// The sum of the step costs (saturating at `u64::MAX`).
    pub cost: u64,
}

impl Plan {
    /// The operators of the plan, in order.
    pub open spec fn ops(&self) -> Seq<OpId> {
        self.steps@.map_values(|s: PlanStep| s.op_id)
    }

    pub fn new() -> (p: Self)
        ensures
            p.steps@.len() == 0,
            p.cost == 0,
    {
        Plan { steps: Vec::new(), cost: 0 }
    }

    pub fn is_empty(&self) -> (r: bool)
        ensures
            r == (self.steps@.len() == 0),
    {
        self.steps.len() == 0
    }

    pub fn len(&self) -> (n: usize)
        ensures
            n == self.steps@.len(),
    {
        self.steps.len()
    }
}

impl Default for Plan {
    /// The empty plan.
    fn default() -> (p: Self)
        ensures
            p.steps@.len() == 0,
            p.cost == 0,
    {
        Plan::new()
    }
}

/// The state reached by applying one operator, or nothing when the operator
/// does not exist or is not applicable.
pub open spec fn step(task: &Task, s: Seq<bool>, id: OpId) -> Option<Seq<bool>> {
    if id.0 < task.operators@.len() && applicable_in(s, task.operators@[id.0 as int]) {
        Some(successor(s, task.operators@[id.0 as int]))
    } else {
        None
    }
}

/// The state reached by applying a sequence of operators in order.
pub open spec fn run_ops(task: &Task, s: Seq<bool>, ops: Seq<OpId>) -> Option<Seq<bool>>
    decreases ops.len(),
{
    if ops.len() == 0 {
        Some(s)
    } else {
        match run_ops(task, s, ops.drop_last()) {
            Some(t) => step(task, t, ops.last()),
            None => None,
        }
    }
}

/// A sequence of operators solves the task: each is applicable in turn
/// from the initial state and the final state satisfies the goal.
pub open spec fn solves(task: &Task, ops: Seq<OpId>) -> bool {
    match run_ops(task, task.init@, ops) {
        Some(t) => satisfies_goal(t, task.goal_pos@, task.goal_neg@),
        None => false,
    }
}

/// The total cost of a sequence of existing operators.
pub open spec fn path_cost(task: &Task, ops: Seq<OpId>) -> nat
    decreases ops.len(),
{
    if ops.len() == 0 {
        0
    } else {
        path_cost(task, ops.drop_last()) + if ops.last().0 < task.operators@.len() {
            task.operators@[ops.last().0 as int].cost as nat
        } else {
            0
        }
    }
}

/// A cost capped at the largest `u64`.
pub open spec fn capped(c: nat) -> u64 {
    if c <= u64::MAX { c as u64 } else { u64::MAX }
}

/// Running a sequence extended by one operator is one more step.
pub proof fn lemma_run_push(task: &Task, s: Seq<bool>, ops: Seq<OpId>, id: OpId)
    ensures
        run_ops(task, s, ops.push(id)) == match run_ops(task, s, ops) {
            Some(t) => step(task, t, id),
            None => None,
        },
{
    assert(ops.push(id).drop_last() =~= ops);
}

/// Running two sequences one after the other is running their concatenation.
pub proof fn lemma_run_concat(task: &Task, s: Seq<bool>, a: Seq<OpId>, b: Seq<OpId>)
    ensures
        run_ops(task, s, a + b) == match run_ops(task, s, a) {
            Some(t) => run_ops(task, t, b),
            None => None,
        },
    decreases b.len(),
{
    if b.len() == 0 {
        assert(a + b =~= a);
    } else {
        lemma_run_concat(task, s, a, b.drop_last());
        assert((a + b).drop_last() =~= a + b.drop_last());
        assert((a + b).last() == b.last());
    }
}

/// Running operators of the task keeps the length of the state.
pub proof fn lemma_run_len(task: &Task, s: Seq<bool>, ops: Seq<OpId>)
    ensures
        run_ops(task, s, ops) matches Some(t) ==> t.len() == s.len(),
    decreases ops.len(),
{
    if ops.len() > 0 {
        lemma_run_len(task, s, ops.drop_last());
        if let Some(t) = run_ops(task, s, ops.drop_last()) {
            if ops.last().0 < task.operators@.len() {
                lemma_successor_len(t, task.operators@[ops.last().0 as int]);
            }
        }
    }
}

/// Builds a plan from a path of operator IDs: one step per existing operator,
/// with its name, and the summed cost.
pub fn build_plan(path: &Vec<OpId>, task: &Task) -> (plan: Plan)
    requires
        forall|k: int| 0 <= k < path@.len() ==> (#[trigger] path@[k]).0 < task.operators@.len(),
    ensures
        plan.ops() == path@,
        plan.cost == capped(path_cost(task, path@)),
        forall|k: int| 0 <= k < plan.steps@.len() ==> (#[trigger] plan.steps@[k]).op_name@
            == task.operators@[path@[k].0 as int].name@,
{
    let mut plan = Plan::new();
    let mut total: u64 = 0;
    let n = path.len();
    for i in 0..n
        invariant
            n == path@.len(),
            forall|k: int| 0 <= k < path@.len() ==> (#[trigger] path@[k]).0 < task.operators@.len(),
            plan.ops() == path@.take(i as int),
            plan.steps@.len() == i,
            total == capped(path_cost(task, path@.take(i as int))),
            forall|k: int| 0 <= k < i ==> (#[trigger] plan.steps@[k]).op_name@
                == task.operators@[path@[k].0 as int].name@,
    {
        let op_id = path[i];
        let op = &task.operators[op_id.0];
        plan.steps.push(PlanStep { op_id, op_name: op.name.clone() });
        total = total.saturating_add(op.cost as u64);
        assert(path@.take(i + 1).drop_last() =~= path@.take(i as int));
        assert(plan.ops() =~= path@.take(i + 1));
    }
    assert(path@.take(n as int) =~= path@);
    plan.cost = total;
    plan
}


/// Every state reached from the initial state lies in any set of states that
/// holds the initial state and is closed under applicable operators.
pub proof fn lemma_runs_stay_inside(task: &Task, inside: spec_fn(Seq<bool>) -> bool, ops: Seq<OpId>)
    requires
        inside(task.init@),
        forall|s: Seq<bool>, k: int|
            #![trigger inside(s), task.operators@[k]]
            inside(s) && 0 <= k < task.operators@.len() && applicable_in(s, task.operators@[k])
                ==> inside(successor(s, task.operators@[k])),
    ensures
        run_ops(task, task.init@, ops) matches Some(t) ==> inside(t),
    decreases ops.len(),
{
    if ops.len() > 0 {
        lemma_runs_stay_inside(task, inside, ops.drop_last());
    }
}

/// Copies a path of operator IDs.
pub fn copy_path(path: &Vec<OpId>) -> (r: Vec<OpId>)
    ensures
        r@ == path@,
{
    let mut r: Vec<OpId> = Vec::new();
    let n = path.len();
    for i in 0..n
        invariant
            n == path@.len(),
            r@ == path@.take(i as int),
    {
        r.push(path[i]);
        assert(r@ =~= path@.take(i + 1));
    }
    assert(path@.take(n as int) =~= path@);
    r
}

/// How a plan is written out.
pub enum OutputFormat {
    Plain,
    Ipc,
    Json,
}

/// The lines of plan steps: each operator name in parentheses, one per line.
pub open spec fn steps_text(steps: Seq<PlanStep>) -> Seq<char>
    decreases steps.len(),
{
    if steps.len() == 0 {
        Seq::empty()
    } else {
        steps_text(steps.drop_last()) + "("@ + steps.last().op_name@ + ")\n"@
    }
}

/// The step lines of two runs of steps are those of the first, then those
/// of the second.
pub proof fn lemma_steps_text_concat(a: Seq<PlanStep>, b: Seq<PlanStep>)
    ensures
        steps_text(a + b) == steps_text(a) + steps_text(b),
    decreases b.len(),
{
    if b.len() == 0 {
        assert(a + b =~= a);
        assert(steps_text(a) + Seq::<char>::empty() =~= steps_text(a));
    } else {
        lemma_steps_text_concat(a, b.drop_last());
        assert((a + b).drop_last() =~= a + b.drop_last());
        assert((a + b).last() == b.last());
    }
}

/// A single step is written as its operator name in parentheses on a line.
pub proof fn lemma_steps_text_one(step: PlanStep)
    ensures
        steps_text(seq![step]) == "("@ + step.op_name@ + ")\n"@,
{
    assert(seq![step].drop_last() =~= Seq::<PlanStep>::empty());
    assert(seq![step].last() == step);
    assert(steps_text(Seq::<PlanStep>::empty()) == Seq::<char>::empty());
    assert(steps_text(seq![step]) == steps_text(seq![step].drop_last()) + "("@ + seq![step].last().op_name@ + ")\n"@);
    assert(Seq::<char>::empty() + ("("@ + step.op_name@ + ")\n"@) =~= "("@ + step.op_name@ + ")\n"@);
}

/// A plan as text: its cost and length as comment lines, then its steps.
pub open spec fn plan_text(plan: Plan) -> Seq<char> {
    "; cost = "@ + decimal(plan.cost as nat) + "\n; length = "@ + decimal(plan.steps@.len()) + "\n"@
        + steps_text(plan.steps@)
}

/// A plan's text opens with the cost line, whose digits read back as the
/// plan's cost, then the length line, whose digits read back as its number
/// of steps; the steps follow, one per line.
pub open spec fn text_reports(plan: Plan, text: Seq<char>) -> bool {
    exists|c: Seq<char>, l: Seq<char>|
        #![trigger digits_value(c), digits_value(l)]
        all_digits(c) && digits_value(c) == plan.cost && all_digits(l) && digits_value(l) == plan.steps@.len()
            && text == "; cost = "@ + c + "\n; length = "@ + l + "\n"@ + steps_text(plan.steps@)
}

/// The text of every plan reports its cost and its number of steps.
pub proof fn lemma_plan_text_reports(plan: Plan)
    ensures
        text_reports(plan, plan_text(plan)),
{
    lemma_decimal_reads_back(plan.cost as nat);
    lemma_decimal_reads_back(plan.steps@.len());
    let c = decimal(plan.cost as nat);
    let l = decimal(plan.steps@.len());
    assert(digits_value(c) == plan.cost && digits_value(l) == plan.steps@.len());
}

impl Plan {
    /// The plan as text, as `plan_text` says: the cost line, the length line,
    /// then the steps.
    pub fn to_text(&self) -> (r: String)
        ensures
            r@ == plan_text(*self),
            text_reports(*self, r@),
    {
        proof {
            lemma_plan_text_reports(*self);
        }
        let cost = decimal_string(self.cost);
        let len = decimal_string(self.steps.len() as u64);
        let a = concat("; cost = ", cost.as_str());
        let b = concat(a.as_str(), "\n; length = ");
        let c = concat(b.as_str(), len.as_str());
        let mut out = concat(c.as_str(), "\n");
        let ghost head = out@;
        let n = self.steps.len();
        for i in 0..n
            invariant
                n == self.steps@.len(),
                out@ == head + steps_text(self.steps@.take(i as int)),
        {
            proof {
                assert(self.steps@.take(i + 1).drop_last() =~= self.steps@.take(i as int));
            }
            let d = concat(out.as_str(), "(");
            let e = concat(d.as_str(), self.steps[i].op_name.as_str());
            out = concat(e.as_str(), ")\n");
        }
        assert(self.steps@.take(n as int) =~= self.steps@);
        out
    }
}

} // verus!
