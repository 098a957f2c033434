//! Regression of subgoals through operators, and the joining of a forward
//! path with a backward path, shared by the bidirectional planners.

use vstd::prelude::*;
use crate::plan::{Plan, build_plan, run_ops, solves, step, lemma_run_concat, lemma_run_len};
use crate::search::bfs::ids_valid;
use crate::table::Subgoal;
use crate::task::{
    FactId, OpId, Operator, State, Task, applicable_in, apply_conds, disjoint, fits, is_set,
    operator_fits, satisfies_goal, subset, successor, none_set_in, overwrite,
};

verus! {

/// No operator of the task has conditional effects.
pub open spec fn no_conditional_effects(task: &Task) -> bool {
    forall|k: int| 0 <= k < task.operators@.len() ==> (#[trigger] task.operators@[k]).conditional@.len() == 0
}

/// The search proper runs on a well-formed task without conditional
/// effects whose initial state does not satisfy the goal.
pub open spec fn searching(task: &Task) -> bool {
    &&& task.well_formed()
    &&& no_conditional_effects(task)
    &&& !satisfies_goal(task.init@, task.goal_pos@, task.goal_neg@)
}

/// Whether some operator of the task has conditional effects.
pub fn has_conditional_effects(task: &Task) -> (r: bool)
    ensures
        r == !no_conditional_effects(task),
{
    let n = task.operators.len();
    for k in 0..n
        invariant
            n == task.operators@.len(),
            forall|j: int| 0 <= j < k ==> (#[trigger] task.operators@[j]).conditional@.len() == 0,
    {
        if task.operators[k].conditional.len() > 0 {
            assert(task.operators@[k as int].conditional@.len() > 0);
            return true;
        }
    }
    false
}

/// The operator achieves part of the subgoal: it adds a wanted fact or
/// deletes an unwanted one.
pub open spec fn relevant(op: Operator, pos: Seq<bool>, neg: Seq<bool>) -> bool {
    !disjoint(op.add@, pos) || !disjoint(op.del@, neg)
}

/// The operator undoes no part of the subgoal: it deletes no wanted fact and
/// adds no unwanted one.
pub open spec fn consistent(op: Operator, pos: Seq<bool>, neg: Seq<bool>) -> bool {
    disjoint(op.del@, pos) && disjoint(op.add@, neg)
}

/// The wanted facts before the operator: those it does not add, and its
/// positive preconditions.
pub open spec fn regress_pos(pos: Seq<bool>, op: Operator, n: nat) -> Seq<bool> {
    Seq::new(n, |i: int| (is_set(pos, i) && !is_set(op.add@, i)) || is_set(op.pre_pos@, i))
}

/// The unwanted facts before the operator: those it does not delete, and its
/// negative preconditions.
pub open spec fn regress_neg(neg: Seq<bool>, op: Operator, n: nat) -> Seq<bool> {
    Seq::new(n, |i: int| (is_set(neg, i) && !is_set(op.del@, i)) || is_set(op.pre_neg@, i))
}

/// From every state of the task's length that satisfies the subgoal, the
/// operators apply in turn and reach a state that satisfies the task's goal.
pub open spec fn leads_to_goal(task: &Task, pos: Seq<bool>, neg: Seq<bool>, ops: Seq<OpId>) -> bool {
    forall|t: Seq<bool>|
        t.len() == task.facts@.len() && #[trigger] satisfies_goal(t, pos, neg) ==> match run_ops(task, t, ops) {
            Some(u) => satisfies_goal(u, task.goal_pos@, task.goal_neg@),
            None => false,
        }
}

/// Whether the operator is relevant to the subgoal.
pub fn is_relevant(op: &Operator, pos: &State, neg: &State) -> (r: bool)
    ensures
        r == relevant(*op, pos@, neg@),
{
    !none_set_in(&op.add, pos) || !none_set_in(&op.del, neg)
}

/// Whether the operator is consistent with the subgoal.
pub fn is_consistent(op: &Operator, pos: &State, neg: &State) -> (r: bool)
    ensures
        r == consistent(*op, pos@, neg@),
{
    none_set_in(&op.del, pos) && none_set_in(&op.add, neg)
}

/// The subgoal that must hold before the operator for the given subgoal to
/// hold after it, over `n` facts.
pub fn regress_subgoal(op: &Operator, pos: &State, neg: &State, n: usize) -> (sg: Subgoal)
    ensures
        sg.pos@ == regress_pos(pos@, *op, n as nat),
        sg.neg@ == regress_neg(neg@, *op, n as nat),
{
    let mut p = State::new(n);
    let mut q = State::new(n);
    for i in 0..n
        invariant
            p@.len() == n,
            q@.len() == n,
            forall|j: int| 0 <= j < i ==> #[trigger] p@[j] == regress_pos(pos@, *op, n as nat)[j],
            forall|j: int| 0 <= j < i ==> #[trigger] q@[j] == regress_neg(neg@, *op, n as nat)[j],
            forall|j: int| i <= j < n ==> !(#[trigger] p@[j]),
            forall|j: int| i <= j < n ==> !(#[trigger] q@[j]),
    {
        let f = FactId(i);
        if (pos.contains(f) && !op.add.contains(f)) || op.pre_pos.contains(f) {
            p.set(f, true);
        }
        if (neg.contains(f) && !op.del.contains(f)) || op.pre_neg.contains(f) {
            q.set(f, true);
        }
    }
    assert(p@ =~= regress_pos(pos@, *op, n as nat));
    assert(q@ =~= regress_neg(neg@, *op, n as nat));
    Subgoal { pos: p, neg: q }
}

/// Regression is sound: if a subgoal leads to the goal along `ops`, then its
/// regression through a consistent operator without conditional effects
/// leads to the goal along that operator followed by `ops`.
pub proof fn lemma_regress(task: &Task, k: int, pos: Seq<bool>, neg: Seq<bool>, ops: Seq<OpId>)
    requires
        task.well_formed(),
        0 <= k < task.operators@.len(),
        task.operators@[k].conditional@.len() == 0,
        consistent(task.operators@[k], pos, neg),
        fits(pos, task.facts@.len()),
        fits(neg, task.facts@.len()),
        leads_to_goal(task, pos, neg, ops),
    ensures
        leads_to_goal(
            task,
            regress_pos(pos, task.operators@[k], task.facts@.len()),
            regress_neg(neg, task.operators@[k], task.facts@.len()),
            seq![task.operators@[k].id] + ops,
        ),
{
    let n = task.facts@.len();
    let op = task.operators@[k];
    let rp = regress_pos(pos, op, n);
    let rn = regress_neg(neg, op, n);
    assert(operator_fits(op, n));
    assert forall|t: Seq<bool>| t.len() == n && #[trigger] satisfies_goal(t, rp, rn) implies match run_ops(
        task,
        t,
        seq![op.id] + ops,
    ) {
        Some(u) => satisfies_goal(u, task.goal_pos@, task.goal_neg@),
        None => false,
    } by {
        assert forall|i: int| #[trigger] is_set(op.pre_pos@, i) implies is_set(t, i) by {
            assert(is_set(rp, i));
        }
        assert forall|i: int| #[trigger] is_set(op.pre_neg@, i) implies !is_set(t, i) by {
            assert(is_set(rn, i));
        }
        assert(applicable_in(t, op));
        let base = overwrite(overwrite(t, op.add@, true), op.del@, false);
        assert(successor(t, op) == base);
        assert forall|i: int| #[trigger] is_set(pos, i) implies is_set(base, i) by {
            assert(!is_set(op.del@, i));
            if !is_set(op.add@, i) {
                assert(is_set(rp, i));
            }
        }
        assert forall|i: int| #[trigger] is_set(neg, i) implies !is_set(base, i) by {
            assert(!is_set(op.add@, i));
            if !is_set(op.del@, i) {
                assert(is_set(rn, i));
            }
        }
        assert(satisfies_goal(base, pos, neg));
        assert(step(task, t, op.id) == Some(base));
        assert(run_ops(task, t, seq![op.id]) == Some(base)) by {
            assert(Seq::<OpId>::empty().push(op.id) =~= seq![op.id]);
            crate::plan::lemma_run_push(task, t, Seq::<OpId>::empty(), op.id);
        }
        lemma_run_concat(task, t, seq![op.id], ops);
        assert(base.len() == n);
    }
}

/// Parent links of forward entries: a root has the empty path, every other
/// entry extends the path of an earlier entry by one operator.
pub open spec fn forward_links(parents: Seq<Option<(usize, OpId)>>, paths: Seq<Seq<OpId>>) -> bool {
    &&& parents.len() == paths.len()
    &&& forall|i: int|
        0 <= i < parents.len() ==> match #[trigger] parents[i] {
            None => paths[i] == Seq::<OpId>::empty(),
            Some((p, op)) => p < i && paths[i] == paths[p as int].push(op),
        }
}

/// Parent links of backward entries: a root has the empty path, every other
/// entry puts one operator before the path of an earlier entry.
pub open spec fn backward_links(parents: Seq<Option<(usize, OpId)>>, paths: Seq<Seq<OpId>>) -> bool {
    &&& parents.len() == paths.len()
    &&& forall|j: int|
        0 <= j < parents.len() ==> match #[trigger] parents[j] {
            None => paths[j] == Seq::<OpId>::empty(),
            Some((p, op)) => p < j && paths[j] == seq![op] + paths[p as int],
        }
}

/// The operators from the root to forward entry `i`, following parent links.
pub fn forward_ops(parents: &Vec<Option<(usize, OpId)>>, i: usize, Ghost(paths): Ghost<Seq<Seq<OpId>>>) -> (r: Vec<OpId>)
    requires
        i < parents@.len(),
        forward_links(parents@, paths),
    ensures
        r@ == paths[i as int],
{
    let mut rev: Vec<OpId> = Vec::new();
    let mut cur = i;
    loop
        invariant
            cur < parents@.len(),
            forward_links(parents@, paths),
            paths[i as int] == paths[cur as int] + Seq::new(rev@.len(), |k: int| rev@[rev@.len() - 1 - k]),
        ensures
            cur < parents@.len(),
            parents@[cur as int] is None,
            paths[i as int] == paths[cur as int] + Seq::new(rev@.len(), |k: int| rev@[rev@.len() - 1 - k]),
        decreases cur,
    {
        match parents[cur] {
            None => {
                break;
            },
            Some((p, op)) => {
                let ghost before = rev@;
                rev.push(op);
                proof {
                    assert(paths[cur as int] == paths[p as int].push(op));
                    assert(paths[p as int] + Seq::new(rev@.len(), |k: int| rev@[rev@.len() - 1 - k]) =~= paths[cur
                        as int] + Seq::new(before.len(), |k: int| before[before.len() - 1 - k]));
                }
                cur = p;
            },
        }
    }
    let mut out: Vec<OpId> = Vec::new();
    let m = rev.len();
    for k in 0..m
        invariant
            m == rev@.len(),
            out@ =~= Seq::new(k as nat, |j: int| rev@[m - 1 - j]),
    {
        out.push(rev[m - 1 - k]);
    }
    assert(paths[i as int] =~= out@);
    out
}

/// The operators from backward entry `j` to the root, following parent links.
pub fn backward_ops(parents: &Vec<Option<(usize, OpId)>>, j: usize, Ghost(paths): Ghost<Seq<Seq<OpId>>>) -> (r: Vec<OpId>)
    requires
        j < parents@.len(),
        backward_links(parents@, paths),
    ensures
        r@ == paths[j as int],
{
    let mut out: Vec<OpId> = Vec::new();
    let mut cur = j;
    loop
        invariant
            cur < parents@.len(),
            backward_links(parents@, paths),
            paths[j as int] == out@ + paths[cur as int],
        ensures
            cur < parents@.len(),
            parents@[cur as int] is None,
            paths[j as int] == out@ + paths[cur as int],
        decreases cur,
    {
        match parents[cur] {
            None => {
                break;
            },
            Some((p, op)) => {
                proof {
                    assert(paths[cur as int] == seq![op] + paths[p as int]);
                    assert(out@ + paths[cur as int] =~= out@.push(op) + paths[p as int]);
                }
                out.push(op);
                cur = p;
            },
        }
    }
    assert(paths[j as int] =~= out@);
    out
}

/// Joins a forward path that reaches a state with a backward path from a
/// subgoal that the state satisfies: the result solves the task.
pub proof fn lemma_join_solves(
    task: &Task,
    fpath: Seq<OpId>,
    state: Seq<bool>,
    pos: Seq<bool>,
    neg: Seq<bool>,
    bpath: Seq<OpId>,
)
    requires
        task.init@.len() == task.facts@.len(),
        run_ops(task, task.init@, fpath) == Some(state),
        satisfies_goal(state, pos, neg),
        leads_to_goal(task, pos, neg, bpath),
    ensures
        solves(task, fpath + bpath),
{
    lemma_run_len(task, task.init@, fpath);
    lemma_run_concat(task, task.init@, fpath, bpath);
}

/// Builds the plan of a forward path followed by a backward path.
pub fn join_plan(task: &Task, fpath: Vec<OpId>, bpath: Vec<OpId>) -> (plan: Plan)
    requires
        ids_valid(task, fpath@),
        ids_valid(task, bpath@),
    ensures
        plan.ops() == fpath@ + bpath@,
        plan.cost == crate::plan::capped(crate::plan::path_cost(task, fpath@ + bpath@)),
{
    let mut all = fpath;
    let mut rest = bpath;
    let ghost a = all@;
    let ghost b = rest@;
    all.append(&mut rest);
    assert(all@ == a + b);
    assert forall|k: int| 0 <= k < all@.len() implies (#[trigger] all@[k]).0 < task.operators@.len() by {
        if k < a.len() {
            assert(all@[k] == a[k]);
        } else {
            assert(all@[k] == b[k - a.len()]);
        }
    }
    build_plan(&all, task)
}

/// The plan through a meeting point: the forward path to forward entry `i`,
/// whose state satisfies the subgoal of backward entry `j`, followed by the
/// backward path from that subgoal. It solves the task.
pub fn meet_plan(
    task: &Task,
    fparents: &Vec<Option<(usize, OpId)>>,
    i: usize,
    Ghost(fpaths): Ghost<Seq<Seq<OpId>>>,
    Ghost(state): Ghost<Seq<bool>>,
    bparents: &Vec<Option<(usize, OpId)>>,
    j: usize,
    Ghost(bpaths): Ghost<Seq<Seq<OpId>>>,
    Ghost(pos): Ghost<Seq<bool>>,
    Ghost(neg): Ghost<Seq<bool>>,
) -> (plan: Plan)
    requires
        task.init@.len() == task.facts@.len(),
        i < fparents@.len(),
        forward_links(fparents@, fpaths),
        run_ops(task, task.init@, fpaths[i as int]) == Some(state),
        ids_valid(task, fpaths[i as int]),
        j < bparents@.len(),
        backward_links(bparents@, bpaths),
        satisfies_goal(state, pos, neg),
        leads_to_goal(task, pos, neg, bpaths[j as int]),
        ids_valid(task, bpaths[j as int]),
    ensures
        solves(task, plan.ops()),
        plan.cost == crate::plan::capped(crate::plan::path_cost(task, plan.ops())),
{
    let fp = forward_ops(fparents, i, Ghost(fpaths));
    let bp = backward_ops(bparents, j, Ghost(bpaths));
    proof {
        lemma_join_solves(task, fp@, state, pos, neg, bp@);
    }
    join_plan(task, fp, bp)
}

} // verus!
