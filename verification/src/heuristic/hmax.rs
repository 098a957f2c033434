//! The relaxed costs of h^max: each fact costs the least, over the
//! operators adding it, of the operator's cost plus the largest cost of its
//! preconditions; the facts of the state cost nothing. Delete effects and
//! negative conditions are ignored, as the relaxation does.

use vstd::prelude::*;
use crate::heuristic::relaxed::{rank, rank_sum, below, max_known, offered_costs, better};
use crate::task::{
    FactId, OpId, State, Task, CondEffect, is_set, fits, operator_fits, successor, applicable_in,
    satisfies_goal, overwrite, apply_conds, cond_step, cond_holds,
};
use crate::plan::{run_ops, path_cost, capped, lemma_run_push};
use crate::heuristic::relaxed::goal_cost_max;
use crate::bitset::bitset_ones;

verus! {

/// Every position set in `bits` has a known cost of at most `v`.
pub open spec fn bounded(costs: Seq<Option<u64>>, bits: Seq<bool>, v: u64) -> bool {
    forall|p: int| #[trigger] is_set(bits, p) ==> costs[p] is Some && costs[p]->0 <= v
}

/// The facts of `state` cost nothing.
pub open spec fn zero_on(state: Seq<bool>, costs: Seq<Option<u64>>) -> bool {
    forall|i: int| #[trigger] is_set(state, i) ==> costs[i] == Some(0u64)
}

/// Operator `k` offers nothing cheaper: when its preconditions (and, for a
/// conditional effect, that effect's positive conditions) all cost at most
/// `v`, every fact it adds costs at most `v` plus its cost.
pub open spec fn op_closed(task: &Task, costs: Seq<Option<u64>>, k: int) -> bool {
    let op = task.operators@[k];
    &&& forall|v: u64|
        #[trigger] bounded(costs, op.pre_pos@, v) ==> forall|q: int|
            #[trigger] is_set(op.add@, q) ==> !below(v.saturating_add(op.cost as u64), costs[q])
    &&& forall|c: int, v: u64|
        0 <= c < op.conditional@.len() && #[trigger] bounded(costs, op.pre_pos@, v) && #[trigger] bounded(
            costs,
            op.conditional@[c].cond_pos@,
            v,
        ) ==> forall|q: int|
            #[trigger] is_set(op.conditional@[c].add@, q) ==> !below(v.saturating_add(op.cost as u64), costs[q])
}

/// No operator offers anything cheaper.
pub open spec fn all_closed(task: &Task, costs: Seq<Option<u64>>) -> bool {
    forall|k: int| 0 <= k < task.operators@.len() ==> #[trigger] op_closed(task, costs, k)
}

/// Costs that are zero on `state` and that no operator can lower.
pub open spec fn stable_costs(task: &Task, state: Seq<bool>, costs: Seq<Option<u64>>) -> bool {
    &&& costs.len() == task.facts@.len()
    &&& zero_on(state, costs)
    &&& all_closed(task, costs)
}

/// Every stable cost table lies below `costs`, fact by fact.
pub open spec fn above_all_stable(task: &Task, state: Seq<bool>, costs: Seq<Option<u64>>) -> bool {
    forall|d: Seq<Option<u64>>|
        #[trigger] stable_costs(task, state, d) ==> forall|q: int|
            0 <= q < costs.len() ==> rank(#[trigger] d[q]) <= rank(costs[q])
}

/// The h^max fact costs from `state`: the greatest stable cost table.
pub open spec fn max_costs_of(task: &Task, state: Seq<bool>, costs: Seq<Option<u64>>) -> bool {
    stable_costs(task, state, costs) && above_all_stable(task, state, costs)
}

/// The h^max fact costs from `state`, which `max_costs_of` fixes.
pub open spec fn hmax_table(task: &Task, state: Seq<bool>) -> Seq<Option<u64>> {
    choose|c: Seq<Option<u64>>| max_costs_of(task, state, c)
}

/// Two tables each of which is the greatest stable one are equal.
pub proof fn lemma_max_costs_unique(task: &Task, state: Seq<bool>, a: Seq<Option<u64>>, b: Seq<Option<u64>>)
    requires
        max_costs_of(task, state, a),
        max_costs_of(task, state, b),
    ensures
        a == b,
{
    assert(stable_costs(task, state, a));
    assert(stable_costs(task, state, b));
    assert forall|q: int| 0 <= q < a.len() implies a[q] == b[q] by {
        assert(rank(a[q]) <= rank(b[q]));
        assert(rank(b[q]) <= rank(a[q]));
    }
    assert(a =~= b);
}

/// The largest cost among the positions set in `bits`, or `None` when one
/// of them has no known cost.
pub fn max_cost_of(bits: &State, costs: &Vec<Option<u64>>) -> (r: Option<u64>)
    requires
        fits(bits@, costs@.len()),
    ensures
        r matches Some(m) ==> max_known(bits@, costs@, m),
        r is None ==> exists|i: int| #[trigger] is_set(bits@, i) && costs@[i] is None,
{
    let ones = bitset_ones(&bits.0);
    let n = ones.len();
    let mut m: u64 = 0;
    for a in 0..n
        invariant
            n == ones@.len(),
            fits(bits@, costs@.len()),
            forall|k: int| 0 <= k < ones@.len() ==> is_set(bits@, #[trigger] ones@[k] as int),
            forall|k: int| 0 <= k < a ==> costs@[#[trigger] ones@[k] as int] is Some && costs@[ones@[k] as int]->0 <= m,
            m == 0 || exists|k: int| 0 <= k < a && costs@[#[trigger] ones@[k] as int] == Some(m),
    {
        let b = ones[a];
        assert(is_set(bits@, b as int));
        match costs[b] {
            None => {
                return None;
            },
            Some(c) => {
                if c > m {
                    m = c;
                }
            },
        }
    }
    proof {
        assert forall|i: int| #[trigger] is_set(bits@, i) implies costs@[i] is Some && costs@[i]->0 <= m by {
            let k = choose|k: int| 0 <= k < ones@.len() && ones@[k] as int == i;
        }
        if m != 0 {
            let k = choose|k: int| 0 <= k < n && costs@[#[trigger] ones@[k] as int] == Some(m);
            assert(is_set(bits@, ones@[k] as int));
        }
    }
    Some(m)
}

/// Offering a cost never raises a rank sum, and lowers it when it changes
/// anything.
proof fn lemma_offer_rank(c: Seq<Option<u64>>, adds: Seq<bool>, t: u64, k: int)
    requires
        0 <= k <= c.len(),
    ensures
        rank_sum(offered_costs(c, adds, t), k) <= rank_sum(c, k),
        (exists|i: int| 0 <= i < k && offered_costs(c, adds, t)[i] != c[i]) ==> rank_sum(offered_costs(c, adds, t), k)
            < rank_sum(c, k),
    decreases k,
{
    if k > 0 {
        lemma_offer_rank(c, adds, t, k - 1);
        let o = offered_costs(c, adds, t);
        if exists|i: int| 0 <= i < k && o[i] != c[i] {
            let i = choose|i: int| 0 <= i < k && o[i] != c[i];
            if i < k - 1 {
            }
        }
    }
}

/// Offers cost `t` to every fact set in `adds`: each gets it if it is
/// cheaper than its current cost. Returns whether a cost changed.
pub fn offer(costs: &mut Vec<Option<u64>>, adds: &State, t: u64) -> (changed: bool)
    requires
        fits(adds@, old(costs)@.len()),
    ensures
        final(costs)@ == offered_costs(old(costs)@, adds@, t),
        !changed ==> final(costs)@ == old(costs)@,
        changed ==> rank_sum(final(costs)@, final(costs)@.len() as int) < rank_sum(old(costs)@, old(costs)@.len() as int),
        rank_sum(final(costs)@, final(costs)@.len() as int) <= rank_sum(old(costs)@, old(costs)@.len() as int),
        forall|q: int| #[trigger] is_set(adds@, q) ==> !below(t, final(costs)@[q]),
{
    let ghost c0 = costs@;
    let n = costs.len();
    let mut changed = false;
    for i in 0..n
        invariant
            n == c0.len(),
            costs@.len() == n,
            fits(adds@, n as nat),
            forall|j: int| 0 <= j < i ==> costs@[j] == offered_costs(c0, adds@, t)[j],
            forall|j: int| i <= j < n ==> costs@[j] == c0[j],
            changed == exists|j: int| 0 <= j < i && offered_costs(c0, adds@, t)[j] != c0[j],
    {
        if adds.contains(FactId(i)) {
            let lower = match costs[i] {
                Some(c) => t < c,
                None => true,
            };
            if lower {
                costs.set(i, Some(t));
                changed = true;
            }
        }
        proof {
            assert(costs@[i as int] == offered_costs(c0, adds@, t)[i as int]);
            if offered_costs(c0, adds@, t)[i as int] != c0[i as int] {
                assert(changed);
            }
        }
    }
    proof {
        assert(costs@ =~= offered_costs(c0, adds@, t));
        lemma_offer_rank(c0, adds@, t, n as int);
        if !changed {
            assert(costs@ =~= c0);
        }
    }
    changed
}

/// An offer of at least `m` leaves positions costing at most `m` alone.
proof fn lemma_offer_keeps_max(c: Seq<Option<u64>>, adds: Seq<bool>, t: u64, bits: Seq<bool>, m: u64)
    requires
        max_known(bits, c, m),
        m <= t,
        fits(bits, c.len()),
    ensures
        max_known(bits, offered_costs(c, adds, t), m),
        forall|p: int| #[trigger] is_set(bits, p) ==> offered_costs(c, adds, t)[p] == c[p],
{
    let o = offered_costs(c, adds, t);
    assert forall|p: int| #[trigger] is_set(bits, p) implies o[p] == c[p] by {
        assert(c[p] is Some && c[p]->0 <= m);
    }
    if m != 0 {
        let i = choose|i: int| #[trigger] is_set(bits, i) && c[i] == Some(m);
        assert(o[i] == c[i]);
    }
}

/// An offer keeps the facts of the state at cost 0.
proof fn lemma_offer_keeps_zero(state: Seq<bool>, c: Seq<Option<u64>>, adds: Seq<bool>, t: u64)
    requires
        zero_on(state, c),
        state.len() == c.len(),
    ensures
        zero_on(state, offered_costs(c, adds, t)),
{
    assert forall|i: int| #[trigger] is_set(state, i) implies offered_costs(c, adds, t)[i] == Some(0u64) by {
        assert(c[i] == Some(0u64));
    }
}

/// An offer that every stable table already meets keeps `costs` above
/// every stable table.
proof fn lemma_offer_keeps_above(task: &Task, state: Seq<bool>, c: Seq<Option<u64>>, adds: Seq<bool>, t: u64)
    requires
        above_all_stable(task, state, c),
        forall|d: Seq<Option<u64>>, q: int| #[trigger] stable_costs(task, state, d) && #[trigger] is_set(adds, q) ==> rank(d[q]) <= t,
    ensures
        above_all_stable(task, state, offered_costs(c, adds, t)),
{
    let o = offered_costs(c, adds, t);
    assert forall|d: Seq<Option<u64>>| #[trigger] stable_costs(task, state, d) implies forall|q: int|
        0 <= q < o.len() ==> rank(#[trigger] d[q]) <= rank(o[q]) by {
        assert forall|q: int| 0 <= q < o.len() implies rank(#[trigger] d[q]) <= rank(o[q]) by {
            assert(rank(d[q]) <= rank(c[q]));
            if is_set(adds, q) {
                assert(rank(d[q]) <= t);
            }
        }
    }
}

/// A stable table leaves every operator closed.
proof fn lemma_stable_closed(task: &Task, state: Seq<bool>, d: Seq<Option<u64>>, k: int)
    requires
        stable_costs(task, state, d),
        0 <= k < task.operators@.len(),
    ensures
        op_closed(task, d, k),
{
    assert(all_closed(task, d));
}

/// A table below `costs` in which every position of `bits` costs at most
/// `m` in `costs` is bounded by `m` on `bits`.
proof fn lemma_below_bounded(c: Seq<Option<u64>>, d: Seq<Option<u64>>, bits: Seq<bool>, m: u64)
    requires
        d.len() == c.len(),
        forall|q: int| 0 <= q < c.len() ==> rank(#[trigger] d[q]) <= rank(c[q]),
        bounded(c, bits, m),
        fits(bits, c.len()),
    ensures
        bounded(d, bits, m),
{
    assert forall|p: int| #[trigger] is_set(bits, p) implies d[p] is Some && d[p]->0 <= m by {
        assert(rank(d[p]) <= rank(c[p]));
    }
}

/// Applies operator `k` of the relaxed task once: it offers its cost plus
/// the largest cost of its preconditions to its add effects, and each
/// conditional effect offers its cost plus the largest cost of the
/// preconditions and of its conditions to its own add effects. Returns
/// whether a cost changed.
pub fn relax_op(task: &Task, k: usize, costs: &mut Vec<Option<u64>>, Ghost(state): Ghost<Seq<bool>>) -> (changed: bool)
    requires
        task.well_formed(),
        k < task.operators@.len(),
        old(costs)@.len() == task.facts@.len(),
        state.len() == task.facts@.len(),
        zero_on(state, old(costs)@),
        above_all_stable(task, state, old(costs)@),
    ensures
        final(costs)@.len() == task.facts@.len(),
        zero_on(state, final(costs)@),
        above_all_stable(task, state, final(costs)@),
        rank_sum(final(costs)@, task.facts@.len() as int) <= rank_sum(old(costs)@, task.facts@.len() as int),
        changed ==> rank_sum(final(costs)@, task.facts@.len() as int) < rank_sum(old(costs)@, task.facts@.len() as int),
        !changed ==> final(costs)@ == old(costs)@ && op_closed(task, old(costs)@, k as int),
{
    let ghost c0 = costs@;
    let ghost nf = task.facts@.len();
    let op = &task.operators[k];
    assert(operator_fits(task.operators@[k as int], nf));
    let mut changed = false;
    match max_cost_of(&op.pre_pos, costs) {
        None => {
            proof {
                let i = choose|i: int| #[trigger] is_set(op.pre_pos@, i) && c0[i] is None;
                assert forall|v: u64| !bounded(c0, op.pre_pos@, v) by {
                    assert(is_set(op.pre_pos@, i));
                }
            }
        },
        Some(m1) => {
            let t = m1.saturating_add(op.cost as u64);
            proof {
                assert(bounded(c0, op.pre_pos@, m1));
                assert forall|d: Seq<Option<u64>>, q: int| #[trigger] stable_costs(task, state, d) && #[trigger] is_set(op.add@, q)
                    implies rank(d[q]) <= t by {
                    lemma_below_bounded(c0, d, op.pre_pos@, m1);
                    lemma_stable_closed(task, state, d, k as int);
                    assert(bounded(d, task.operators@[k as int].pre_pos@, m1));
                }
                lemma_offer_keeps_above(task, state, c0, op.add@, t);
                lemma_offer_keeps_zero(state, c0, op.add@, t);
                lemma_offer_keeps_max(c0, op.add@, t, op.pre_pos@, m1);
            }
            let c1 = offer(costs, &op.add, t);
            changed = c1;
            let ghost c_after_add = costs@;
            let nc = op.conditional.len();
            for c in 0..nc
                invariant
                    nc == op.conditional@.len(),
                    (k as int) < task.operators@.len(),
                    *op == task.operators@[k as int],
                    operator_fits(*op, nf),
                    nf == task.facts@.len(),
                    costs@.len() == nf,
                    state.len() == nf,
                    zero_on(state, costs@),
                    above_all_stable(task, state, costs@),
                    max_known(op.pre_pos@, costs@, m1),
                    rank_sum(costs@, nf as int) <= rank_sum(c0, nf as int),
                    changed ==> rank_sum(costs@, nf as int) < rank_sum(c0, nf as int),
                    !changed ==> costs@ == c0,
                    !changed ==> forall|q: int| #[trigger] is_set(op.add@, q) ==> !below(t, c0[q]),
                    t == m1.saturating_add(op.cost as u64),
                    !changed ==> forall|cc: int, v: u64|
                        0 <= cc < c && #[trigger] bounded(c0, op.pre_pos@, v) && #[trigger] bounded(c0, op.conditional@[cc].cond_pos@, v)
                            ==> forall|q: int| #[trigger] is_set(op.conditional@[cc].add@, q) ==> !below(v.saturating_add(op.cost as u64), c0[q]),
            {
                let cond = &op.conditional[c];
                assert(fits(op.conditional@[c as int].cond_pos@, nf));
                assert(fits(op.conditional@[c as int].add@, nf));
                let ghost cb = costs@;
                match max_cost_of(&cond.cond_pos, costs) {
                    None => {
                        proof {
                            if !changed {
                                let i = choose|i: int| #[trigger] is_set(cond.cond_pos@, i) && cb[i] is None;
                                assert forall|cc: int, v: u64|
                                    0 <= cc < c + 1 && #[trigger] bounded(c0, op.pre_pos@, v) && #[trigger] bounded(c0, op.conditional@[cc].cond_pos@, v)
                                        implies forall|q: int| #[trigger] is_set(op.conditional@[cc].add@, q) ==> !below(v.saturating_add(op.cost as u64), c0[q]) by {
                                    if cc == c {
                                        assert(is_set(op.conditional@[cc].cond_pos@, i));
                                    }
                                }
                            }
                        }
                    },
                    Some(m2) => {
                        let mm = if m1 >= m2 { m1 } else { m2 };
                        let t2 = mm.saturating_add(op.cost as u64);
                        proof {
                            assert(bounded(cb, op.pre_pos@, mm));
                            assert(bounded(cb, cond.cond_pos@, mm));
                            assert forall|d: Seq<Option<u64>>, q: int| #[trigger] stable_costs(task, state, d) && #[trigger] is_set(cond.add@, q)
                                implies rank(d[q]) <= t2 by {
                                lemma_below_bounded(cb, d, op.pre_pos@, mm);
                                lemma_below_bounded(cb, d, cond.cond_pos@, mm);
                                lemma_stable_closed(task, state, d, k as int);
                                assert(bounded(d, task.operators@[k as int].pre_pos@, mm));
                                assert(bounded(d, task.operators@[k as int].conditional@[c as int].cond_pos@, mm));
                            }
                            lemma_offer_keeps_above(task, state, cb, cond.add@, t2);
                            lemma_offer_keeps_zero(state, cb, cond.add@, t2);
                            lemma_offer_keeps_max(cb, cond.add@, t2, op.pre_pos@, m1);
                        }
                        let c2 = offer(costs, &cond.add, t2);
                        proof {
                            if !changed && !c2 {
                                assert forall|cc: int, v: u64|
                                    0 <= cc < c + 1 && #[trigger] bounded(c0, op.pre_pos@, v) && #[trigger] bounded(c0, op.conditional@[cc].cond_pos@, v)
                                        implies forall|q: int| #[trigger] is_set(op.conditional@[cc].add@, q) ==> !below(v.saturating_add(op.cost as u64), c0[q]) by {
                                    if cc == c {
                                        if m1 != 0 {
                                            let i = choose|i: int| #[trigger] is_set(op.pre_pos@, i) && c0[i] == Some(m1);
                                        }
                                        if m2 != 0 {
                                            let i = choose|i: int| #[trigger] is_set(cond.cond_pos@, i) && c0[i] == Some(m2);
                                        }
                                        assert(v >= mm);
                                        assert forall|q: int| #[trigger] is_set(op.conditional@[cc].add@, q) implies !below(v.saturating_add(op.cost as u64), c0[q]) by {
                                            assert(!below(t2, c0[q]));
                                        }
                                    }
                                }
                            }
                        }
                        changed = changed || c2;
                    },
                }
            }
            proof {
                if !changed {
                    assert forall|v: u64| #[trigger] bounded(c0, op.pre_pos@, v) implies forall|q: int|
                        #[trigger] is_set(op.add@, q) ==> !below(v.saturating_add(op.cost as u64), c0[q]) by {
                        if m1 != 0 {
                            let i = choose|i: int| #[trigger] is_set(op.pre_pos@, i) && c0[i] == Some(m1);
                        }
                        assert forall|q: int| #[trigger] is_set(op.add@, q) implies !below(v.saturating_add(op.cost as u64), c0[q]) by {
                            assert(!below(t, c0[q]));
                        }
                    }
                    assert(op_closed(task, c0, k as int));
                }
            }
        },
    }
    changed
}

/// The h^max fact costs from `state`: starting from cost 0 for the facts
/// of the state, every operator is relaxed in turn, pass after pass, until
/// a pass lowers no cost.
pub fn rpg_max_costs(task: &Task, state: &State) -> (costs: Vec<Option<u64>>)
    requires
        task.well_formed(),
        state@.len() == task.facts@.len(),
    ensures
        max_costs_of(task, state@, costs@),
{
    let nf = task.num_facts();
    let mut costs: Vec<Option<u64>> = Vec::new();
    for i in 0..nf
        invariant
            costs@ == Seq::new(i as nat, |j: int| None::<u64>),
    {
        costs.push(None);
        assert(costs@ =~= Seq::new((i + 1) as nat, |j: int| None::<u64>));
    }
    let ones = bitset_ones(&state.0);
    let m = ones.len();
    for j in 0..m
        invariant
            m == ones@.len(),
            nf == task.facts@.len(),
            costs@.len() == nf,
            state@.len() == nf,
            forall|k: int| 0 <= k < ones@.len() ==> is_set(state@, #[trigger] ones@[k] as int),
            forall|k: int| 0 <= k < j ==> costs@[#[trigger] ones@[k] as int] == Some(0u64),
            forall|i: int| 0 <= i < nf ==> (#[trigger] costs@[i] is Some ==> costs@[i] == Some(0u64) && is_set(state@, i)),
    {
        let b = ones[j];
        assert(is_set(state@, b as int));
        costs.set(b, Some(0));
    }
    proof {
        assert forall|i: int| #[trigger] is_set(state@, i) implies costs@[i] == Some(0u64) by {
            let k = choose|k: int| 0 <= k < ones@.len() && ones@[k] as int == i;
        }
        assert forall|d: Seq<Option<u64>>| #[trigger] stable_costs(task, state@, d) implies forall|q: int|
            0 <= q < costs@.len() ==> rank(#[trigger] d[q]) <= rank(costs@[q]) by {
            assert forall|q: int| 0 <= q < costs@.len() implies rank(#[trigger] d[q]) <= rank(costs@[q]) by {
                if costs@[q] is Some {
                    assert(is_set(state@, q));
                }
            }
        }
    }
    let nops = task.operators.len();
    let mut changed = true;
    while changed
        invariant
            task.well_formed(),
            nf == task.facts@.len(),
            nops == task.operators@.len(),
            costs@.len() == nf,
            state@.len() == nf,
            zero_on(state@, costs@),
            above_all_stable(task, state@, costs@),
            !changed ==> all_closed(task, costs@),
        decreases rank_sum(costs@, nf as int) + if changed { 1int } else { 0int },
    {
        changed = false;
        let ghost c0 = costs@;
        for k in 0..nops
            invariant
                task.well_formed(),
                nf == task.facts@.len(),
                nops == task.operators@.len(),
                costs@.len() == nf,
                state@.len() == nf,
                zero_on(state@, costs@),
                above_all_stable(task, state@, costs@),
                rank_sum(costs@, nf as int) <= rank_sum(c0, nf as int),
                changed ==> rank_sum(costs@, nf as int) < rank_sum(c0, nf as int),
                !changed ==> costs@ == c0,
                !changed ==> forall|kk: int| 0 <= kk < k ==> #[trigger] op_closed(task, c0, kk),
        {
            let c = relax_op(task, k, &mut costs, Ghost(state@));
            if c {
                changed = true;
            }
        }
        proof {
            if !changed {
                assert forall|kk: int| 0 <= kk < task.operators@.len() implies #[trigger] op_closed(task, costs@, kk) by {
                    assert(op_closed(task, c0, kk));
                }
            }
        }
    }
    costs
}

/// A fact set after the conditional effects were applied was set before or
/// is added by one of them that holds in `s`.
proof fn lemma_apply_conds_set(s: Seq<bool>, conds: Seq<CondEffect>, cur: Seq<bool>, q: int)
    requires
        is_set(apply_conds(s, conds, cur), q),
    ensures
        apply_conds(s, conds, cur).len() == cur.len(),
        is_set(cur, q) || exists|c: int| 0 <= c < conds.len() && cond_holds(s, #[trigger] conds[c]) && is_set(conds[c].add@, q),
    decreases conds.len(),
{
    lemma_apply_conds_len(s, conds, cur);
    if conds.len() > 0 {
        let inner = apply_conds(s, conds.drop_last(), cur);
        lemma_apply_conds_len(s, conds.drop_last(), cur);
        let last = conds.last();
        if cond_holds(s, last) && is_set(last.add@, q) {
            assert(conds[conds.len() - 1] == last);
        } else {
            assert(is_set(inner, q));
            lemma_apply_conds_set(s, conds.drop_last(), cur, q);
            if !is_set(cur, q) {
                let c = choose|c: int| 0 <= c < conds.drop_last().len() && cond_holds(s, #[trigger] conds.drop_last()[c]) && is_set(conds.drop_last()[c].add@, q);
                assert(conds.drop_last()[c] == conds[c]);
            }
        }
    }
}

/// Applying conditional effects keeps the length.
proof fn lemma_apply_conds_len(s: Seq<bool>, conds: Seq<CondEffect>, cur: Seq<bool>)
    ensures
        apply_conds(s, conds, cur).len() == cur.len(),
    decreases conds.len(),
{
    if conds.len() > 0 {
        lemma_apply_conds_len(s, conds.drop_last(), cur);
    }
}

/// Along any sequence of operators from `s`, every fact of the state
/// reached costs, in a stable table of `s`, at most the capped cost of the
/// sequence.
pub proof fn lemma_stable_below_path(task: &Task, s: Seq<bool>, costs: Seq<Option<u64>>, ops: Seq<OpId>)
    requires
        task.well_formed(),
        s.len() == task.facts@.len(),
        stable_costs(task, s, costs),
    ensures
        run_ops(task, s, ops) matches Some(t) ==> bounded(costs, t, capped(path_cost(task, ops))),
    decreases ops.len(),
{
    if ops.len() == 0 {
        assert forall|p: int| #[trigger] is_set(s, p) implies costs[p] is Some && costs[p]->0 <= capped(path_cost(task, ops)) by {
            assert(costs[p] == Some(0u64));
        }
    } else {
        let pre = ops.drop_last();
        let id = ops.last();
        assert(pre.push(id) =~= ops);
        lemma_run_push(task, s, pre, id);
        lemma_stable_below_path(task, s, costs, pre);
        if let Some(t1) = run_ops(task, s, pre) {
            if id.0 < task.operators@.len() && applicable_in(t1, task.operators@[id.0 as int]) {
                let k = id.0 as int;
                let op = task.operators@[k];
                let v = capped(path_cost(task, pre));
                let w = capped(path_cost(task, ops));
                assert(path_cost(task, ops) == path_cost(task, pre) + op.cost);
                assert(v.saturating_add(op.cost as u64) == w);
                let t = successor(t1, op);
                assert(op_closed(task, costs, k));
                assert(bounded(costs, op.pre_pos@, v)) by {
                    assert forall|p: int| #[trigger] is_set(op.pre_pos@, p) implies costs[p] is Some && costs[p]->0 <= v by {
                        assert(is_set(t1, p));
                    }
                }
                assert forall|q: int| #[trigger] is_set(t, q) implies costs[q] is Some && costs[q]->0 <= w by {
                    let base = overwrite(overwrite(t1, op.add@, true), op.del@, false);
                    lemma_apply_conds_set(t1, op.conditional@, base, q);
                    if is_set(base, q) {
                        if is_set(op.add@, q) {
                            assert(!below(v.saturating_add(op.cost as u64), costs[q]));
                        } else {
                            assert(is_set(t1, q));
                        }
                    } else {
                        let c = choose|c: int| 0 <= c < op.conditional@.len() && cond_holds(t1, #[trigger] op.conditional@[c])
                            && is_set(op.conditional@[c].add@, q);
                        assert(bounded(costs, op.conditional@[c].cond_pos@, v)) by {
                            assert forall|p: int| #[trigger] is_set(op.conditional@[c].cond_pos@, p) implies costs[p] is Some && costs[p]->0 <= v by {
                                assert(is_set(t1, p));
                            }
                        }
                        assert(!below(v.saturating_add(op.cost as u64), costs[q]));
                    }
                }
            }
        }
    }
}

/// The largest known cost over a goal bounded by `v` is at most `v`.
proof fn lemma_goal_max_bounded(goal: Seq<bool>, costs: Seq<Option<u64>>, v: u64, k: int)
    requires
        bounded(costs, goal, v),
    ensures
        goal_cost_max(goal, costs, k) is Some && goal_cost_max(goal, costs, k)->0 <= v,
    decreases k,
{
    if k > 0 {
        lemma_goal_max_bounded(goal, costs, v, k - 1);
        if is_set(goal, k - 1) {
            assert(costs[k - 1] is Some);
        }
    }
}

/// h^max is admissible: for every sequence of operators from `s` that
/// reaches the goal, the largest h^max cost of a positive goal fact is
/// known and at most the sequence's capped cost.
pub proof fn lemma_hmax_admissible(task: &Task, s: Seq<bool>, ops: Seq<OpId>)
    requires
        task.well_formed(),
        s.len() == task.facts@.len(),
        exists|c: Seq<Option<u64>>| max_costs_of(task, s, c),
    ensures
        run_ops(task, s, ops) matches Some(t) && satisfies_goal(t, task.goal_pos@, task.goal_neg@) ==> goal_cost_max(
            task.goal_pos@,
            hmax_table(task, s),
            task.goal_pos@.len() as int,
        ) is Some && goal_cost_max(task.goal_pos@, hmax_table(task, s), task.goal_pos@.len() as int)->0 <= capped(
            path_cost(task, ops),
        ),
{
    let c = hmax_table(task, s);
    assert(max_costs_of(task, s, c));
    lemma_stable_below_path(task, s, c, ops);
    if let Some(t) = run_ops(task, s, ops) {
        if satisfies_goal(t, task.goal_pos@, task.goal_neg@) {
            let w = capped(path_cost(task, ops));
            assert(bounded(c, task.goal_pos@, w)) by {
                assert forall|p: int| #[trigger] is_set(task.goal_pos@, p) implies c[p] is Some && c[p]->0 <= w by {
                    assert(is_set(t, p));
                }
            }
            lemma_goal_max_bounded(task.goal_pos@, c, w, task.goal_pos@.len() as int);
        }
    }
}

} // verus!
