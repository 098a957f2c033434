//! Relaxed planning graph heuristics: h^add, h^max and h^FF, plus forward
//! and backward relaxed fact costs used by bidirectional search.

use vstd::prelude::*;
use crate::search::{HValue, Heuristic};
use crate::task::{
    FactId, OpId, State, Task, CondEffect, Operator, is_set, subset, disjoint, fits, operator_fits,
    all_set_in, none_set_in, satisfies_goal,
};
use crate::bitset::bitset_ones;
use crate::heuristic::hmax::{hmax_table, rpg_max_costs, lemma_max_costs_unique, lemma_hmax_admissible};
use crate::plan::{run_ops, path_cost, capped};

verus! {

/// Positions below `n` whose relaxed cost is known, as a bit sequence.
pub open spec fn reached(costs: Seq<Option<u64>>) -> Seq<bool> {
    Seq::new(costs.len(), |i: int| costs[i] is Some)
}

/// An operator whose preconditions hold in the set `a`, read as a state.
pub open spec fn relaxed_applicable(a: Seq<bool>, op: Operator) -> bool {
    subset(op.pre_pos@, a) && disjoint(op.pre_neg@, a)
}

/// A conditional effect whose condition holds in the set `a`.
pub open spec fn relaxed_fires(a: Seq<bool>, c: CondEffect) -> bool {
    subset(c.cond_pos@, a) && disjoint(c.cond_neg@, a)
}

/// The reached set is stable: every operator applicable in it, and every
/// conditional effect of such an operator that fires in it, adds only facts
/// already reached.
pub open spec fn relaxed_stable(task: &Task, a: Seq<bool>) -> bool {
    forall|k: int|
        0 <= k < task.operators@.len() && relaxed_applicable(a, #[trigger] task.operators@[k]) ==> {
            &&& subset(task.operators@[k].add@, a)
            &&& forall|c: int|
                0 <= c < task.operators@[k].conditional@.len() && relaxed_fires(
                    a,
                    #[trigger] task.operators@[k].conditional@[c],
                ) ==> subset(task.operators@[k].conditional@[c].add@, a)
        }
}

/// What the forward relaxed costs computed from `state` satisfy: one cost
/// per fact, cost 0 for the facts of `state`, and a reached set that is
/// stable under the operators.
pub open spec fn forward_costs_ok(task: &Task, state: Seq<bool>, costs: Seq<Option<u64>>) -> bool {
    &&& costs.len() == task.facts@.len()
    &&& forall|i: int| #[trigger] is_set(state, i) ==> costs[i] == Some(0u64)
    &&& relaxed_stable(task, reached(costs))
}

/// The result of building the relaxed planning graph.
pub struct RpgResult {
    /// The relaxed cost of each fact (`None` when it is not reached).
    pub fact_cost: Vec<Option<u64>>,
    /// The operator index that last lowered each fact's cost.
    pub achiever: Vec<Option<usize>>,
    /// How many layers the graph grew.
    pub levels: usize,
}

/// Number of set positions below `k`.
pub open spec fn count_set(s: Seq<bool>, k: int) -> nat
    decreases k,
{
    if k <= 0 {
        0
    } else {
        count_set(s, k - 1) + if s[k - 1] { 1nat } else { 0nat }
    }
}

proof fn lemma_count_set_bound(s: Seq<bool>, k: int)
    requires
        0 <= k <= s.len(),
    ensures
        count_set(s, k) <= k,
    decreases k,
{
    if k > 0 {
        lemma_count_set_bound(s, k - 1);
    }
}

proof fn lemma_count_set_update(s: Seq<bool>, i: int, k: int)
    requires
        0 <= i < s.len(),
        0 <= k <= s.len(),
        !s[i],
    ensures
        count_set(s.update(i, true), k) == count_set(s, k) + if i < k { 1nat } else { 0nat },
    decreases k,
{
    if k > 0 {
        lemma_count_set_update(s, i, k - 1);
    }
}

/// The sum of the known costs of the positions below `k` set in `bits`.
pub open spec fn known_sum(bits: Seq<bool>, costs: Seq<Option<u64>>, k: int) -> nat
    decreases k,
{
    if k <= 0 {
        0
    } else {
        known_sum(bits, costs, k - 1) + if is_set(bits, k - 1) && costs[k - 1] is Some {
            costs[k - 1]->Some_0 as nat
        } else {
            0nat
        }
    }
}

/// A number capped at the largest `u64`.
pub open spec fn cap(t: int) -> u64 {
    if t <= u64::MAX { t as u64 } else { u64::MAX }
}

/// A sum over the set positions of `bits` with its known costs, starting
/// from `start`, capped at the largest `u64`.
pub open spec fn cost_with(bits: Seq<bool>, costs: Seq<Option<u64>>, start: u64) -> u64 {
    cap(start + known_sum(bits, costs, bits.len() as int))
}

/// The known sum grows only at set positions.
proof fn lemma_known_sum_skip(bits: Seq<bool>, costs: Seq<Option<u64>>, a: int, b: int)
    requires
        0 <= a <= b,
        forall|i: int| a <= i < b ==> !is_set(bits, i),
    ensures
        known_sum(bits, costs, b) == known_sum(bits, costs, a),
    decreases b - a,
{
    if a < b {
        lemma_known_sum_skip(bits, costs, a, b - 1);
    }
}

/// The sum of the known costs of the facts set in `bits`, from `start`
/// (saturating), as `cost_with` says.
fn sum_costs(bits: &State, costs: &Vec<Option<u64>>, start: u64) -> (total: u64)
    requires
        fits(bits@, costs@.len()),
    ensures
        total == cost_with(bits@, costs@, start),
{
    let ones = bitset_ones(&bits.0);
    let mut total = start;
    let n = ones.len();
    let ghost nb = bits@.len() as int;
    for j in 0..n
        invariant
            n == ones@.len(),
            nb == bits@.len(),
            fits(bits@, costs@.len()),
            forall|k: int| 0 <= k < ones@.len() ==> is_set(bits@, #[trigger] ones@[k] as int),
            forall|k: int, l: int| 0 <= k < l < ones@.len() ==> ones@[k] < ones@[l],
            forall|i: int| 0 <= i < nb && is_set(bits@, i) ==> exists|k: int| 0 <= k < ones@.len() && ones@[k] as int == i,
            total == cap(start + known_sum(bits@, costs@, if j == 0 { 0 } else { ones@[j - 1] + 1 })),
    {
        let b = ones[j];
        assert(is_set(bits@, b as int));
        let ghost prev = if j == 0 { 0int } else { ones@[j - 1] + 1 };
        proof {
            assert forall|i: int| prev <= i < b implies !is_set(bits@, i) by {
                if is_set(bits@, i) {
                    let k = choose|k: int| 0 <= k < ones@.len() && ones@[k] as int == i;
                    if k < j {
                        if j > 0 {
                            assert(ones@[k] <= ones@[j - 1]);
                        }
                    } else if k > j {
                        assert(ones@[j as int] < ones@[k]);
                    }
                }
            }
            lemma_known_sum_skip(bits@, costs@, prev, b as int);
        }
        match costs[b] {
            Some(c) => {
                total = total.saturating_add(c);
            },
            None => {},
        }
    }
    proof {
        let last = if n == 0 { 0int } else { ones@[n - 1] + 1 };
        assert forall|i: int| last <= i < nb implies !is_set(bits@, i) by {
            if is_set(bits@, i) {
                let k = choose|k: int| 0 <= k < ones@.len() && ones@[k] as int == i;
                assert(ones@[k] <= ones@[n - 1]);
            }
        }
        if last <= nb {
            lemma_known_sum_skip(bits@, costs@, last, nb);
        }
    }
    total
}

/// A cost offered for a fact lowers it when the fact has none or a higher one.
pub open spec fn better(old: Option<u64>, cost: u64) -> bool {
    match old {
        Some(c) => cost < c,
        None => true,
    }
}

/// The costs after offering `cost` for every fact set in `adds`.
pub open spec fn offered_costs(costs: Seq<Option<u64>>, adds: Seq<bool>, cost: u64) -> Seq<Option<u64>> {
    Seq::new(costs.len(), |i: int| if is_set(adds, i) && better(costs[i], cost) { Some(cost) } else { costs[i] })
}

/// The achievers after operator `op` offers `cost` for every fact set in
/// `adds`.
pub open spec fn offered_achievers(
    ach: Seq<Option<usize>>,
    costs: Seq<Option<u64>>,
    adds: Seq<bool>,
    cost: u64,
    op: usize,
) -> Seq<Option<usize>> {
    Seq::new(ach.len(), |i: int| if is_set(adds, i) && better(costs[i], cost) { Some(op) } else { ach[i] })
}

/// The relaxed graph's costs and achievers.
pub type RpgView = (Seq<Option<u64>>, Seq<Option<usize>>);

/// An offer of `cost` for the facts set in `adds` by operator `op`.
pub open spec fn offer_view(g: RpgView, adds: Seq<bool>, cost: u64, op: usize) -> RpgView {
    (offered_costs(g.0, adds, cost), offered_achievers(g.1, g.0, adds, cost, op))
}

/// The first `c` conditional effects of operator `k` (of base cost `cost`),
/// in order: each that fires in the facts reached so far offers `cost` plus
/// the costs of its conditions for its add effects.
pub open spec fn cond_run(op: Operator, k: usize, cost: u64, g: RpgView, c: int) -> RpgView
    decreases c,
{
    if c <= 0 || c > op.conditional@.len() {
        g
    } else {
        let g1 = cond_run(op, k, cost, g, c - 1);
        let cond = op.conditional@[c - 1];
        if relaxed_fires(reached(g1.0), cond) {
            offer_view(g1, cond.add@, cost_with(cond.cond_pos@, g1.0, cost), k)
        } else {
            g1
        }
    }
}

/// Operator `k` in the relaxed graph: when its preconditions hold among the
/// facts reached so far, it offers its cost plus the costs of its positive
/// preconditions for its add effects, then its conditional effects offer.
pub open spec fn op_run(task: &Task, k: int, g: RpgView) -> RpgView {
    let op = task.operators@[k];
    if relaxed_applicable(reached(g.0), op) {
        let cost = cost_with(op.pre_pos@, g.0, op.cost as u64);
        cond_run(op, k as usize, cost, offer_view(g, op.add@, cost, k as usize), op.conditional@.len() as int)
    } else {
        g
    }
}

/// One pass over the first `k` operators, in order.
pub open spec fn pass_run(task: &Task, g: RpgView, k: int) -> RpgView
    decreases k,
{
    if k <= 0 || k > task.operators@.len() {
        g
    } else {
        op_run(task, k - 1, pass_run(task, g, k - 1))
    }
}

/// Passes over all operators, at most `fuel` of them, until a pass reaches
/// no new fact.
pub open spec fn grown(task: &Task, g: RpgView, fuel: nat) -> RpgView
    decreases fuel,
{
    if fuel == 0 {
        g
    } else {
        let g1 = pass_run(task, g, task.operators@.len() as int);
        if count_set(reached(g1.0), task.facts@.len() as int) > count_set(reached(g.0), task.facts@.len() as int) {
            grown(task, g1, (fuel - 1) as nat)
        } else {
            g1
        }
    }
}

/// The relaxed graph before any pass: cost 0 for the facts of `state`, no
/// achievers.
pub open spec fn rpg_start(task: &Task, state: Seq<bool>) -> RpgView {
    (
        Seq::new(task.facts@.len(), |i: int| if is_set(state, i) { Some(0u64) } else { None }),
        Seq::new(task.facts@.len(), |i: int| None::<usize>),
    )
}

/// The relaxed planning graph grown from `state`: passes over the
/// operators until one reaches no new fact.
pub open spec fn rpg_view(task: &Task, state: Seq<bool>) -> RpgView {
    grown(task, rpg_start(task, state), (task.facts@.len() + 1) as nat)
}

/// The summed known costs of the facts set in `bits`.
pub open spec fn summed(bits: Seq<bool>, costs: Seq<Option<u64>>) -> nat {
    known_sum(bits, costs, bits.len() as int)
}

/// Operator `k` derives fact `f` at relaxed cost no more than `c`: its
/// positive preconditions are reached, and either it adds `f` and `c` is at
/// least its cost plus the summed costs of those preconditions, or one of
/// its conditional effects, whose positive conditions are reached, adds `f`
/// and `c` is at least that sum plus the summed costs of the conditions
/// (capped at the largest `u64`).
pub open spec fn derives(task: &Task, costs: Seq<Option<u64>>, k: int, f: int, c: u64) -> bool {
    let op = task.operators@[k];
    let base = op.cost as int + summed(op.pre_pos@, costs);
    &&& 0 <= k < task.operators@.len()
    &&& subset(op.pre_pos@, reached(costs))
    &&& ((is_set(op.add@, f) && c >= cap(base)) || exists|e: int|
        0 <= e < op.conditional@.len() && subset((#[trigger] op.conditional@[e]).cond_pos@, reached(costs)) && is_set(
            op.conditional@[e].add@,
            f,
        ) && c >= cap(base + summed(op.conditional@[e].cond_pos@, costs)))
}

/// Every known cost of a relaxed graph grown from `state` is accounted for:
/// a fact of `state` costs 0 and has no achiever, and any other known fact
/// has an achiever that derives it at no more than its cost.
pub open spec fn costs_derived(task: &Task, state: Seq<bool>, g: RpgView) -> bool {
    &&& g.0.len() == task.facts@.len()
    &&& g.1.len() == task.facts@.len()
    &&& forall|f: int| 0 <= f < g.0.len() && (#[trigger] g.0[f]) is Some ==> accounted(task, state, g, f)
    &&& forall|f: int| 0 <= f < g.0.len() && #[trigger] is_set(state, f) ==> g.0[f] == Some(0u64)
}

/// Fact `f`'s known cost is accounted for: 0 with no achiever for a fact of
/// `state`, else derived by its achiever at no more than the cost.
pub open spec fn accounted(task: &Task, state: Seq<bool>, g: RpgView, f: int) -> bool {
    ||| (is_set(state, f) && g.0[f] == Some(0u64) && g.1[f] is None)
    ||| (!is_set(state, f) && g.1[f] is Some && derives(task, g.0, g.1[f]->0 as int, f, g.0[f]->0))
}

/// `new` knows every cost `old` knows, at no more.
pub open spec fn costs_below(new: Seq<Option<u64>>, old: Seq<Option<u64>>) -> bool {
    &&& new.len() == old.len()
    &&& forall|i: int| 0 <= i < old.len() && (#[trigger] old[i]) is Some ==> new[i] is Some && new[i]->0 <= old[i]->0
}

/// Lower known costs give a lower sum over facts that were known.
proof fn lemma_known_sum_mono(bits: Seq<bool>, new: Seq<Option<u64>>, old: Seq<Option<u64>>, k: int)
    requires
        costs_below(new, old),
        forall|i: int| 0 <= i < k && #[trigger] is_set(bits, i) ==> i < old.len() && old[i] is Some,
    ensures
        known_sum(bits, new, k) <= known_sum(bits, old, k),
    decreases k,
{
    if k > 0 {
        lemma_known_sum_mono(bits, new, old, k - 1);
        if is_set(bits, k - 1) {
            assert(old[k - 1] is Some);
        }
    }
}

/// A derivation stays one when costs drop and more facts become known.
proof fn lemma_derives_below(task: &Task, new: Seq<Option<u64>>, old: Seq<Option<u64>>, k: int, f: int, c: u64)
    requires
        derives(task, old, k, f, c),
        costs_below(new, old),
    ensures
        derives(task, new, k, f, c),
{
    let op = task.operators@[k];
    assert forall|i: int| #[trigger] is_set(op.pre_pos@, i) implies is_set(reached(new), i) by {
        assert(is_set(reached(old), i));
    }
    assert forall|i: int| 0 <= i < op.pre_pos@.len() && #[trigger] is_set(op.pre_pos@, i) implies i < old.len() && old[i] is Some by {
        assert(is_set(reached(old), i));
    }
    lemma_known_sum_mono(op.pre_pos@, new, old, op.pre_pos@.len() as int);
    if !(is_set(op.add@, f) && c >= cap(op.cost as int + summed(op.pre_pos@, old))) {
        let e = choose|e: int|
            0 <= e < op.conditional@.len() && subset((#[trigger] op.conditional@[e]).cond_pos@, reached(old)) && is_set(
                op.conditional@[e].add@,
                f,
            ) && c >= cap(op.cost as int + summed(op.pre_pos@, old) + summed(op.conditional@[e].cond_pos@, old));
        let cond = op.conditional@[e];
        assert forall|i: int| #[trigger] is_set(cond.cond_pos@, i) implies is_set(reached(new), i) by {
            assert(is_set(reached(old), i));
        }
        assert forall|i: int| 0 <= i < cond.cond_pos@.len() && #[trigger] is_set(cond.cond_pos@, i) implies i < old.len() && old[i] is Some by {
            assert(is_set(reached(old), i));
        }
        lemma_known_sum_mono(cond.cond_pos@, new, old, cond.cond_pos@.len() as int);
        assert(subset(cond.cond_pos@, reached(new)));
    }
}

/// Offering `cost` for facts that operator `op` derives at that cost keeps
/// every known cost accounted for, and only lowers costs.
proof fn lemma_offer_derived(task: &Task, state: Seq<bool>, g: RpgView, adds: Seq<bool>, cost: u64, op: usize)
    requires
        costs_derived(task, state, g),
        forall|f: int| #[trigger] is_set(adds, f) ==> derives(task, g.0, op as int, f, cost),
    ensures
        costs_derived(task, state, offer_view(g, adds, cost, op)),
        costs_below(offer_view(g, adds, cost, op).0, g.0),
{
    let g2 = offer_view(g, adds, cost, op);
    assert(costs_below(g2.0, g.0));
    assert forall|f: int| 0 <= f < g2.0.len() && (#[trigger] g2.0[f]) is Some implies accounted(task, state, g2, f) by {
        if is_set(adds, f) && better(g.0[f], cost) {
            if is_set(state, f) {
                assert(g.0[f] == Some(0u64));
            }
            lemma_derives_below(task, g2.0, g.0, op as int, f, cost);
        } else {
            assert(g2.0[f] == g.0[f]);
            assert(g2.1[f] == g.1[f]);
            assert(accounted(task, state, g, f));
            if !is_set(state, f) {
                let k = g.1[f]->0;
                lemma_derives_below(task, g2.0, g.0, k as int, f, g.0[f]->0);
            }
        }
    }
}

/// The conditional effects of operator `k` keep every known cost accounted
/// for, when the base cost they start from is at least the operator's cost
/// plus its preconditions' costs.
proof fn lemma_cond_run_derived(task: &Task, state: Seq<bool>, k: usize, base: u64, g: RpgView, c: int)
    requires
        0 <= k < task.operators@.len(),
        costs_derived(task, state, g),
        subset(task.operators@[k as int].pre_pos@, reached(g.0)),
        base >= cap(task.operators@[k as int].cost as int + summed(task.operators@[k as int].pre_pos@, g.0)),
    ensures
        costs_derived(task, state, cond_run(task.operators@[k as int], k, base, g, c)),
        costs_below(cond_run(task.operators@[k as int], k, base, g, c).0, g.0),
    decreases c,
{
    let op = task.operators@[k as int];
    if c <= 0 || c > op.conditional@.len() {
    } else {
        lemma_cond_run_derived(task, state, k, base, g, c - 1);
        let g1 = cond_run(op, k, base, g, c - 1);
        let cond = op.conditional@[c - 1];
        if relaxed_fires(reached(g1.0), cond) {
            assert forall|i: int| #[trigger] is_set(op.pre_pos@, i) implies is_set(reached(g1.0), i) by {
                assert(is_set(reached(g.0), i));
            }
            assert forall|i: int| 0 <= i < op.pre_pos@.len() && #[trigger] is_set(op.pre_pos@, i) implies i < g.0.len() && g.0[i] is Some by {
                assert(is_set(reached(g.0), i));
            }
            lemma_known_sum_mono(op.pre_pos@, g1.0, g.0, op.pre_pos@.len() as int);
            let cc = cost_with(cond.cond_pos@, g1.0, base);
            assert forall|f: int| #[trigger] is_set(cond.add@, f) implies derives(task, g1.0, k as int, f, cc) by {
                assert(op.conditional@[c - 1] == cond);
                assert(cc >= cap(op.cost as int + summed(op.pre_pos@, g1.0) + summed(cond.cond_pos@, g1.0)));
            }
            lemma_offer_derived(task, state, g1, cond.add@, cc, k);
        }
    }
}

/// One operator of a pass keeps every known cost accounted for.
proof fn lemma_op_run_derived(task: &Task, state: Seq<bool>, k: int, g: RpgView)
    requires
        0 <= k < task.operators@.len(),
        costs_derived(task, state, g),
    ensures
        costs_derived(task, state, op_run(task, k, g)),
{
    let op = task.operators@[k];
    assert(task.operators@.len() == task.operators.len());
    assert((k as usize) as int == k);
    assert(task.operators@.len() == task.operators.len());
    assert((k as usize) as int == k);
    if relaxed_applicable(reached(g.0), op) {
        let cost = cost_with(op.pre_pos@, g.0, op.cost as u64);
        assert forall|f: int| #[trigger] is_set(op.add@, f) implies derives(task, g.0, k, f, cost) by {}
        lemma_offer_derived(task, state, g, op.add@, cost, k as usize);
        let g1 = offer_view(g, op.add@, cost, k as usize);
        assert forall|i: int| #[trigger] is_set(op.pre_pos@, i) implies is_set(reached(g1.0), i) by {
            assert(is_set(reached(g.0), i));
        }
        assert forall|i: int| 0 <= i < op.pre_pos@.len() && #[trigger] is_set(op.pre_pos@, i) implies i < g.0.len() && g.0[i] is Some by {
            assert(is_set(reached(g.0), i));
        }
        lemma_known_sum_mono(op.pre_pos@, g1.0, g.0, op.pre_pos@.len() as int);
        lemma_cond_run_derived(task, state, k as usize, cost, g1, op.conditional@.len() as int);
    }
}

/// A pass over the first `k` operators keeps every known cost accounted for.
proof fn lemma_pass_run_derived(task: &Task, state: Seq<bool>, g: RpgView, k: int)
    requires
        costs_derived(task, state, g),
    ensures
        costs_derived(task, state, pass_run(task, g, k)),
    decreases k,
{
    if k <= 0 || k > task.operators@.len() {
    } else {
        lemma_pass_run_derived(task, state, g, k - 1);
        lemma_op_run_derived(task, state, k - 1, pass_run(task, g, k - 1));
    }
}

/// Growing the graph keeps every known cost accounted for.
proof fn lemma_grown_derived(task: &Task, state: Seq<bool>, g: RpgView, fuel: nat)
    requires
        costs_derived(task, state, g),
    ensures
        costs_derived(task, state, grown(task, g, fuel)),
    decreases fuel,
{
    if fuel > 0 {
        lemma_pass_run_derived(task, state, g, task.operators@.len() as int);
        let g1 = pass_run(task, g, task.operators@.len() as int);
        if count_set(reached(g1.0), task.facts@.len() as int) > count_set(reached(g.0), task.facts@.len() as int) {
            lemma_grown_derived(task, state, g1, (fuel - 1) as nat);
        }
    }
}

/// Every relaxed cost the graph grown from a state assigns is a real
/// derivation's: a fact of the state costs 0, and any other reached fact
/// has an achieving operator whose cost, plus the summed costs of its
/// positive preconditions, plus — when a conditional effect adds the fact —
/// the summed costs of that effect's positive conditions, is at most the
/// fact's cost. So no cost is cheaper than what its achiever pays.
pub proof fn lemma_rpg_costs_derived(task: &Task, state: Seq<bool>)
    ensures
        costs_derived(task, state, rpg_view(task, state)),
{
    let g0 = rpg_start(task, state);
    assert forall|f: int| 0 <= f < g0.0.len() && (#[trigger] g0.0[f]) is Some implies accounted(task, state, g0, f) by {}
    lemma_grown_derived(task, state, g0, (task.facts@.len() + 1) as nat);
}

/// The mutable part of the graph while it grows.
struct Growth {
    fact_cost: Vec<Option<u64>>,
    achiever: Vec<Option<usize>>,
    achieved: State,
    num_achieved: usize,
    changed: bool,
    level_facts: usize,
}

impl Growth {
    spec fn inv(&self, task: &Task, state: Seq<bool>) -> bool {
        let n = task.facts@.len();
        &&& state.len() == n
        &&& self.fact_cost@.len() == n
        &&& self.achiever@.len() == n
        &&& self.achieved@.len() == n
        &&& self.achieved@ == reached(self.fact_cost@)
        &&& self.num_achieved == count_set(self.achieved@, n as int)
        &&& self.num_achieved <= n
        &&& forall|i: int| #[trigger] is_set(state, i) ==> self.fact_cost@[i] == Some(0u64)
        &&& forall|i: int| 0 <= i < n ==> ((#[trigger] self.achiever@[i]) matches Some(o) ==> o < task.operators@.len())
        &&& forall|i: int| #[trigger] is_set(state, i) ==> self.achiever@[i] is None
    }

    /// Offers `cost` for every fact set in `adds`, achieved by operator `op_idx`.
    fn offer(&mut self, task: &Task, Ghost(state): Ghost<Seq<bool>>, adds: &State, cost: u64, op_idx: usize)
        requires
            old(self).inv(task, state),
            fits(adds@, task.facts@.len()),
            op_idx < task.operators@.len(),
        ensures
            final(self).inv(task, state),
            final(self).num_achieved >= old(self).num_achieved,
            final(self).changed == (old(self).changed || final(self).num_achieved > old(self).num_achieved),
            subset(adds@, final(self).achieved@),
            subset(old(self).achieved@, final(self).achieved@),
            final(self).num_achieved == old(self).num_achieved ==> final(self).achieved@ == old(self).achieved@,
            final(self).level_facts >= old(self).level_facts,
            (final(self).fact_cost@, final(self).achiever@) == offer_view(
                (old(self).fact_cost@, old(self).achiever@),
                adds@,
                cost,
                op_idx,
            ),
    {
        let nf = task.num_facts();
        let ghost c0 = self.fact_cost@;
        let ghost a0 = self.achiever@;
        let ones = bitset_ones(&adds.0);
        let n = ones.len();
        for j in 0..n
            invariant
                n == ones@.len(),
                fits(adds@, task.facts@.len()),
                nf == task.facts@.len(),
                op_idx < task.operators@.len(),
                forall|k: int| 0 <= k < ones@.len() ==> is_set(adds@, #[trigger] ones@[k] as int),
                self.inv(task, state),
                self.num_achieved >= old(self).num_achieved,
                self.changed == (old(self).changed || self.num_achieved > old(self).num_achieved),
                forall|k: int| 0 <= k < j ==> is_set(self.achieved@, #[trigger] ones@[k] as int),
                subset(old(self).achieved@, self.achieved@),
                self.num_achieved == old(self).num_achieved ==> self.achieved@ == old(self).achieved@,
                self.level_facts >= old(self).level_facts,
                c0 == old(self).fact_cost@,
                a0 == old(self).achiever@,
                forall|k: int, l: int| 0 <= k < l < ones@.len() ==> ones@[k] < ones@[l],
                forall|i: int|
                    0 <= i < nf ==> #[trigger] self.fact_cost@[i] == if (exists|k: int| 0 <= k < j && ones@[k] as int == i)
                        && better(c0[i], cost) {
                        Some(cost)
                    } else {
                        c0[i]
                    },
                forall|i: int|
                    0 <= i < nf ==> #[trigger] self.achiever@[i] == if (exists|k: int| 0 <= k < j && ones@[k] as int == i)
                        && better(c0[i], cost) {
                        Some(op_idx)
                    } else {
                        a0[i]
                    },
        {
            let bit = ones[j];
            proof {
                assert forall|k: int| 0 <= k < j implies ones@[k] != bit by {
                    assert(ones@[k] < ones@[j as int]);
                }
                assert(self.fact_cost@[bit as int] == c0[bit as int]);
            }
            let ghost fc_pre = self.fact_cost@;
            let ghost ac_pre = self.achiever@;
            assert(is_set(adds@, bit as int));
            let lowers = match self.fact_cost[bit] {
                Some(c) => cost < c,
                None => true,
            };
            if lowers {
                let ghost before = self.achieved@;
                let ghost fc_before = self.fact_cost@;
                self.fact_cost.set(bit, Some(cost));
                self.achiever.set(bit, Some(op_idx));
                if !self.achieved.contains(FactId(bit)) {
                    self.achieved.set(FactId(bit), true);
                    proof {
                        lemma_count_set_update(before, bit as int, task.facts@.len() as int);
                        lemma_count_set_bound(self.achieved@, task.facts@.len() as int);
                    }
                    self.num_achieved = self.num_achieved + 1;
                    if self.level_facts < usize::MAX {
                        self.level_facts = self.level_facts + 1;
                    }
                    self.changed = true;
                }
                proof {
                    assert(self.achieved@ =~= reached(self.fact_cost@));
                    assert forall|i: int| #[trigger] is_set(state, i) implies self.fact_cost@[i] == Some(0u64) by {
                        if i == bit as int {
                            assert(fc_before[i] == Some(0u64));
                            assert(false);
                        } else {
                            assert(fc_before[i] == Some(0u64));
                        }
                    }
                    assert forall|i: int| #[trigger] is_set(state, i) implies self.achiever@[i] is None by {
                        if i == bit as int {
                            assert(fc_before[i] == Some(0u64));
                            assert(false);
                        }
                    }
                }
            }
            assert(is_set(self.achieved@, bit as int));
            proof {
                assert forall|i: int| 0 <= i < nf implies #[trigger] self.fact_cost@[i] == if (exists|k: int|
                    0 <= k < j + 1 && ones@[k] as int == i) && better(c0[i], cost) {
                    Some(cost)
                } else {
                    c0[i]
                } by {
                    if i == bit as int {
                        assert(ones@[j as int] as int == i);
                    } else {
                        assert(self.fact_cost@[i] == fc_pre[i]);
                        if exists|k: int| 0 <= k < j + 1 && ones@[k] as int == i {
                            let k = choose|k: int| 0 <= k < j + 1 && ones@[k] as int == i;
                            assert(k != j);
                        }
                    }
                }
                assert forall|i: int| 0 <= i < nf implies #[trigger] self.achiever@[i] == if (exists|k: int|
                    0 <= k < j + 1 && ones@[k] as int == i) && better(c0[i], cost) {
                    Some(op_idx)
                } else {
                    a0[i]
                } by {
                    if i == bit as int {
                        assert(ones@[j as int] as int == i);
                    } else {
                        assert(self.achiever@[i] == ac_pre[i]);
                        if exists|k: int| 0 <= k < j + 1 && ones@[k] as int == i {
                            let k = choose|k: int| 0 <= k < j + 1 && ones@[k] as int == i;
                            assert(k != j);
                        }
                    }
                }
            }
        }
        proof {
            assert forall|i: int| #[trigger] is_set(adds@, i) implies is_set(self.achieved@, i) by {
                let k = choose|k: int| 0 <= k < ones@.len() && ones@[k] as int == i;
            }
            assert(self.fact_cost@ =~= offered_costs(c0, adds@, cost)) by {
                assert forall|i: int| 0 <= i < nf implies self.fact_cost@[i] == offered_costs(c0, adds@, cost)[i] by {
                    if is_set(adds@, i) {
                        let k = choose|k: int| 0 <= k < ones@.len() && ones@[k] as int == i;
                    }
                }
            }
            assert(self.achiever@ =~= offered_achievers(a0, c0, adds@, cost, op_idx)) by {
                assert forall|i: int| 0 <= i < nf implies self.achiever@[i] == offered_achievers(a0, c0, adds@, cost, op_idx)[i] by {
                    if is_set(adds@, i) {
                        let k = choose|k: int| 0 <= k < ones@.len() && ones@[k] as int == i;
                    }
                }
            }
        }
    }
}

/// Grows the relaxed planning graph from `state` until no operator reaches
/// a new fact.
pub fn build_rpg(task: &Task, state: &State) -> (r: RpgResult)
    requires
        task.well_formed(),
        state@.len() == task.facts@.len(),
    ensures
        forward_costs_ok(task, state@, r.fact_cost@),
        r.achiever@.len() == task.facts@.len(),
        forall|i: int| 0 <= i < r.achiever@.len() ==> ((#[trigger] r.achiever@[i]) matches Some(o) ==> o < task.operators@.len()),
        forall|i: int| #[trigger] is_set(state@, i) ==> r.achiever@[i] is None,
        (r.fact_cost@, r.achiever@) == rpg_view(task, state@),
        costs_derived(task, state@, (r.fact_cost@, r.achiever@)),
{
    proof {
        lemma_rpg_costs_derived(task, state@);
    }
    let n = task.num_facts();
    let mut fact_cost: Vec<Option<u64>> = Vec::new();
    let mut achiever: Vec<Option<usize>> = Vec::new();
    for i in 0..n
        invariant
            fact_cost@ == Seq::new(i as nat, |j: int| None::<u64>),
            achiever@ == Seq::new(i as nat, |j: int| None::<usize>),
    {
        fact_cost.push(None);
        achiever.push(None);
        assert(fact_cost@ =~= Seq::new((i + 1) as nat, |j: int| None::<u64>));
        assert(achiever@ =~= Seq::new((i + 1) as nat, |j: int| None::<usize>));
    }
    let mut g = Growth {
        fact_cost,
        achiever,
        achieved: State::new(n),
        num_achieved: 0,
        changed: true,
        level_facts: 0,
    };
    proof {
        assert(g.achieved@ =~= reached(g.fact_cost@));
        assert(count_set(g.achieved@, n as int) == 0) by {
            lemma_count_zero(g.achieved@, n as int);
        }
        lemma_count_set_bound(g.achieved@, n as int);
    }
    let ones = bitset_ones(&state.0);
    let m = ones.len();
    for j in 0..m
        invariant
            m == ones@.len(),
            n == task.facts@.len(),
            state@.len() == n,
            forall|k: int| 0 <= k < ones@.len() ==> is_set(state@, #[trigger] ones@[k] as int),
            g.fact_cost@.len() == n,
            g.achiever@ == Seq::new(n as nat, |j: int| None::<usize>),
            g.achieved@ == reached(g.fact_cost@),
            g.num_achieved == count_set(g.achieved@, n as int),
            g.num_achieved <= n,
            g.changed,
            forall|k: int| 0 <= k < j ==> g.fact_cost@[#[trigger] ones@[k] as int] == Some(0u64),
            forall|i: int| 0 <= i < n ==> ((#[trigger] g.fact_cost@[i]) matches Some(c) ==> c == 0),
            forall|i: int|
                0 <= i < n ==> #[trigger] g.fact_cost@[i] == if exists|k: int| 0 <= k < j && ones@[k] as int == i {
                    Some(0u64)
                } else {
                    None
                },
    {
        let bit = ones[j];
        assert(is_set(state@, bit as int));
        let ghost before = g.achieved@;
        g.fact_cost.set(bit, Some(0));
        if !g.achieved.contains(FactId(bit)) {
            g.achieved.set(FactId(bit), true);
            proof {
                lemma_count_set_update(before, bit as int, n as int);
                lemma_count_set_bound(g.achieved@, n as int);
            }
            g.num_achieved = g.num_achieved + 1;
        }
        proof {
            assert forall|i: int| 0 <= i < n implies #[trigger] g.fact_cost@[i] == if exists|k: int|
                0 <= k < j + 1 && ones@[k] as int == i {
                Some(0u64)
            } else {
                None
            } by {
                if i != bit as int {
                    if exists|k: int| 0 <= k < j + 1 && ones@[k] as int == i {
                        let k = choose|k: int| 0 <= k < j + 1 && ones@[k] as int == i;
                        assert(k != j);
                    }
                } else {
                    assert(ones@[j as int] as int == i);
                }
            }
        }
        assert(g.achieved@ =~= reached(g.fact_cost@));
    }
    proof {
        assert forall|i: int| #[trigger] is_set(state@, i) implies g.fact_cost@[i] == Some(0u64) by {
            let k = choose|k: int| 0 <= k < ones@.len() && ones@[k] as int == i;
        }
        assert forall|i: int| #[trigger] is_set(state@, i) implies g.achiever@[i] is None by {}
        assert(g.fact_cost@ =~= rpg_start(task, state@).0) by {
            assert forall|i: int| 0 <= i < n implies g.fact_cost@[i] == rpg_start(task, state@).0[i] by {
                if is_set(state@, i) {
                    let k = choose|k: int| 0 <= k < ones@.len() && ones@[k] as int == i;
                } else if exists|k: int| 0 <= k < m && ones@[k] as int == i {
                    let k = choose|k: int| 0 <= k < m && ones@[k] as int == i;
                    assert(is_set(state@, ones@[k] as int));
                }
            }
        }
        assert(g.achiever@ =~= rpg_start(task, state@).1);
    }
    let mut levels: usize = 0;
    let ghost start_count = g.num_achieved;
    let ghost start_view = rpg_start(task, state@);
    let ghost mut fuel: nat = (n + 1) as nat;
    let nops = task.operators.len();
    while g.changed
        invariant
            task.well_formed(),
            n == task.facts@.len(),
            nops == task.operators@.len(),
            g.inv(task, state@),
            start_count <= g.num_achieved <= n,
            g.changed ==> levels <= g.num_achieved - start_count,
            !g.changed ==> relaxed_stable(task, g.achieved@),
            start_view == rpg_start(task, state@),
            g.changed ==> fuel >= n - g.num_achieved + 1 && grown(task, start_view, (n + 1) as nat) == grown(
                task,
                (g.fact_cost@, g.achiever@),
                fuel,
            ),
            !g.changed ==> grown(task, start_view, (n + 1) as nat) == (g.fact_cost@, g.achiever@),
        decreases 2 * (n - g.num_achieved) + if g.changed { 1int } else { 0int },
    {
        let ghost gv0 = (g.fact_cost@, g.achiever@);
        g.changed = false;
        g.level_facts = 0;
        let mut level_ops: usize = 0;
        let ghost pass_start = g.num_achieved;
        let ghost a0 = g.achieved@;
        for op_idx in 0..nops
            invariant
                task.well_formed(),
                n == task.facts@.len(),
                nops == task.operators@.len(),
                g.inv(task, state@),
                (g.fact_cost@, g.achiever@) == pass_run(task, gv0, op_idx as int),
                g.num_achieved >= pass_start,
                g.changed == (g.num_achieved > pass_start),
                !g.changed ==> g.achieved@ == a0,
                level_ops <= op_idx,
                !g.changed ==> forall|k: int|
                    0 <= k < op_idx && relaxed_applicable(a0, #[trigger] task.operators@[k]) ==> {
                        &&& subset(task.operators@[k].add@, a0)
                        &&& forall|c: int|
                            0 <= c < task.operators@[k].conditional@.len() && relaxed_fires(
                                a0,
                                #[trigger] task.operators@[k].conditional@[c],
                            ) ==> subset(task.operators@[k].conditional@[c].add@, a0)
                    },
        {
            let op = &task.operators[op_idx];
            assert(operator_fits(task.operators@[op_idx as int], n as nat));
            let ghost a_before = g.achieved@;
            let ghost changed_before = g.changed;
            let ghost num_before = g.num_achieved;
            let ghost gv_op = (g.fact_cost@, g.achiever@);
            if all_set_in(&op.pre_pos, &g.achieved) && none_set_in(&op.pre_neg, &g.achieved) {
                let cost = sum_costs(&op.pre_pos, &g.fact_cost, op.cost as u64);
                g.offer(task, Ghost(state@), &op.add, cost, op_idx);
                let ghost g1 = (g.fact_cost@, g.achiever@);
                let nconds = op.conditional.len();
                for c in 0..nconds
                    invariant
                        (g.fact_cost@, g.achiever@) == cond_run(*op, op_idx, cost, g1, c as int),
                        task.well_formed(),
                        n == task.facts@.len(),
                        nops == task.operators@.len(),
                        op_idx < nops,
                        *op == task.operators@[op_idx as int],
                        nconds == op.conditional@.len(),
                        operator_fits(*op, n as nat),
                        g.inv(task, state@),
                        g.num_achieved >= pass_start,
                        g.num_achieved >= num_before,
                        g.changed == (g.num_achieved > pass_start),
                        !g.changed ==> g.achieved@ == a0,
                        !g.changed ==> subset(op.add@, a0),
                        !g.changed ==> forall|cc: int|
                            0 <= cc < c && relaxed_fires(a0, #[trigger] op.conditional@[cc])
                                ==> subset(op.conditional@[cc].add@, a0),
                {
                    let cond = &op.conditional[c];
                    assert(fits(op.conditional@[c as int].add@, n as nat));
                    assert(fits(op.conditional@[c as int].cond_pos@, n as nat));
                    if all_set_in(&cond.cond_pos, &g.achieved) && none_set_in(&cond.cond_neg, &g.achieved) {
                        let cond_cost = sum_costs(&cond.cond_pos, &g.fact_cost, cost);
                        g.offer(task, Ghost(state@), &cond.add, cond_cost, op_idx);
                    }
                }
                proof {
                    assert(op_run(task, op_idx as int, gv_op) == (g.fact_cost@, g.achiever@));
                }
                if level_ops < usize::MAX {
                    level_ops = level_ops + 1;
                }
            }
            proof {
                if !g.changed {
                    assert(*op == task.operators@[op_idx as int]);
                    assert(g.achieved@ == a0);
                    if relaxed_applicable(a0, task.operators@[op_idx as int]) {
                        assert(subset(op.add@, a0));
                        assert(forall|cc: int|
                            0 <= cc < op.conditional@.len() && relaxed_fires(a0, #[trigger] op.conditional@[cc])
                                ==> subset(op.conditional@[cc].add@, a0));
                    }
                }
            }
        }
        if g.level_facts > 0 || level_ops > 0 {
            if levels < usize::MAX {
                levels = levels + 1;
            }
        }
        proof {
            if !g.changed {
                assert(relaxed_stable(task, g.achieved@));
            } else {
                fuel = (fuel - 1) as nat;
            }
        }
    }
    proof {
        assert(g.achieved@ == reached(g.fact_cost@));
    }
    RpgResult { fact_cost: g.fact_cost, achiever: g.achiever, levels }
}

proof fn lemma_count_zero(s: Seq<bool>, k: int)
    requires
        0 <= k <= s.len(),
        forall|i: int| 0 <= i < s.len() ==> !s[i],
    ensures
        count_set(s, k) == 0,
    decreases k,
{
    if k > 0 {
        lemma_count_zero(s, k - 1);
    }
}

/// The sum of the costs of the positive goal facts below `k`; `None` when
/// one of them has no cost.
pub open spec fn goal_cost_sum(goal: Seq<bool>, costs: Seq<Option<u64>>, k: int) -> Option<nat>
    decreases k,
{
    if k <= 0 {
        Some(0)
    } else {
        match goal_cost_sum(goal, costs, k - 1) {
            None => None,
            Some(t) => if is_set(goal, k - 1) {
                match costs[k - 1] {
                    Some(c) => Some((t + c) as nat),
                    None => None,
                }
            } else {
                Some(t)
            },
        }
    }
}

/// The largest cost of a positive goal fact below `k`; `None` when one of
/// them has no cost.
pub open spec fn goal_cost_max(goal: Seq<bool>, costs: Seq<Option<u64>>, k: int) -> Option<u64>
    decreases k,
{
    if k <= 0 {
        Some(0u64)
    } else {
        match goal_cost_max(goal, costs, k - 1) {
            None => None,
            Some(t) => if is_set(goal, k - 1) {
                match costs[k - 1] {
                    Some(c) => Some(if c > t { c } else { t }),
                    None => None,
                }
            } else {
                Some(t)
            },
        }
    }
}

/// A finite value capped at the largest `u64`, infinity kept.
pub open spec fn capped_value(v: Option<nat>) -> HValue {
    match v {
        Some(t) => HValue(Some(if t <= u64::MAX { t as u64 } else { u64::MAX })),
        None => HValue(None),
    }
}

/// h^add over given fact costs.
fn add_over_goal(goal: &State, costs: &Vec<Option<u64>>) -> (h: HValue)
    requires
        fits(goal@, costs@.len()),
    ensures
        h == capped_value(goal_cost_sum(goal@, costs@, goal@.len() as int)),
{
    let n = goal.len();
    let mut total: u64 = 0;
    for i in 0..n
        invariant
            n == goal@.len(),
            fits(goal@, costs@.len()),
            goal_cost_sum(goal@, costs@, i as int) is Some,
            capped_value(goal_cost_sum(goal@, costs@, i as int)) == HValue(Some(total)),
    {
        if goal.contains(FactId(i)) {
            assert(is_set(goal@, i as int));
            match costs[i] {
                Some(c) => {
                    total = total.saturating_add(c);
                },
                None => {
                    proof {
                        lemma_goal_sum_none(goal@, costs@, i as int + 1, n as int);
                    }
                    return HValue(None);
                },
            }
        }
    }
    HValue(Some(total))
}

proof fn lemma_goal_sum_none(goal: Seq<bool>, costs: Seq<Option<u64>>, k: int, m: int)
    requires
        k <= m,
        goal_cost_sum(goal, costs, k) is None,
    ensures
        goal_cost_sum(goal, costs, m) is None,
    decreases m - k,
{
    if k < m {
        lemma_goal_sum_none(goal, costs, k + 1, m);
    }
}

proof fn lemma_goal_max_none(goal: Seq<bool>, costs: Seq<Option<u64>>, k: int, m: int)
    requires
        k <= m,
        goal_cost_max(goal, costs, k) is None,
    ensures
        goal_cost_max(goal, costs, m) is None,
    decreases m - k,
{
    if k < m {
        lemma_goal_max_none(goal, costs, k + 1, m);
    }
}

/// h^max over given fact costs.
pub fn max_over_goal(goal: &State, costs: &Vec<Option<u64>>) -> (h: HValue)
    requires
        fits(goal@, costs@.len()),
    ensures
        h == HValue(goal_cost_max(goal@, costs@, goal@.len() as int)),
{
    let n = goal.len();
    let mut best: u64 = 0;
    for i in 0..n
        invariant
            n == goal@.len(),
            fits(goal@, costs@.len()),
            goal_cost_max(goal@, costs@, i as int) == Some(best),
    {
        if goal.contains(FactId(i)) {
            assert(is_set(goal@, i as int));
            match costs[i] {
                Some(c) => {
                    if c > best {
                        best = c;
                    }
                },
                None => {
                    proof {
                        lemma_goal_max_none(goal@, costs@, i as int + 1, n as int);
                    }
                    return HValue(None);
                },
            }
        }
    }
    HValue(Some(best))
}

/// The forward relaxed cost of every fact, from `state`.
pub fn rpg_fact_costs(task: &Task, state: &State) -> (costs: Vec<Option<u64>>)
    requires
        task.well_formed(),
        state@.len() == task.facts@.len(),
    ensures
        forward_costs_ok(task, state@, costs@),
        costs@ == rpg_view(task, state@).0,
{
    build_rpg(task, state).fact_cost
}

/// The additive heuristic (Bonet & Geffner, 2001): the sum of the relaxed
/// costs of the positive goal facts.
pub struct HAdd;

/// The max heuristic (Bonet & Geffner, 2001): the largest h^max cost of a
/// positive goal fact, where a fact costs the least, over its achievers, of
/// the achiever's cost plus the largest cost of its preconditions. It never
/// exceeds the cost of a plan.
pub struct HMax;

/// The FF heuristic (Hoffmann & Nebel, 2001): the cost of a relaxed plan
/// extracted backwards from the goal through the achievers.
pub struct HFF;

impl HAdd {
    pub fn value(&self, task: &Task, state: &State) -> (h: HValue)
        requires
            task.well_formed(),
            state@.len() == task.facts@.len(),
        ensures
            h == capped_value(goal_cost_sum(task.goal_pos@, rpg_view(task, state@).0, task.goal_pos@.len() as int)),
    {
        let rpg = build_rpg(task, state);
        add_over_goal(&task.goal_pos, &rpg.fact_cost)
    }
}

impl HMax {
    pub fn value(&self, task: &Task, state: &State) -> (h: HValue)
        requires
            task.well_formed(),
            state@.len() == task.facts@.len(),
        ensures
            h == HValue(goal_cost_max(task.goal_pos@, hmax_table(task, state@), task.goal_pos@.len() as int)),
            forall|ops: Seq<OpId>|
                #[trigger] run_ops(task, state@, ops) matches Some(t) && satisfies_goal(t, task.goal_pos@, task.goal_neg@) ==> (h.0
                    is Some && h.0->0 <= capped(path_cost(task, ops))),
    {
        let costs = rpg_max_costs(task, state);
        proof {
            lemma_max_costs_unique(task, state@, hmax_table(task, state@), costs@);
            assert forall|ops: Seq<OpId>|
                #[trigger] run_ops(task, state@, ops) matches Some(t) && satisfies_goal(t, task.goal_pos@, task.goal_neg@) implies goal_cost_max(
                task.goal_pos@,
                costs@,
                task.goal_pos@.len() as int,
            ) is Some && goal_cost_max(task.goal_pos@, costs@, task.goal_pos@.len() as int)->0 <= capped(path_cost(task, ops)) by {
                lemma_hmax_admissible(task, state@, ops);
            }
        }
        assert forall|x: int| #[trigger] is_set(task.goal_pos@, x) implies x < costs@.len() by {
            assert(crate::task::fits(task.goal_pos@, task.facts@.len()));
        }
        max_over_goal(&task.goal_pos, &costs)
    }
}

/// The state with one entry per fact, holding the facts of `s` below `n`.
pub open spec fn fit_to(s: Seq<bool>, n: nat) -> Seq<bool> {
    Seq::new(n, |i: int| is_set(s, i))
}

/// A state with one entry per fact is its own fitted state.
pub proof fn lemma_fit_full(s: Seq<bool>, n: nat)
    requires
        s.len() == n,
    ensures
        fit_to(s, n) == s,
{
    assert(fit_to(s, n) =~= s);
}

/// The state with one entry per fact, holding the facts of `state` below `n`.
fn fitted_state(state: &State, n: usize) -> (r: State)
    ensures
        r@ == fit_to(state@, n as nat),
{
    let mut r = State::new(n);
    for i in 0..n
        invariant
            r@.len() == n,
            forall|j: int| 0 <= j < i ==> r@[j] == is_set(state@, j),
            forall|j: int| i <= j < n ==> !r@[j],
    {
        if state.contains(FactId(i)) {
            r.set(FactId(i), true);
        }
    }
    assert(r@ =~= fit_to(state@, n as nat));
    r
}

impl Heuristic for HAdd {
    /// A state whose facts all lie below the number of facts.
    open spec fn accepts(&self, task: &Task, s: Seq<bool>) -> bool {
        fits(s, task.facts@.len())
    }

    open spec fn estimate_of(&self, task: &Task, s: Seq<bool>) -> Option<u64> {
        let f = fit_to(s, task.facts@.len());
        capped_value(goal_cost_sum(task.goal_pos@, rpg_view(task, f).0, task.goal_pos@.len() as int)).0
    }

    fn name(&self) -> (r: &'static str)
        ensures
            r@ == "hadd"@,
    {
        "hadd"
    }

    fn estimate(&self, task: &Task, state: &State) -> HValue {
        let fitted = fitted_state(state, task.num_facts());
        self.value(task, &fitted)
    }
}

impl Heuristic for HMax {
    /// A state whose facts all lie below the number of facts.
    open spec fn accepts(&self, task: &Task, s: Seq<bool>) -> bool {
        fits(s, task.facts@.len())
    }

    open spec fn estimate_of(&self, task: &Task, s: Seq<bool>) -> Option<u64> {
        goal_cost_max(task.goal_pos@, hmax_table(task, fit_to(s, task.facts@.len())), task.goal_pos@.len() as int)
    }

    fn name(&self) -> (r: &'static str)
        ensures
            r@ == "hmax"@,
    {
        "hmax"
    }

    fn estimate(&self, task: &Task, state: &State) -> HValue {
        let fitted = fitted_state(state, task.num_facts());
        self.value(task, &fitted)
    }
}

/// A strictly increasing sequence of values below `n` has at most `n` elements.
proof fn lemma_increasing_len(v: Seq<usize>, n: int)
    requires
        0 <= n,
        forall|a: int, b: int| 0 <= a < b < v.len() ==> v[a] < v[b],
        forall|a: int| 0 <= a < v.len() ==> v[a] < n,
    ensures
        v.len() <= n,
    decreases v.len(),
{
    if v.len() > 0 {
        let w = v.drop_last();
        assert(v.last() < n);
        assert forall|a: int| 0 <= a < w.len() implies w[a] < v.last() by {
            assert(w[a] == v[a]);
        }
        lemma_increasing_len(w, v.last() as int);
        assert(w.len() == v.len() - 1);
        assert(v.len() <= v.last() + 1);
    }
}

/// Number of `true` entries below `k`.
pub open spec fn count_true(v: Seq<bool>, k: int) -> nat
    decreases k,
{
    if k <= 0 {
        0
    } else {
        count_true(v, k - 1) + if v[k - 1] { 1nat } else { 0nat }
    }
}

/// A relaxed plan steps from fact `f` to fact `p` when `p` is a positive
/// precondition of the operator that achieves `f`.
pub open spec fn ff_edge(task: &Task, ach: Seq<Option<usize>>, f: int, p: int) -> bool {
    &&& 0 <= f < ach.len()
    &&& ach[f] is Some
    &&& (ach[f]->Some_0 as int) < task.operators@.len()
    &&& is_set(task.operators@[ach[f]->Some_0 as int].pre_pos@, p)
}

/// A chain of facts from a positive goal fact of known cost, each step
/// going to a precondition of the previous fact's achiever.
pub open spec fn ff_chain(task: &Task, ach: Seq<Option<usize>>, costs: Seq<Option<u64>>, path: Seq<int>) -> bool {
    &&& path.len() > 0
    &&& is_set(task.goal_pos@, path[0])
    &&& 0 <= path[0] < costs.len()
    &&& costs[path[0]] is Some
    &&& forall|j: int| 0 <= j < path.len() - 1 ==> #[trigger] ff_edge(task, ach, path[j], path[j + 1])
}

/// The facts the relaxed plan reaches: those at the end of some chain.
pub open spec fn ff_reached(task: &Task, ach: Seq<Option<usize>>, costs: Seq<Option<u64>>, f: int) -> bool {
    exists|path: Seq<int>| #[trigger] ff_chain(task, ach, costs, path) && path.last() == f
}

/// The operators of the relaxed plan: the achievers of the facts it reaches.
pub open spec fn ff_ops(task: &Task, ach: Seq<Option<usize>>, costs: Seq<Option<u64>>) -> Seq<bool> {
    Seq::new(
        task.operators@.len(),
        |o: int| exists|f: int| 0 <= f < ach.len() && #[trigger] ff_reached(task, ach, costs, f) && ach[f] == Some(o as usize),
    )
}

/// The summed cost of the marked operators below `k`.
pub open spec fn marked_cost(task: &Task, marked: Seq<bool>, k: int) -> nat
    decreases k,
{
    if k <= 0 {
        0
    } else {
        marked_cost(task, marked, k - 1) + if marked[k - 1] { task.operators@[k - 1].cost as nat } else { 0nat }
    }
}

/// The FF value over a relaxed graph: the summed cost (capped at the largest
/// `u64`) of the achievers of the facts reached back from the goal.
pub open spec fn ff_value(task: &Task, g: RpgView) -> u64 {
    cap(marked_cost(task, ff_ops(task, g.1, g.0), task.operators@.len() as int) as int)
}

proof fn lemma_marked_cost_update(task: &Task, marked: Seq<bool>, o: int, k: int)
    requires
        0 <= o < marked.len(),
        0 <= k <= marked.len(),
        marked.len() == task.operators@.len(),
        !marked[o],
    ensures
        marked_cost(task, marked.update(o, true), k) == marked_cost(task, marked, k) + if o < k {
            task.operators@[o].cost as nat
        } else {
            0nat
        },
    decreases k,
{
    if k > 0 {
        lemma_marked_cost_update(task, marked, o, k - 1);
    }
}

proof fn lemma_marked_cost_zero(task: &Task, marked: Seq<bool>, k: int)
    requires
        0 <= k <= marked.len(),
        forall|i: int| 0 <= i < marked.len() ==> !marked[i],
    ensures
        marked_cost(task, marked, k) == 0,
    decreases k,
{
    if k > 0 {
        lemma_marked_cost_zero(task, marked, k - 1);
    }
}

/// Facts a chain reaches lie in any set that holds the chain's start and is
/// closed under the chain's steps.
proof fn lemma_chain_inside(task: &Task, ach: Seq<Option<usize>>, costs: Seq<Option<u64>>, vis: Seq<bool>, path: Seq<int>)
    requires
        ff_chain(task, ach, costs, path),
        costs.len() == vis.len(),
        forall|g: int| 0 <= g < vis.len() && is_set(task.goal_pos@, g) && costs[g] is Some ==> vis[g],
        forall|f: int, p: int| 0 <= f < vis.len() && vis[f] && #[trigger] ff_edge(task, ach, f, p) ==> 0 <= p < vis.len() && vis[p],
    ensures
        0 <= path.last() < vis.len() && vis[path.last()],
    decreases path.len(),
{
    if path.len() > 1 {
        let q = path.drop_last();
        assert forall|j: int| 0 <= j < q.len() - 1 implies #[trigger] ff_edge(task, ach, q[j], q[j + 1]) by {
            assert(ff_edge(task, ach, path[j], path[j + 1]));
        }
        lemma_chain_inside(task, ach, costs, vis, q);
        let j = path.len() - 2;
        assert(ff_edge(task, ach, path[j], path[j + 1]));
        assert(q.last() == path[j]);
    }
}

/// Pushes onto `stack` the positive preconditions of the achiever `op_idx` of
/// `fact` that are not yet visited; the entries already there stay in place.
fn push_unvisited_pre(
    task: &Task,
    Ghost(ach): Ghost<Seq<Option<usize>>>,
    Ghost(costs): Ghost<Seq<Option<u64>>>,
    fact: usize,
    op_idx: usize,
    visited: &Vec<bool>,
    stack: &mut Vec<usize>,
)
    requires
        task.well_formed(),
        (op_idx as int) < task.operators@.len(),
        visited@.len() == task.facts@.len(),
        0 <= fact < ach.len(),
        ach[fact as int] == Some(op_idx),
        ff_reached(task, ach, costs, fact as int),
        forall|k: int| 0 <= k < old(stack)@.len() ==> (#[trigger] old(stack)@[k]) < task.facts@.len(),
        forall|k: int| 0 <= k < old(stack)@.len() ==> ff_reached(task, ach, costs, #[trigger] old(stack)@[k] as int),
    ensures
        old(stack)@.len() <= final(stack)@.len() <= old(stack)@.len() + task.facts@.len(),
        forall|k: int| 0 <= k < old(stack)@.len() ==> final(stack)@[k] == old(stack)@[k],
        forall|k: int| 0 <= k < final(stack)@.len() ==> (#[trigger] final(stack)@[k]) < task.facts@.len(),
        forall|k: int| 0 <= k < final(stack)@.len() ==> ff_reached(task, ach, costs, #[trigger] final(stack)@[k] as int),
        forall|p: int|
            is_set(task.operators@[op_idx as int].pre_pos@, p) ==> 0 <= p < task.facts@.len() && (visited@[p] || exists|k: int|
                0 <= k < final(stack)@.len() && #[trigger] final(stack)@[k] as int == p),
{
    let nf = task.num_facts();
    let ghost st1 = stack@;
    let op = &task.operators[op_idx];
    assert(crate::task::operator_fits(task.operators@[op_idx as int], nf as nat));
    let pre = bitset_ones(&op.pre_pos.0);
    let m = pre.len();
    proof {
        assert forall|a: int| 0 <= a < pre@.len() implies pre@[a] < nf by {
            assert(is_set(op.pre_pos@, pre@[a] as int));
        }
        lemma_increasing_len(pre@, nf as int);
    }
    for q in 0..m
        invariant
            m == pre@.len(),
            m <= nf,
            nf == task.facts@.len(),
            forall|a: int| 0 <= a < pre@.len() ==> pre@[a] < nf,
            forall|a: int| 0 <= a < pre@.len() ==> is_set(op.pre_pos@, #[trigger] pre@[a] as int),
            visited@.len() == nf,
            forall|k: int| 0 <= k < stack@.len() ==> (#[trigger] stack@[k]) < nf,
            st1.len() <= stack@.len() <= st1.len() + q,
            forall|k: int| 0 <= k < st1.len() ==> stack@[k] == st1[k],
            forall|k: int| 0 <= k < stack@.len() ==> ff_reached(task, ach, costs, #[trigger] stack@[k] as int),
            ff_reached(task, ach, costs, fact as int),
            0 <= fact < ach.len(),
            ach[fact as int] == Some(op_idx),
            *op == task.operators@[op_idx as int],
            (op_idx as int) < task.operators@.len(),
            forall|a: int| 0 <= a < q ==> visited@[pre@[a] as int] || exists|k: int|
                0 <= k < stack@.len() && #[trigger] stack@[k] == pre@[a],
    {
        let p = pre[q];
        if !visited[p] {
            let ghost sb = stack@;
            stack.push(p);
            proof {
                assert(is_set(op.pre_pos@, pre@[q as int] as int));
                assert(ff_edge(task, ach, fact as int, p as int));
                let path0 = choose|path: Seq<int>| #[trigger] ff_chain(task, ach, costs, path) && path.last() == fact as int;
                let path1 = path0.push(p as int);
                assert forall|jj: int| 0 <= jj < path1.len() - 1 implies #[trigger] ff_edge(task, ach, path1[jj], path1[jj + 1]) by {
                    if jj < path0.len() - 1 {
                        assert(path1[jj] == path0[jj]);
                        assert(path1[jj + 1] == path0[jj + 1]);
                    } else {
                        assert(path1[jj] == fact as int);
                        assert(path1[jj + 1] == p as int);
                    }
                }
                assert(ff_chain(task, ach, costs, path1));
                assert(path1.last() == p as int);
                assert forall|k: int| 0 <= k < stack@.len() implies ff_reached(task, ach, costs, #[trigger] stack@[k] as int) by {
                    if k < sb.len() {
                        assert(stack@[k] == sb[k]);
                    }
                }
                assert forall|k: int| 0 <= k < st1.len() implies stack@[k] == st1[k] by {
                    assert(stack@[k] == sb[k]);
                }
                assert forall|a: int| 0 <= a < q + 1 implies visited@[pre@[a] as int] || exists|k: int|
                    0 <= k < stack@.len() && #[trigger] stack@[k] == pre@[a] by {
                    if a < q {
                        if !visited@[pre@[a] as int] {
                            let k = choose|k: int| 0 <= k < sb.len() && #[trigger] sb[k] == pre@[a];
                            assert(stack@[k] == sb[k]);
                        }
                    } else {
                        assert(stack@[sb.len() as int] == pre@[a]);
                    }
                }
            }
        }
    }
    proof {
        assert forall|pp: int| is_set(op.pre_pos@, pp) implies 0 <= pp < nf && (visited@[pp] || exists|k: int|
            0 <= k < stack@.len() && #[trigger] stack@[k] as int == pp) by {
            let a = choose|a: int| 0 <= a < pre@.len() && pre@[a] as int == pp;
            if !visited@[pp] {
                let k = choose|k: int| 0 <= k < stack@.len() && #[trigger] stack@[k] == pre@[a];
            }
        }
    }
}

/// Extracts a relaxed plan by walking achievers back from the reachable
/// positive goal facts; the result is the summed cost of the operators used,
/// as `ff_ops` and `marked_cost` say.
#[verifier::rlimit(100)]
#[verifier::spinoff_prover]
fn extract_relaxed_plan_cost(task: &Task, state: &State, rpg: &RpgResult) -> (total: u64)
    requires
        task.well_formed(),
        state@.len() == task.facts@.len(),
        rpg.fact_cost@.len() == task.facts@.len(),
        rpg.achiever@.len() == task.facts@.len(),
        forall|i: int| 0 <= i < rpg.achiever@.len() ==> ((#[trigger] rpg.achiever@[i]) matches Some(o) ==> o < task.operators@.len()),
        forall|i: int| #[trigger] is_set(state@, i) ==> rpg.achiever@[i] is None,
    ensures
        subset(task.goal_pos@, state@) ==> total == 0,
        total == cap(marked_cost(task, ff_ops(task, rpg.achiever@, rpg.fact_cost@), task.operators@.len() as int) as int),
{
    let ghost ach = rpg.achiever@;
    let ghost costs = rpg.fact_cost@;
    let nf = task.num_facts();
    let nops = task.operators.len();
    let mut marked: Vec<bool> = Vec::new();
    for i in 0..nops
        invariant
            marked@ == Seq::new(i as nat, |j: int| false),
    {
        marked.push(false);
        assert(marked@ =~= Seq::new((i + 1) as nat, |j: int| false));
    }
    let mut visited: Vec<bool> = Vec::new();
    for i in 0..nf
        invariant
            visited@ == Seq::new(i as nat, |j: int| false),
    {
        visited.push(false);
        assert(visited@ =~= Seq::new((i + 1) as nat, |j: int| false));
    }
    proof {
        lemma_count_true_zero(visited@, nf as int);
        lemma_marked_cost_zero(task, marked@, nops as int);
    }
    let goal_ones = bitset_ones(&task.goal_pos.0);
    let mut stack: Vec<usize> = Vec::new();
    let g = goal_ones.len();
    for j in 0..g
        invariant
            g == goal_ones@.len(),
            task.well_formed(),
            nf == task.facts@.len(),
            forall|k: int| 0 <= k < goal_ones@.len() ==> is_set(task.goal_pos@, #[trigger] goal_ones@[k] as int),
            forall|k: int, l: int| 0 <= k < l < goal_ones@.len() ==> goal_ones@[k] < goal_ones@[l],
            forall|i: int| 0 <= i < task.goal_pos@.len() && task.goal_pos@[i] ==> exists|k: int|
                0 <= k < goal_ones@.len() && goal_ones@[k] as int == i,
            rpg.fact_cost@.len() == nf,
            costs == rpg.fact_cost@,
            ach == rpg.achiever@,
            forall|k: int| 0 <= k < stack@.len() ==> (#[trigger] stack@[k]) < nf,
            forall|k: int| 0 <= k < stack@.len() ==> is_set(task.goal_pos@, #[trigger] stack@[k] as int),
            forall|k: int| 0 <= k < stack@.len() ==> ff_reached(task, ach, costs, #[trigger] stack@[k] as int),
            forall|k: int|
                0 <= k < j && costs[goal_ones@[k] as int] is Some ==> exists|q: int|
                    0 <= q < stack@.len() && #[trigger] stack@[q] == goal_ones@[k],
            stack@.len() <= j,
    {
        let b = goal_ones[j];
        assert(is_set(task.goal_pos@, b as int));
        if rpg.fact_cost[b].is_some() {
            let ghost before = stack@;
            stack.push(b);
            proof {
                let path = seq![b as int];
                assert(ff_chain(task, ach, costs, path));
                assert(path.last() == b as int);
                assert(stack@[before.len() as int] == b);
                assert forall|k: int| 0 <= k < stack@.len() implies ff_reached(task, ach, costs, #[trigger] stack@[k] as int) by {
                    if k < before.len() {
                        assert(stack@[k] == before[k]);
                    }
                }
                assert forall|k: int|
                    0 <= k < j + 1 && costs[goal_ones@[k] as int] is Some implies exists|q: int|
                        0 <= q < stack@.len() && #[trigger] stack@[q] == goal_ones@[k] by {
                    if k < j {
                        let q = choose|q: int| 0 <= q < before.len() && #[trigger] before[q] == goal_ones@[k];
                        assert(stack@[q] == before[q]);
                    } else {
                        assert(stack@[before.len() as int] == goal_ones@[k]);
                    }
                }
            }
        }
    }
    let mut total: u64 = 0;
    let mut num_visited: usize = 0;
    let ghost goal_in_state = subset(task.goal_pos@, state@);
    while stack.len() > 0
        invariant
            nf <= usize::MAX,
            task.well_formed(),
            nf == task.facts@.len(),
            nops == task.operators@.len(),
            state@.len() == nf,
            rpg.achiever@.len() == nf,
            costs == rpg.fact_cost@,
            ach == rpg.achiever@,
            costs.len() == nf,
            forall|i: int| 0 <= i < rpg.achiever@.len() ==> ((#[trigger] rpg.achiever@[i]) matches Some(o) ==> o < task.operators@.len()),
            forall|i: int| #[trigger] is_set(state@, i) ==> rpg.achiever@[i] is None,
            goal_in_state == subset(task.goal_pos@, state@),
            marked@.len() == nops,
            visited@.len() == nf,
            num_visited == count_true(visited@, nf as int),
            num_visited <= nf,
            forall|k: int| 0 <= k < stack@.len() ==> (#[trigger] stack@[k]) < nf,
            goal_in_state ==> total == 0,
            goal_in_state ==> forall|k: int| 0 <= k < stack@.len() ==> is_set(state@, #[trigger] stack@[k] as int),
            total == cap(marked_cost(task, marked@, nops as int) as int),
            forall|k: int| 0 <= k < stack@.len() ==> ff_reached(task, ach, costs, #[trigger] stack@[k] as int),
            forall|f: int| 0 <= f < nf && #[trigger] visited@[f] ==> ff_reached(task, ach, costs, f),
            forall|o: int|
                0 <= o < nops ==> (#[trigger] marked@[o] <==> exists|f: int| 0 <= f < nf && visited@[f] && ach[f] == Some(o as usize)),
            forall|f: int| 0 <= f < nf && #[trigger] visited@[f] && ach[f] is Some ==> marked@[ach[f]->Some_0 as int],
            forall|o: int, p: int|
                #![trigger marked@[o], is_set(task.operators@[o].pre_pos@, p)]
                0 <= o < nops && marked@[o] && is_set(task.operators@[o].pre_pos@, p) ==> 0 <= p < nf && (visited@[p]
                    || exists|q: int| 0 <= q < stack@.len() && #[trigger] stack@[q] as int == p),
            forall|i: int|
                0 <= i < nf && is_set(task.goal_pos@, i) && costs[i] is Some ==> visited@[i] || exists|q: int|
                    0 <= q < stack@.len() && #[trigger] stack@[q] as int == i,
        decreases (nf - num_visited) * (nf + 1) + stack@.len(),
    {
        let ghost s0 = stack@.len();
        let ghost v0 = num_visited;
        let ghost st0 = stack@;
        let fact = stack.pop().unwrap();
        assert(fact < nf);
        assert(st0[st0.len() - 1] == fact);
        if visited[fact] {
            proof {
                assert forall|o: int, p: int|
                    #![trigger marked@[o], is_set(task.operators@[o].pre_pos@, p)]
                    0 <= o < nops && marked@[o] && is_set(task.operators@[o].pre_pos@, p) implies 0 <= p < nf && (visited@[p]
                        || exists|q: int| 0 <= q < stack@.len() && #[trigger] stack@[q] as int == p) by {
                    if !visited@[p] {
                        let q = choose|q: int| 0 <= q < st0.len() && #[trigger] st0[q] as int == p;
                        assert(q != st0.len() - 1);
                        assert(stack@[q] == st0[q]);
                    }
                }
                assert forall|i: int|
                    0 <= i < nf && is_set(task.goal_pos@, i) && costs[i] is Some implies visited@[i] || exists|q: int|
                        0 <= q < stack@.len() && #[trigger] stack@[q] as int == i by {
                    if !visited@[i] {
                        let q = choose|q: int| 0 <= q < st0.len() && #[trigger] st0[q] as int == i;
                        assert(q != st0.len() - 1);
                        assert(stack@[q] == st0[q]);
                    }
                }
                assert forall|k: int| 0 <= k < stack@.len() implies ff_reached(task, ach, costs, #[trigger] stack@[k] as int) by {
                    assert(stack@[k] == st0[k]);
                }
            }
            continue;
        }
        let ghost before = visited@;
        let ghost marked0 = marked@;
        visited.set(fact, true);
        proof {
            lemma_count_true_update(before, fact as int, nf as int);
            lemma_count_true_bound(visited@, nf as int);
            assert(ff_reached(task, ach, costs, st0[st0.len() - 1] as int));
        }
        num_visited = num_visited + 1;
        let ghost stack_before = stack@.len();
        let ghost st1 = stack@;
        match rpg.achiever[fact] {
            Some(op_idx) => {
                if !marked[op_idx] {
                    proof {
                        if goal_in_state {
                            assert(is_set(state@, fact as int));
                            assert(false);
                        }
                    }
                    marked.set(op_idx, true);
                    let op = &task.operators[op_idx];
                    proof {
                        lemma_marked_cost_update(task, marked0, op_idx as int, nops as int);
                    }
                    total = total.saturating_add(op.cost as u64);
                    assert(crate::task::operator_fits(task.operators@[op_idx as int], nf as nat));
                    push_unvisited_pre(task, Ghost(ach), Ghost(costs), fact, op_idx, &visited, &mut stack);
                }
            },
            None => {},
        }
        proof {
            assert(stack@.len() <= s0 - 1 + nf);
            assert(num_visited == v0 + 1);
            let nn = nf as int;
            let vv = v0 as int;
            assert((nn - vv) * (nn + 1) == (nn - (vv + 1)) * (nn + 1) + (nn + 1)) by (nonlinear_arith);
            // stack entries other than those just pushed are the old ones below the popped top
            assert forall|o: int, p: int|
                #![trigger marked@[o], is_set(task.operators@[o].pre_pos@, p)]
                0 <= o < nops && marked@[o] && is_set(task.operators@[o].pre_pos@, p) implies 0 <= p < nf && (visited@[p]
                    || exists|q: int| 0 <= q < stack@.len() && #[trigger] stack@[q] as int == p) by {
                if marked0[o] {
                    assert(0 <= p < nf);
                    if !visited@[p] {
                        assert(!before[p]);
                        let q = choose|q: int| 0 <= q < st0.len() && #[trigger] st0[q] as int == p;
                        if q == st0.len() - 1 {
                            assert(p == fact as int);
                            assert(false);
                        }
                        assert(st1[q] == st0[q]);
                        assert(stack@[q] == st1[q]);
                    }
                }
            }
            assert forall|i: int|
                0 <= i < nf && is_set(task.goal_pos@, i) && costs[i] is Some implies visited@[i] || exists|q: int|
                    0 <= q < stack@.len() && #[trigger] stack@[q] as int == i by {
                if !visited@[i] {
                    let q = choose|q: int| 0 <= q < st0.len() && #[trigger] st0[q] as int == i;
                    if q == st0.len() - 1 {
                        assert(false);
                    }
                    assert(st1[q] == st0[q]);
                    assert(stack@[q] == st1[q]);
                }
            }
            assert forall|o: int|
                0 <= o < nops implies (#[trigger] marked@[o] <==> exists|f: int| 0 <= f < nf && visited@[f] && ach[f] == Some(o as usize)) by {
                if marked@[o] && !marked0[o] {
                    assert(visited@[fact as int] && ach[fact as int] == Some(o as usize));
                }
                if exists|f: int| 0 <= f < nf && visited@[f] && ach[f] == Some(o as usize) {
                    let f = choose|f: int| 0 <= f < nf && visited@[f] && ach[f] == Some(o as usize);
                    if f != fact as int {
                        assert(before[f]);
                    }
                }
            }
        }
    }
    proof {
        let vis = visited@;
        assert forall|f: int, p: int| 0 <= f < vis.len() && vis[f] && #[trigger] ff_edge(task, ach, f, p) implies 0 <= p < vis.len() && vis[p] by {
            let o = ach[f]->Some_0 as int;
            assert(marked@[o]);
        }
        assert(ff_ops(task, ach, costs) =~= marked@) by {
            assert forall|o: int| 0 <= o < nops implies ff_ops(task, ach, costs)[o] == marked@[o] by {
                if marked@[o] {
                    let f = choose|f: int| 0 <= f < nf && visited@[f] && ach[f] == Some(o as usize);
                    assert(ff_reached(task, ach, costs, f));
                }
                if ff_ops(task, ach, costs)[o] {
                    let f = choose|f: int| 0 <= f < ach.len() && #[trigger] ff_reached(task, ach, costs, f) && ach[f] == Some(o as usize);
                    let path = choose|path: Seq<int>| #[trigger] ff_chain(task, ach, costs, path) && path.last() == f;
                    lemma_chain_inside(task, ach, costs, vis, path);
                }
            }
        }
    }
    total
}

proof fn lemma_count_true_zero(v: Seq<bool>, k: int)
    requires
        0 <= k <= v.len(),
        forall|i: int| 0 <= i < v.len() ==> !v[i],
    ensures
        count_true(v, k) == 0,
    decreases k,
{
    if k > 0 {
        lemma_count_true_zero(v, k - 1);
    }
}

proof fn lemma_count_true_bound(v: Seq<bool>, k: int)
    requires
        0 <= k <= v.len(),
    ensures
        count_true(v, k) <= k,
    decreases k,
{
    if k > 0 {
        lemma_count_true_bound(v, k - 1);
    }
}

proof fn lemma_count_true_update(v: Seq<bool>, i: int, k: int)
    requires
        0 <= i < v.len(),
        0 <= k <= v.len(),
        !v[i],
    ensures
        count_true(v.update(i, true), k) == count_true(v, k) + if i < k { 1nat } else { 0nat },
    decreases k,
{
    if k > 0 {
        lemma_count_true_update(v, i, k - 1);
    }
}

impl HFF {
    pub fn value(&self, task: &Task, state: &State) -> (h: HValue)
        requires
            task.well_formed(),
            state@.len() == task.facts@.len(),
        ensures
            h == HValue(Some(ff_value(task, rpg_view(task, state@)))),
            subset(task.goal_pos@, state@) ==> h == HValue(Some(0u64)),
    {
        let rpg = build_rpg(task, state);
        let cost = extract_relaxed_plan_cost(task, state, &rpg);
        HValue(Some(cost))
    }
}

impl Heuristic for HFF {
    /// A state whose facts all lie below the number of facts.
    open spec fn accepts(&self, task: &Task, s: Seq<bool>) -> bool {
        fits(s, task.facts@.len())
    }

    open spec fn estimate_of(&self, task: &Task, s: Seq<bool>) -> Option<u64> {
        Some(ff_value(task, rpg_view(task, fit_to(s, task.facts@.len()))))
    }

    fn name(&self) -> (r: &'static str)
        ensures
            r@ == "hff"@,
    {
        "hff"
    }

    fn estimate(&self, task: &Task, state: &State) -> (h: HValue)
        ensures
            subset(task.goal_pos@, state@) ==> h == HValue(Some(0u64)),
    {
        let n = task.num_facts();
        let fitted = fitted_state(state, n);
        proof {
            if subset(task.goal_pos@, state@) {
                assert forall|i: int| #[trigger] is_set(task.goal_pos@, i) implies is_set(fitted@, i) by {
                    assert(fits(task.goal_pos@, task.facts@.len()));
                }
            }
        }
        self.value(task, &fitted)
    }
}

/// An order on costs where an unknown cost is above every known one.
pub open spec fn rank(o: Option<u64>) -> nat {
    match o {
        Some(c) => c as nat,
        None => 0x1_0000_0000_0000_0000nat,
    }
}

/// The sum of the ranks of the costs below `k`.
pub open spec fn rank_sum(s: Seq<Option<u64>>, k: int) -> nat
    decreases k,
{
    if k <= 0 {
        0
    } else {
        rank_sum(s, k - 1) + rank(s[k - 1])
    }
}

proof fn lemma_rank_sum_update(s: Seq<Option<u64>>, i: int, v: Option<u64>, k: int)
    requires
        0 <= i < s.len(),
        0 <= k <= s.len(),
        rank(v) <= rank(s[i]),
    ensures
        rank_sum(s.update(i, v), k) + (if i < k { rank(s[i]) } else { 0 }) == rank_sum(s, k) + (if i < k {
            rank(v)
        } else {
            0
        }),
    decreases k,
{
    if k > 0 {
        lemma_rank_sum_update(s, i, v, k - 1);
    }
}

/// A cost strictly below an optional cost, where `None` is infinite.
pub open spec fn below(c: u64, o: Option<u64>) -> bool {
    match o {
        Some(d) => c < d,
        None => true,
    }
}

/// Every fact set in `bits` has a known cost, and `m` is the largest of them.
pub open spec fn max_known(bits: Seq<bool>, costs: Seq<Option<u64>>, m: u64) -> bool {
    &&& forall|i: int| #[trigger] is_set(bits, i) ==> costs[i] is Some && costs[i]->0 <= m
    &&& (m == 0 || exists|i: int| #[trigger] is_set(bits, i) && costs[i] == Some(m))
}

proof fn lemma_max_known_unique(bits: Seq<bool>, costs: Seq<Option<u64>>, m1: u64, m2: u64)
    requires
        max_known(bits, costs, m1),
        max_known(bits, costs, m2),
    ensures
        m1 == m2,
{
    if m1 != 0 {
        let i = choose|i: int| #[trigger] is_set(bits, i) && costs[i] == Some(m1);
    }
    if m2 != 0 {
        let j = choose|j: int| #[trigger] is_set(bits, j) && costs[j] == Some(m2);
    }
}

/// What the backward relaxed costs towards a goal satisfy: one cost per
/// fact, cost 0 for the positive goal facts, and no operator relaxation
/// left to make — for an operator whose add effects all have known costs,
/// each precondition costs at most the largest add cost plus the
/// operator's cost.
pub open spec fn backward_costs_ok(task: &Task, goal_pos: Seq<bool>, costs: Seq<Option<u64>>) -> bool {
    &&& costs.len() == task.facts@.len()
    &&& forall|i: int| #[trigger] is_set(goal_pos, i) ==> costs[i] == Some(0u64)
    &&& forall|k: int, m: u64|
        0 <= k < task.operators@.len() && task.operators@[k].add@.len() > 0 && #[trigger] max_known(
            task.operators@[k].add@,
            costs,
            m,
        ) ==> forall|p: int|
            #[trigger] is_set(task.operators@[k].pre_pos@, p) ==> !below(
                m.saturating_add(task.operators@[k].cost as u64),
                costs[p],
            )
}

/// `c` is at most `d`, where an unknown cost is above every known one.
pub open spec fn at_most(c: Option<u64>, d: Option<u64>) -> bool {
    match (c, d) {
        (_, None) => true,
        (None, Some(_)) => false,
        (Some(x), Some(y)) => x <= y,
    }
}

/// Every table that meets `backward_costs_ok` lies at or below `costs`:
/// `costs` is the greatest such table, so a fact no operator chain leads
/// from to the goal keeps an unknown cost, and every known cost is as large
/// as the relaxation allows.
pub open spec fn above_backward_tables(task: &Task, goal_pos: Seq<bool>, costs: Seq<Option<u64>>) -> bool {
    forall|t: Seq<Option<u64>>| #[trigger] backward_costs_ok(task, goal_pos, t)
        ==> forall|i: int| 0 <= i < costs.len() ==> at_most(#[trigger] t[i], costs[i])
}

/// A set of facts whose costs are all known and at most `bound` has a
/// largest cost, itself at most `bound`.
proof fn lemma_max_known_exists(bits: Seq<bool>, costs: Seq<Option<u64>>, bound: u64)
    requires
        forall|i: int| #[trigger] is_set(bits, i) ==> costs[i] is Some && costs[i]->0 <= bound,
    ensures
        exists|m: u64| m <= bound && #[trigger] max_known(bits, costs, m),
    decreases bits.len(),
{
    if bits.len() == 0 {
        assert(max_known(bits, costs, 0));
    } else {
        let n = bits.len() - 1;
        let front = bits.take(n);
        assert forall|i: int| #[trigger] is_set(front, i) implies costs[i] is Some && costs[i]->0 <= bound by {
            assert(is_set(bits, i));
        }
        lemma_max_known_exists(front, costs, bound);
        let m0 = choose|m: u64| m <= bound && #[trigger] max_known(front, costs, m);
        assert forall|i: int| #[trigger] is_set(bits, i) && i != n implies is_set(front, i) by {}
        if is_set(bits, n) && costs[n]->0 > m0 {
            let m = costs[n]->0;
            assert(max_known(bits, costs, m));
        } else {
            if m0 != 0 {
                let i = choose|i: int| #[trigger] is_set(front, i) && costs[i] == Some(m0);
                assert(is_set(bits, i));
            }
            assert(max_known(bits, costs, m0));
        }
    }
}

/// Lowering a precondition's cost to what an operator offers keeps every
/// table that meets `backward_costs_ok` below: such a table's largest add
/// cost is at most the one used, so its precondition cost is at most the
/// offer.
proof fn lemma_offer_stays_above(task: &Task, goal_pos: Seq<bool>, costs: Seq<Option<u64>>, k: int, m: u64)
    requires
        0 <= k < task.operators@.len(),
        task.operators@[k].add@.len() > 0,
        max_known(task.operators@[k].add@, costs, m),
        fits(task.operators@[k].add@, costs.len()),
        above_backward_tables(task, goal_pos, costs),
    ensures
        forall|t: Seq<Option<u64>>, p: int| #[trigger] backward_costs_ok(task, goal_pos, t)
            && #[trigger] is_set(task.operators@[k].pre_pos@, p)
            ==> at_most(t[p], Some(m.saturating_add(task.operators@[k].cost as u64))),
{
    let op = task.operators@[k];
    assert forall|t: Seq<Option<u64>>, p: int| #[trigger] backward_costs_ok(task, goal_pos, t)
        && #[trigger] is_set(op.pre_pos@, p)
        implies at_most(t[p], Some(m.saturating_add(op.cost as u64))) by {
        assert forall|i: int| #[trigger] is_set(op.add@, i) implies t[i] is Some && t[i]->0 <= m by {
            assert(costs[i] is Some && costs[i]->0 <= m);
            assert(at_most(t[i], costs[i]));
        }
        lemma_max_known_exists(op.add@, t, m);
        let mt = choose|mt: u64| mt <= m && #[trigger] max_known(op.add@, t, mt);
        assert(!below(mt.saturating_add(op.cost as u64), t[p]));
    }
}

/// The backward relaxed cost of every fact towards the goal: positive goal
/// facts cost 0, and an operator whose add effects all have known costs
/// offers its preconditions the largest of those plus its own cost, until
/// no cost drops any further.
pub fn rpg_backward_fact_costs(task: &Task, goal_pos: &State, goal_neg: &State) -> (back: Vec<Option<u64>>)
    requires
        task.well_formed(),
        fits(goal_pos@, task.facts@.len()),
    ensures
        backward_costs_ok(task, goal_pos@, back@),
        above_backward_tables(task, goal_pos@, back@),
{
    let nf = task.num_facts();
    let mut back: Vec<Option<u64>> = Vec::new();
    for i in 0..nf
        invariant
            back@ == Seq::new(i as nat, |j: int| None::<u64>),
            above_backward_tables(task, goal_pos@, back@),
    {
        back.push(None);
        assert(back@ =~= Seq::new((i + 1) as nat, |j: int| None::<u64>));
    }
    let gones = bitset_ones(&goal_pos.0);
    let g = gones.len();
    for j in 0..g
        invariant
            g == gones@.len(),
            nf == task.facts@.len(),
            back@.len() == nf,
            fits(goal_pos@, task.facts@.len()),
            forall|k: int| 0 <= k < gones@.len() ==> is_set(goal_pos@, #[trigger] gones@[k] as int),
            forall|k: int| 0 <= k < j ==> back@[#[trigger] gones@[k] as int] == Some(0u64),
            forall|i: int| 0 <= i < nf ==> ((#[trigger] back@[i]) matches Some(c) ==> c == 0 && is_set(goal_pos@, i)),
            above_backward_tables(task, goal_pos@, back@),
    {
        let b = gones[j];
        assert(is_set(goal_pos@, b as int));
        back.set(b, Some(0));
    }
    proof {
        assert forall|i: int| #[trigger] is_set(goal_pos@, i) implies back@[i] == Some(0u64) by {
            let k = choose|k: int| 0 <= k < gones@.len() && gones@[k] as int == i;
        }
    }
    let nops = task.operators.len();
    let mut changed = true;
    while changed
        invariant
            task.well_formed(),
            nf == task.facts@.len(),
            nops == task.operators@.len(),
            back@.len() == nf,
            fits(goal_pos@, nf as nat),
            forall|i: int| #[trigger] is_set(goal_pos@, i) ==> back@[i] == Some(0u64),
            !changed ==> backward_costs_ok(task, goal_pos@, back@),
            above_backward_tables(task, goal_pos@, back@),
        decreases rank_sum(back@, nf as int) + if changed { 1int } else { 0int },
    {
        changed = false;
        let ghost r0 = rank_sum(back@, nf as int);
        let ghost b0 = back@;
        for k in 0..nops
            invariant
                task.well_formed(),
                nf == task.facts@.len(),
                nops == task.operators@.len(),
                back@.len() == nf,
                fits(goal_pos@, nf as nat),
                forall|i: int| #[trigger] is_set(goal_pos@, i) ==> back@[i] == Some(0u64),
                above_backward_tables(task, goal_pos@, back@),
                rank_sum(back@, nf as int) <= r0,
                changed ==> rank_sum(back@, nf as int) < r0,
                !changed ==> back@ == b0,
                !changed ==> forall|kk: int, m: u64|
                    0 <= kk < k && task.operators@[kk].add@.len() > 0 && #[trigger] max_known(
                        task.operators@[kk].add@,
                        b0,
                        m,
                    ) ==> forall|p: int|
                        #[trigger] is_set(task.operators@[kk].pre_pos@, p) ==> !below(
                            m.saturating_add(task.operators@[kk].cost as u64),
                            b0[p],
                        ),
        {
            let op = &task.operators[k];
            assert(operator_fits(task.operators@[k as int], nf as nat));
            if op.add.len() != 0 {
                let adds = bitset_ones(&op.add.0);
                let na = adds.len();
                let mut max_add: u64 = 0;
                let mut all_finite = true;
                let mut a: usize = 0;
                while a < na && all_finite
                    invariant
                        na == adds@.len(),
                        a <= na,
                        back@.len() == nf,
                        fits(op.add@, nf as nat),
                        forall|q: int| 0 <= q < adds@.len() ==> is_set(op.add@, #[trigger] adds@[q] as int),
                        all_finite ==> forall|q: int| 0 <= q < a ==> back@[#[trigger] adds@[q] as int] is Some
                            && back@[adds@[q] as int]->0 <= max_add,
                        max_add == 0 || exists|q: int| 0 <= q < a && back@[#[trigger] adds@[q] as int] == Some(max_add),
                        !all_finite ==> a > 0 && back@[adds@[a - 1] as int] is None,
                    decreases na - a,
                {
                    let b = adds[a];
                    assert(is_set(op.add@, b as int));
                    match back[b] {
                        None => {
                            all_finite = false;
                        },
                        Some(c) => {
                            if c > max_add {
                                max_add = c;
                            }
                        },
                    }
                    a = a + 1;
                }
                if all_finite {
                    proof {
                        assert forall|i: int| #[trigger] is_set(op.add@, i) implies back@[i] is Some && back@[i]->0 <= max_add by {
                            let q = choose|q: int| 0 <= q < adds@.len() && adds@[q] as int == i;
                        }
                        if max_add != 0 {
                            let q = choose|q: int| 0 <= q < na && back@[#[trigger] adds@[q] as int] == Some(max_add);
                            assert(is_set(op.add@, adds@[q] as int));
                        }
                        assert(max_known(op.add@, back@, max_add));
                        lemma_offer_stays_above(task, goal_pos@, back@, k as int, max_add);
                    }
                    let op_total = max_add.saturating_add(op.cost as u64);
                    let pres = bitset_ones(&op.pre_pos.0);
                    let np = pres.len();
                    let ghost back_before_pre = back@;
                    let ghost changed_before_pre = changed;
                    assert(!changed ==> back@ == b0);
                    for q in 0..np
                        invariant
                            np == pres@.len(),
                            back@.len() == nf,
                            fits(op.pre_pos@, nf as nat),
                            forall|x: int| 0 <= x < pres@.len() ==> is_set(op.pre_pos@, #[trigger] pres@[x] as int),
                            forall|i: int| #[trigger] is_set(goal_pos@, i) ==> back@[i] == Some(0u64),
                            rank_sum(back@, nf as int) <= rank_sum(back_before_pre, nf as int),
                            changed ==> (changed_before_pre || rank_sum(back@, nf as int) < rank_sum(back_before_pre, nf as int)),
                            !changed ==> back@ == back_before_pre,
                            changed_before_pre ==> changed,
                            !changed_before_pre ==> back_before_pre == b0,
                            fits(goal_pos@, nf as nat),
                            forall|x: int| 0 <= x < q ==> !below(op_total, back@[#[trigger] pres@[x] as int]),
                            above_backward_tables(task, goal_pos@, back@),
                            0 <= k < task.operators@.len(),
                            task.operators@[k as int] == *op,
                            forall|t: Seq<Option<u64>>, pp: int| #[trigger] backward_costs_ok(task, goal_pos@, t)
                                && #[trigger] is_set(task.operators@[k as int].pre_pos@, pp)
                                ==> at_most(t[pp], Some(op_total)),
                    {
                        let p = pres[q];
                        assert(is_set(op.pre_pos@, p as int));
                        let lower = match back[p] {
                            Some(c) => op_total < c,
                            None => true,
                        };
                        if lower {
                            let ghost bb = back@;
                            proof {
                                lemma_rank_sum_update(bb, p as int, Some(op_total), nf as int);
                                if is_set(goal_pos@, p as int) {
                                    assert(bb[p as int] == Some(0u64));
                                }
                            }
                            back.set(p, Some(op_total));
                            changed = true;
                            proof {
                                assert forall|t: Seq<Option<u64>>| #[trigger] backward_costs_ok(task, goal_pos@, t)
                                    implies forall|i: int| 0 <= i < back@.len() ==> at_most(#[trigger] t[i], back@[i]) by {
                                    assert forall|i: int| 0 <= i < back@.len() implies at_most(#[trigger] t[i], back@[i]) by {
                                        if i != p as int {
                                            assert(back@[i] == bb[i]);
                                            assert(at_most(t[i], bb[i]));
                                        } else {
                                            assert(is_set(task.operators@[k as int].pre_pos@, i));
                                        }
                                    }
                                }
                            }
                        }
                    }
                    proof {
                        if !changed {
                            assert forall|m: u64| #[trigger] max_known(task.operators@[k as int].add@, b0, m) implies forall|p: int|
                                #[trigger] is_set(task.operators@[k as int].pre_pos@, p) ==> !below(
                                    m.saturating_add(task.operators@[k as int].cost as u64),
                                    b0[p],
                                ) by {
                                assert(max_known(op.add@, b0, max_add));
                                lemma_max_known_unique(op.add@, b0, m, max_add);
                                assert forall|p: int| #[trigger] is_set(task.operators@[k as int].pre_pos@, p) implies !below(
                                    m.saturating_add(task.operators@[k as int].cost as u64),
                                    b0[p],
                                ) by {
                                    let x = choose|x: int| 0 <= x < np && pres@[x] as int == p;
                                }
                            }
                        }
                    }
                } else {
                    proof {
                        if !changed {
                            assert forall|m: u64| !max_known(task.operators@[k as int].add@, b0, m) by {
                                assert(is_set(op.add@, adds@[a - 1] as int));
                            }
                        }
                    }
                }
            }
        }
    }
    back
}

} // verus!
