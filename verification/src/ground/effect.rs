//! Effects of a grounded action: add and delete bits, and conditional
//! effects.

use vstd::prelude::*;
use crate::error::MiniplanError;
use crate::ground::formula::{
    LitView, LiteralSet, all_neg, all_pos, bindings_view, build_state_from_literals, marked,
    merge_literal_sets, names_fact, sets_view, terms_text, terms_to_strings, walk, walk_goal_definition,
};
use crate::pddl_model::{AtomModel, CEffectModel, EffectConditionModel, PrimEffectModel};
use crate::task::{CondEffect, Fact, State, Task};

verus! {

/// The literal a primitive effect adds, if it adds a predicate.
pub open spec fn add_lits(pe: PrimEffectModel, b: Seq<(Seq<char>, Seq<char>)>) -> Seq<LitView> {
    match pe {
        PrimEffectModel::Add(AtomModel::Predicate(n, ts)) => seq![(n@, terms_text(ts@, ts@.len() as int, b))],
        _ => Seq::empty(),
    }
}

/// The literal a primitive effect deletes, if it deletes a predicate.
pub open spec fn del_lits(pe: PrimEffectModel, b: Seq<(Seq<char>, Seq<char>)>) -> Seq<LitView> {
    match pe {
        PrimEffectModel::Delete(AtomModel::Predicate(n, ts)) => seq![(n@, terms_text(ts@, ts@.len() as int, b))],
        _ => Seq::empty(),
    }
}

/// The literals the effects add (`adds`) or delete, in order.
pub open spec fn effect_lits(pes: Seq<PrimEffectModel>, b: Seq<(Seq<char>, Seq<char>)>, adds: bool) -> Seq<LitView>
    decreases pes.len(),
{
    if pes.len() == 0 {
        Seq::empty()
    } else {
        effect_lits(pes.drop_last(), b, adds) + if adds { add_lits(pes.last(), b) } else { del_lits(pes.last(), b) }
    }
}

/// The primitive effects directly in a list of effects.
pub open spec fn direct_effects(ces: Seq<CEffectModel>) -> Seq<PrimEffectModel>
    decreases ces.len(),
{
    if ces.len() == 0 {
        Seq::empty()
    } else {
        direct_effects(ces.drop_last()) + match ces.last() {
            CEffectModel::Effect(pe) => seq![pe],
            _ => Seq::empty(),
        }
    }
}

/// The primitive effects that apply unconditionally: those at the top level
/// and those directly inside a universal effect (read under the outer
/// bindings).
pub open spec fn plain_effects(ces: Seq<CEffectModel>) -> Seq<PrimEffectModel>
    decreases ces.len(),
{
    if ces.len() == 0 {
        Seq::empty()
    } else {
        plain_effects(ces.drop_last()) + match ces.last() {
            CEffectModel::Effect(pe) => seq![pe],
            CEffectModel::Forall(inner) => direct_effects(inner@),
            CEffectModel::When(_, _) => Seq::empty(),
        }
    }
}

/// The primitive effects of a consequent.
pub open spec fn consequent(ec: EffectConditionModel) -> Seq<PrimEffectModel> {
    match ec {
        EffectConditionModel::Single(pe) => seq![pe],
        EffectConditionModel::All(v) => v@,
    }
}

/// The literals of one conditional effect: its condition's positive and
/// negative literals (all disjuncts merged), and the literals it adds and
/// deletes.
pub type WhenView = (Seq<LitView>, Seq<LitView>, Seq<LitView>, Seq<LitView>);

/// The conditional effects of a list of effects, in order; the first
/// condition that cannot be walked is the error.
pub open spec fn when_parts(ces: Seq<CEffectModel>, b: Seq<(Seq<char>, Seq<char>)>) -> Result<Seq<WhenView>, Seq<char>>
    decreases ces.len(),
{
    if ces.len() == 0 {
        Ok(Seq::empty())
    } else {
        match when_parts(ces.drop_last(), b) {
            Err(m) => Err(m),
            Ok(acc) => match ces.last() {
                CEffectModel::When(cond, ec) => match walk(cond, b) {
                    Err(m) => Err(m),
                    Ok(d) => Ok(acc.push((all_pos(d), all_neg(d), effect_lits(consequent(ec), b, true), effect_lits(consequent(ec), b, false)))),
                },
                _ => Ok(acc),
            },
        }
    }
}

/// The position of the fact a literal names (-1 when it names none).
pub open spec fn fact_position(task: &Task, lit: LitView) -> int {
    match task.fact_index.lookup(lit) {
        Some(id) => id.0 as int,
        None => -1,
    }
}

/// Marking one more literal sets the bit of the fact it names, if any.
proof fn lemma_marked_push(task: &Task, lits: Seq<LitView>, extra: Seq<LitView>)
    requires
        task.index_ok(),
        extra.len() <= 1,
    ensures
        marked(task, lits + extra) == if extra.len() == 1 && task.fact_index.lookup(extra[0]) is Some {
            marked(task, lits).update(fact_position(task, extra[0]), true)
        } else {
            marked(task, lits)
        },
{
    let all = lits + extra;
    if extra.len() == 1 && task.fact_index.lookup(extra[0]) is Some {
        let id = task.fact_index.lookup(extra[0])->0;
        assert(names_fact(task, all[lits.len() as int], id.0 as int));
        assert forall|i: int| 0 <= i < task.facts@.len() implies marked(task, all)[i] == marked(task, lits).update(id.0 as int, true)[i] by {
            if i != id.0 {
                if marked(task, all)[i] {
                    let k = choose|k: int| 0 <= k < all.len() && #[trigger] names_fact(task, all[k], i);
                    assert(k < lits.len());
                    assert(names_fact(task, lits[k], i));
                }
                if marked(task, lits)[i] {
                    let k = choose|k: int| 0 <= k < lits.len() && #[trigger] names_fact(task, lits[k], i);
                    assert(all[k] == lits[k]);
                }
            }
        }
        assert(marked(task, all) =~= marked(task, lits).update(id.0 as int, true));
    } else {
        assert forall|i: int| 0 <= i < task.facts@.len() implies marked(task, all)[i] == marked(task, lits)[i] by {
            if marked(task, all)[i] {
                let k = choose|k: int| 0 <= k < all.len() && #[trigger] names_fact(task, all[k], i);
                if k >= lits.len() {
                    assert(names_fact(task, extra[0], i));
                }
                assert(names_fact(task, lits[k], i));
            }
            if marked(task, lits)[i] {
                let k = choose|k: int| 0 <= k < lits.len() && #[trigger] names_fact(task, lits[k], i);
                assert(all[k] == lits[k]);
            }
        }
        assert(marked(task, all) =~= marked(task, lits));
    }
}

/// Sets the bit of the fact a predicate over terms names, if it names one.
fn mark_predicate(state: &mut State, name: &String, ts: &Vec<crate::pddl_model::TermModel>, bindings: &[(String, String)], task: &Task, Ghost(lits): Ghost<Seq<LitView>>)
    requires
        task.index_ok(),
        old(state)@ == marked(task, lits),
    ensures
        final(state)@ == marked(task, lits + seq![(name@, terms_text(ts@, ts@.len() as int, bindings_view(bindings@)))]),
{
    let fact = Fact { predicate: name.clone(), args: terms_to_strings(ts, bindings) };
    proof {
        lemma_marked_push(task, lits, seq![fact@]);
    }
    match task.fact_id(&fact) {
        Some(id) => {
            state.set(id, true);
        },
        None => {},
    }
}

/// Applies a primitive effect to the add and delete bits.
fn apply_plain_effect(
    pe: &PrimEffectModel,
    bindings: &[(String, String)],
    task: &Task,
    add: &mut State,
    del: &mut State,
    Ghost(adds): Ghost<Seq<LitView>>,
    Ghost(dels): Ghost<Seq<LitView>>,
)
    requires
        task.index_ok(),
        old(add)@ == marked(task, adds),
        old(del)@ == marked(task, dels),
    ensures
        final(add)@ == marked(task, adds + add_lits(*pe, bindings_view(bindings@))),
        final(del)@ == marked(task, dels + del_lits(*pe, bindings_view(bindings@))),
{
    let ghost bv = bindings_view(bindings@);
    match pe {
        PrimEffectModel::Add(AtomModel::Predicate(n, ts)) => {
            mark_predicate(add, n, ts, bindings, task, Ghost(adds));
            assert(dels + del_lits(*pe, bv) =~= dels);
        },
        PrimEffectModel::Delete(AtomModel::Predicate(n, ts)) => {
            mark_predicate(del, n, ts, bindings, task, Ghost(dels));
            assert(adds + add_lits(*pe, bv) =~= adds);
        },
        _ => {
            assert(adds + add_lits(*pe, bv) =~= adds);
            assert(dels + del_lits(*pe, bv) =~= dels);
        },
    }
}

/// Applies primitive effects in order.
fn apply_effects(
    pes: &Vec<PrimEffectModel>,
    bindings: &[(String, String)],
    task: &Task,
    add: &mut State,
    del: &mut State,
    Ghost(adds): Ghost<Seq<LitView>>,
    Ghost(dels): Ghost<Seq<LitView>>,
)
    requires
        task.index_ok(),
        old(add)@ == marked(task, adds),
        old(del)@ == marked(task, dels),
    ensures
        final(add)@ == marked(task, adds + effect_lits(pes@, bindings_view(bindings@), true)),
        final(del)@ == marked(task, dels + effect_lits(pes@, bindings_view(bindings@), false)),
{
    let ghost bv = bindings_view(bindings@);
    let n = pes.len();
    for i in 0..n
        invariant
            n == pes@.len(),
            task.index_ok(),
            bv == bindings_view(bindings@),
            add@ == marked(task, adds + effect_lits(pes@.take(i as int), bv, true)),
            del@ == marked(task, dels + effect_lits(pes@.take(i as int), bv, false)),
    {
        proof {
            assert(pes@.take(i + 1).drop_last() =~= pes@.take(i as int));
        }
        apply_plain_effect(&pes[i], bindings, task, add, del, Ghost(adds + effect_lits(pes@.take(i as int), bv, true)), Ghost(dels + effect_lits(pes@.take(i as int), bv, false)));
        proof {
            assert(adds + effect_lits(pes@.take(i as int), bv, true) + add_lits(pes@[i as int], bv) =~= adds + effect_lits(pes@.take(i + 1), bv, true));
            assert(dels + effect_lits(pes@.take(i as int), bv, false) + del_lits(pes@[i as int], bv) =~= dels + effect_lits(pes@.take(i + 1), bv, false));
        }
    }
    proof {
        assert(pes@.take(n as int) =~= pes@);
    }
}

/// The conditional effects in a grounded form, as bits.
pub open spec fn cond_ok(task: &Task, c: CondEffect, w: WhenView) -> bool {
    &&& c.cond_pos@ == marked(task, w.0)
    &&& c.cond_neg@ == marked(task, w.1)
    &&& c.add@ == marked(task, w.2)
    &&& c.del@ == marked(task, w.3)
}

/// The effects of an action under bindings: the bits its unconditional
/// effects add and delete, and its conditional effects, as `plain_effects`
/// and `when_parts` say. Facts that are not of the task are passed over.
pub fn extract_effects(effects: &Option<Vec<CEffectModel>>, bindings: &[(String, String)], task: &Task) -> (r: Result<(State, State, Vec<CondEffect>), MiniplanError>)
    requires
        task.index_ok(),
    ensures
        ({
            let ces = match *effects {
                Some(v) => v@,
                None => Seq::empty(),
            };
            match when_parts(ces, bindings_view(bindings@)) {
                Err(m) => r matches Err(e) && (e matches MiniplanError::Ground(s) && s@ == m),
                Ok(parts) => r matches Ok((a, d, c)) && a@ == marked(task, effect_lits(plain_effects(ces), bindings_view(bindings@), true))
                    && d@ == marked(task, effect_lits(plain_effects(ces), bindings_view(bindings@), false))
                    && c@.len() == parts.len() && forall|k: int| 0 <= k < parts.len() ==> cond_ok(task, #[trigger] c@[k], parts[k]),
            }
        }),
{
    let ghost bv = bindings_view(bindings@);
    let nf = task.num_facts();
    let mut add = State::new(nf);
    let mut del = State::new(nf);
    let mut conditional: Vec<CondEffect> = Vec::new();
    proof {
        assert(add@ =~= marked(task, Seq::<LitView>::empty()));
        assert(del@ =~= marked(task, Seq::<LitView>::empty()));
    }
    let ces = match effects {
        Some(e) => e,
        None => {
            return Ok((add, del, conditional));
        },
    };
    let n = ces.len();
    for i in 0..n
        invariant
            n == ces@.len(),
            nf == task.facts@.len(),
            task.index_ok(),
            bv == bindings_view(bindings@),
            *effects == Some(*ces),
            when_parts(ces@.take(i as int), bv) matches Ok(parts) && conditional@.len() == parts.len()
                && forall|k: int| 0 <= k < parts.len() ==> cond_ok(task, #[trigger] conditional@[k], parts[k]),
            add@ == marked(task, effect_lits(plain_effects(ces@.take(i as int)), bv, true)),
            del@ == marked(task, effect_lits(plain_effects(ces@.take(i as int)), bv, false)),
    {
        let ghost pre = ces@.take(i as int);
        proof {
            assert(ces@.take(i + 1).drop_last() =~= pre);
            assert(ces@.take(i + 1).last() == ces@[i as int]);
        }
        let ghost adds = effect_lits(plain_effects(pre), bv, true);
        let ghost dels = effect_lits(plain_effects(pre), bv, false);
        match &ces[i] {
            CEffectModel::Effect(pe) => {
                apply_plain_effect(pe, bindings, task, &mut add, &mut del, Ghost(adds), Ghost(dels));
                proof {
                    lemma_effect_lits_concat(plain_effects(pre), seq![*pe], bv);
                    lemma_effect_lits_single(*pe, bv);
                    assert(plain_effects(ces@.take(i + 1)) == plain_effects(pre) + seq![*pe]);
                }
            },
            CEffectModel::Forall(inner) => {
                let mut direct: Vec<PrimEffectModel> = Vec::new();
                let m = inner.len();
                let ghost dl = Seq::<LitView>::empty();
                for j in 0..m
                    invariant
                        m == inner@.len(),
                        task.index_ok(),
                        bv == bindings_view(bindings@),
                        add@ == marked(task, adds + effect_lits(direct_effects(inner@.take(j as int)), bv, true)),
                        del@ == marked(task, dels + effect_lits(direct_effects(inner@.take(j as int)), bv, false)),
                {
                    proof {
                        assert(inner@.take(j + 1).drop_last() =~= inner@.take(j as int));
                        assert(inner@.take(j + 1).last() == inner@[j as int]);
                    }
                    match &inner[j] {
                        CEffectModel::Effect(pe) => {
                            let ghost da = adds + effect_lits(direct_effects(inner@.take(j as int)), bv, true);
                            let ghost dd = dels + effect_lits(direct_effects(inner@.take(j as int)), bv, false);
                            apply_plain_effect(pe, bindings, task, &mut add, &mut del, Ghost(da), Ghost(dd));
                            proof {
                                lemma_effect_lits_concat(direct_effects(inner@.take(j as int)), seq![*pe], bv);
                                lemma_effect_lits_single(*pe, bv);
                                assert(direct_effects(inner@.take(j + 1)) == direct_effects(inner@.take(j as int)) + seq![*pe]);
                                assert(da + add_lits(*pe, bv) =~= adds + effect_lits(direct_effects(inner@.take(j + 1)), bv, true));
                                assert(dd + del_lits(*pe, bv) =~= dels + effect_lits(direct_effects(inner@.take(j + 1)), bv, false));
                            }
                        },
                        _ => {
                            proof {
                                assert(direct_effects(inner@.take(j + 1)) =~= direct_effects(inner@.take(j as int)));
                            }
                        },
                    }
                }
                proof {
                    assert(inner@.take(m as int) =~= inner@);
                    lemma_effect_lits_concat(plain_effects(pre), direct_effects(inner@), bv);
                    assert(plain_effects(ces@.take(i + 1)) == plain_effects(pre) + direct_effects(inner@));
                }
            },
            CEffectModel::When(cond, ec) => {
                let cond_lits = match walk_goal_definition(cond, bindings) {
                    Ok(d) => d,
                    Err(e) => {
                        proof {
                            lemma_when_parts_err(ces@, i as int + 1, n as int, bv);
                            assert(ces@.take(n as int) =~= ces@);
                        }
                        return Err(e);
                    },
                };
                let merged = merge_literal_sets(cond_lits.as_slice());
                let (cond_pos, cond_neg) = match build_state_from_literals(&merged, task) {
                    Ok(x) => x,
                    Err(e) => {
                        return Err(e);
                    },
                };
                let mut cond_add = State::new(nf);
                let mut cond_del = State::new(nf);
                proof {
                    assert(cond_add@ =~= marked(task, Seq::<LitView>::empty()));
                    assert(cond_del@ =~= marked(task, Seq::<LitView>::empty()));
                }
                match ec {
                    EffectConditionModel::Single(pe) => {
                        apply_plain_effect(pe, bindings, task, &mut cond_add, &mut cond_del, Ghost(Seq::empty()), Ghost(Seq::empty()));
                        proof {
                            lemma_effect_lits_single(*pe, bv);
                            assert(Seq::<LitView>::empty() + add_lits(*pe, bv) =~= effect_lits(seq![*pe], bv, true));
                            assert(Seq::<LitView>::empty() + del_lits(*pe, bv) =~= effect_lits(seq![*pe], bv, false));
                        }
                    },
                    EffectConditionModel::All(pes) => {
                        apply_effects(pes, bindings, task, &mut cond_add, &mut cond_del, Ghost(Seq::empty()), Ghost(Seq::empty()));
                        proof {
                            assert(Seq::<LitView>::empty() + effect_lits(pes@, bv, true) =~= effect_lits(pes@, bv, true));
                            assert(Seq::<LitView>::empty() + effect_lits(pes@, bv, false) =~= effect_lits(pes@, bv, false));
                        }
                    },
                }
                let ghost before = conditional@;
                conditional.push(CondEffect { cond_pos, cond_neg, add: cond_add, del: cond_del });
                proof {
                    assert(plain_effects(ces@.take(i + 1)) =~= plain_effects(pre));
                    let parts = when_parts(pre, bv)->Ok_0;
                    assert forall|k: int| 0 <= k < parts.len() + 1 implies cond_ok(task, #[trigger] conditional@[k], when_parts(ces@.take(i + 1), bv)->Ok_0[k]) by {
                        if k < parts.len() {
                            assert(conditional@[k] == before[k]);
                        }
                    }
                }
            },
        }
    }
    proof {
        assert(ces@.take(n as int) =~= ces@);
    }
    Ok((add, del, conditional))
}

/// The literals of a single effect.
proof fn lemma_effect_lits_single(pe: PrimEffectModel, bv: Seq<(Seq<char>, Seq<char>)>)
    ensures
        effect_lits(seq![pe], bv, true) == add_lits(pe, bv),
        effect_lits(seq![pe], bv, false) == del_lits(pe, bv),
{
    assert(seq![pe].drop_last() =~= Seq::<PrimEffectModel>::empty());
    assert(effect_lits(Seq::<PrimEffectModel>::empty(), bv, true) == Seq::<LitView>::empty());
    assert(effect_lits(Seq::<PrimEffectModel>::empty(), bv, false) == Seq::<LitView>::empty());
    assert(Seq::<LitView>::empty() + add_lits(pe, bv) =~= add_lits(pe, bv));
    assert(Seq::<LitView>::empty() + del_lits(pe, bv) =~= del_lits(pe, bv));
}

/// The literals of concatenated effects are concatenated.
proof fn lemma_effect_lits_concat(a: Seq<PrimEffectModel>, b: Seq<PrimEffectModel>, bv: Seq<(Seq<char>, Seq<char>)>)
    ensures
        effect_lits(a + b, bv, true) == effect_lits(a, bv, true) + effect_lits(b, bv, true),
        effect_lits(a + b, bv, false) == effect_lits(a, bv, false) + effect_lits(b, bv, false),
    decreases b.len(),
{
    if b.len() == 0 {
        assert(a + b =~= a);
        assert(effect_lits(a, bv, true) + effect_lits(b, bv, true) =~= effect_lits(a, bv, true));
        assert(effect_lits(a, bv, false) + effect_lits(b, bv, false) =~= effect_lits(a, bv, false));
    } else {
        lemma_effect_lits_concat(a, b.drop_last(), bv);
        assert((a + b).drop_last() =~= a + b.drop_last());
        assert((a + b).last() == b.last());
    }
}

/// Once the conditional effects of a prefix fail, every longer prefix fails
/// alike.
proof fn lemma_when_parts_err(ces: Seq<CEffectModel>, k: int, m: int, b: Seq<(Seq<char>, Seq<char>)>)
    requires
        0 < k <= m <= ces.len(),
        when_parts(ces.take(k), b) is Err,
    ensures
        when_parts(ces.take(m), b) == when_parts(ces.take(k), b),
    decreases m - k,
{
    if k < m {
        lemma_when_parts_err(ces, k, m - 1, b);
        assert(ces.take(m).drop_last() =~= ces.take(m - 1));
    }
}

} // verus!
