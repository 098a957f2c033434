//! Grounding a domain and problem into a task: the fact universe, the
//! initial state, the goal and the operators.

use vstd::prelude::*;
use crate::error::MiniplanError;
use crate::ground::bindings::{name_combinations, name_tuples, object_names, tuples_view};
use crate::ground::derived::{
    DerivedRuleSet, RuleView, appended, collect, domain_rules, facts_view, rules_view,
};
use crate::ground::formula::{
    LitView, LiteralSet, SetView, bindings_view, build_state_from_literals, cartesian_product_dnf,
    lemma_walk_and_err, marked, sets_view, walk, walk_and, walk_goal_definition, walk_result,
};
use crate::ground::effect::{WhenView, effect_lits, extract_effects, plain_effects, when_parts, cond_ok};
use crate::ground::cost::{action_cost, extract_action_cost};
use crate::ground::derived::{all_rule_facts, expand_into_init, expanded, init_facts, numeric_body_text};
use crate::ground::types::{declared_supertype, extract_objects, extract_types, first_occurrences, named_types, objects_view};
use crate::ground::derived::{binding_objects, binding_values, join3, rule_params, typed_params};
use crate::ground::bindings::{all_bindings_view, bindings_product, generate_bindings, params_view};
use crate::ground::formula::{comma_joined, join_commas};
use crate::text::concat;
use crate::pddl_model::{ActionModel, AtomModel, CEffectModel, StructureModel, GoalModel, InitModel, NameAtomModel, PddlDomain, PddlProblem, PreGoalModel, PredicateModel};
use crate::table::KeyMap;
use crate::task::{TaskMeta, supertype_of, clone_strings, CondEffect, Fact, FactId, Object, OpId, Operator, Task, State, fits, is_set, operator_fits, strings_view};

verus! {

/// The facts of a predicate over every tuple of object names of its arity,
/// the first argument varying slowest.
pub open spec fn predicate_facts(name: Seq<char>, arity: nat, objs: Seq<Object>) -> Seq<LitView> {
    name_tuples(object_names(objs), arity).map_values(|t: Seq<Seq<char>>| (name, t))
}

/// The candidate facts of the first `k` declared predicates, in order.
pub open spec fn declared_candidates(preds: Seq<PredicateModel>, k: int, objs: Seq<Object>) -> Seq<LitView>
    decreases k,
{
    if k <= 0 || k > preds.len() {
        Seq::empty()
    } else {
        declared_candidates(preds, k - 1, objs) + predicate_facts(preds[k - 1].name@, preds[k - 1].parameters@.len(), objs)
    }
}

/// The candidate facts of the first `k` derived predicates, in order.
pub open spec fn derived_candidates(rs: Seq<RuleView>, k: int, objs: Seq<Object>) -> Seq<LitView>
    decreases k,
{
    if k <= 0 || k > rs.len() {
        Seq::empty()
    } else {
        derived_candidates(rs, k - 1, objs) + predicate_facts(rs[k - 1].0, rs[k - 1].1.len(), objs)
    }
}

/// The fact universe: every declared predicate, then every derived one,
/// over every tuple of object names of its arity, each fact once, in order
/// of first occurrence.
pub open spec fn universe(domain: PddlDomain, rs: Seq<RuleView>, objs: Seq<Object>) -> Seq<LitView> {
    appended(
        Seq::empty(),
        declared_candidates(domain.predicates@, domain.predicates@.len() as int, objs) + derived_candidates(
            rs,
            rs.len() as int,
            objs,
        ),
    )
}

/// An index maps exactly the given facts, each to its position.
pub open spec fn index_matches(facts: Seq<Fact>, index: KeyMap<Fact, FactId>) -> bool {
    &&& index.wf()
    &&& forall|kv: (Seq<char>, Seq<Seq<char>>)|
        #[trigger] index.lookup(kv) matches Some(id) ==> id.0 < facts.len() && facts[id.0 as int]@ == kv
    &&& forall|i: int| 0 <= i < facts.len() ==> index.lookup(#[trigger] facts[i]@) == Some(FactId(i as usize))
}

/// Appending facts in two parts is appending them at once.
pub proof fn lemma_appended_concat(base: Seq<LitView>, a: Seq<LitView>, b: Seq<LitView>)
    ensures
        appended(base, a + b) == appended(appended(base, a), b),
    decreases b.len(),
{
    if b.len() == 0 {
        assert(a + b =~= a);
    } else {
        assert((a + b).drop_last() =~= a + b.drop_last());
        assert((a + b).last() == b.last());
        lemma_appended_concat(base, a, b.drop_last());
    }
}

/// Appends a fact unless it is already there.
fn add_fact(facts: &mut Vec<Fact>, index: &mut KeyMap<Fact, FactId>, fact: Fact)
    requires
        index_matches(old(facts)@, *old(index)),
    ensures
        index_matches(final(facts)@, *final(index)),
        facts_view(final(facts)@) == appended(facts_view(old(facts)@), seq![fact@]),
{
    let ghost fv = fact@;
    let ghost f0 = facts@;
    proof {
        assert(seq![fv].drop_last() =~= Seq::<LitView>::empty());
        assert(seq![fv].last() == fv);
        assert(appended(facts_view(f0), seq![fv].drop_last()) == facts_view(f0));
    }
    match index.get(&fact) {
        Some(id) => {
            proof {
                assert(facts_view(facts@)[id.0 as int] == fv);
            }
        },
        None => {
            proof {
                assert(!facts_view(facts@).contains(fv)) by {
                    if facts_view(facts@).contains(fv) {
                        let i = choose|i: int| 0 <= i < facts_view(facts@).len() && facts_view(facts@)[i] == fv;
                        assert(index.lookup(facts@[i]@) == Some(FactId(i as usize)));
                    }
                }
            }
            let n = facts.len();
            let copy = fact.clone();
            facts.push(fact);
            let ghost before_index = *index;
            index.insert(copy, FactId(n));
            proof {
                crate::task::lemma_lookup_after_insert(&before_index, index, fv, FactId(n));
                assert(facts_view(facts@) =~= facts_view(f0).push(fv));
                assert forall|kv: (Seq<char>, Seq<Seq<char>>)| #[trigger] index.lookup(kv) is Some implies index.lookup(
                    kv,
                ).unwrap().0 < facts@.len() && facts@[index.lookup(kv).unwrap().0 as int]@ == kv by {
                    if kv != fv {
                        assert(before_index.lookup(kv) == index.lookup(kv));
                    }
                }
                assert forall|i: int| 0 <= i < facts@.len() implies index.lookup(#[trigger] facts@[i]@) == Some(
                    FactId(i as usize),
                ) by {
                    if i < n {
                        assert(facts@[i] == f0[i]);
                        if facts@[i]@ == fv {
                            assert(facts_view(f0)[i] == fv);
                        }
                    }
                }
            }
        },
    }
}

/// Appends the facts of a predicate over every tuple of object names of
/// its arity, each unless already there.
fn generate_predicate_groundings(
    name: &String,
    arity: usize,
    objects: &[Object],
    facts: &mut Vec<Fact>,
    index: &mut KeyMap<Fact, FactId>,
)
    requires
        index_matches(old(facts)@, *old(index)),
    ensures
        index_matches(final(facts)@, *final(index)),
        facts_view(final(facts)@) == appended(facts_view(old(facts)@), predicate_facts(name@, arity as nat, objects@)),
{
    let combos = name_combinations(objects, arity);
    let ghost cands = predicate_facts(name@, arity as nat, objects@);
    let ghost base = facts_view(facts@);
    proof {
        assert(cands.len() == tuples_view(combos@).len());
    }
    let n = combos.len();
    for k in 0..n
        invariant
            n == combos@.len(),
            cands == predicate_facts(name@, arity as nat, objects@),
            tuples_view(combos@) == name_tuples(object_names(objects@), arity as nat),
            cands.len() == n,
            index_matches(facts@, *index),
            facts_view(facts@) == appended(base, cands.take(k as int)),
    {
        let fact = Fact { predicate: name.clone(), args: crate::task::clone_strings(&combos[k]) };
        proof {
            assert(cands[k as int] == (name@, tuples_view(combos@)[k as int]));
            assert(fact@ == cands[k as int]);
        }
        let ghost before = facts_view(facts@);
        add_fact(facts, index, fact);
        proof {
            assert(cands.take(k + 1) =~= cands.take(k as int) + seq![cands[k as int]]);
            lemma_appended_concat(base, cands.take(k as int), seq![cands[k as int]]);
        }
    }
    assert(cands.take(n as int) =~= cands);
}

/// The fact universe of a domain over some objects, with its index; the
/// first derived predicate that cannot be expanded is the error, as
/// `domain_rules` says.
pub fn build_fact_universe(domain: &PddlDomain, objects: &[Object]) -> (r: Result<(Vec<Fact>, KeyMap<Fact, FactId>), MiniplanError>)
    ensures
        match domain_rules(*domain) {
            Err(m) => r matches Err(MiniplanError::Ground(s)) && s@ == m,
            Ok(rs) => r matches Ok((facts, index)) && index_matches(facts@, index) && facts_view(facts@) == universe(
                *domain,
                rs,
                objects@,
            ),
        },
{
    let mut facts: Vec<Fact> = Vec::new();
    let mut index: KeyMap<Fact, FactId> = KeyMap::new();
    let ghost preds = domain.predicates@;
    let ghost empty = Seq::<LitView>::empty();
    proof {
        assert(facts_view(facts@) =~= appended(empty, declared_candidates(preds, 0, objects@)));
    }
    let np = domain.predicates.len();
    for k in 0..np
        invariant
            np == preds.len(),
            preds == domain.predicates@,
            index_matches(facts@, index),
            facts_view(facts@) == appended(empty, declared_candidates(preds, k as int, objects@)),
    {
        let pred = &domain.predicates[k];
        generate_predicate_groundings(&pred.name, pred.parameters.len(), objects, &mut facts, &mut index);
        proof {
            lemma_appended_concat(
                empty,
                declared_candidates(preds, k as int, objects@),
                predicate_facts(preds[k as int].name@, preds[k as int].parameters@.len(), objects@),
            );
        }
    }
    let rules: DerivedRuleSet = match collect(domain) {
        Ok(set) => set,
        Err(e) => {
            return Err(e);
        },
    };
    let ghost rs = rules_view(rules.rules@);
    let ghost decl = declared_candidates(preds, np as int, objects@);
    proof {
        assert(decl + derived_candidates(rs, 0, objects@) =~= decl);
    }
    let nr = rules.rules.len();
    for k in 0..nr
        invariant
            nr == rules.rules@.len(),
            rs == rules_view(rules.rules@),
            decl == declared_candidates(preds, np as int, objects@),
            index_matches(facts@, index),
            facts_view(facts@) == appended(empty, decl + derived_candidates(rs, k as int, objects@)),
    {
        let rule = &rules.rules[k];
        proof {
            assert(rs[k as int] == crate::ground::derived::rule_view(rules.rules@[k as int]));
        }
        generate_predicate_groundings(&rule.head_name, rule.params.len(), objects, &mut facts, &mut index);
        proof {
            lemma_appended_concat(
                empty,
                decl + derived_candidates(rs, k as int, objects@),
                predicate_facts(rs[k as int].0, rs[k as int].1.len(), objects@),
            );
            assert(decl + derived_candidates(rs, k as int, objects@) + predicate_facts(
                rs[k as int].0,
                rs[k as int].1.len(),
                objects@,
            ) =~= decl + derived_candidates(rs, k + 1, objects@));
        }
    }
    Ok((facts, index))
}

/// The fact an initial element asserts, if it asserts one.
pub open spec fn init_lit(e: InitModel) -> Option<LitView> {
    match e {
        InitModel::Literal(true, NameAtomModel::Predicate(n, args)) => Some((n@, strings_view(args@))),
        _ => None,
    }
}

/// The facts a problem's initial elements assert.
pub open spec fn problem_init_lits(problem: PddlProblem) -> Set<LitView> {
    Set::new(|l: LitView| exists|k: int| 0 <= k < problem.init@.len() && init_lit(#[trigger] problem.init@[k]) == Some(l))
}

/// Two tasks differ at most in their initial state.
pub open spec fn same_but_init(a: &Task, b: &Task) -> bool {
    &&& a.facts == b.facts
    &&& a.fact_index == b.fact_index
    &&& a.operators == b.operators
    &&& a.goal_pos == b.goal_pos
    &&& a.goal_neg == b.goal_neg
    &&& a.objects == b.objects
    &&& a.types == b.types
    &&& a.metadata == b.metadata
}

/// Two tasks differ at most in their goal.
pub open spec fn same_but_goal(a: &Task, b: &Task) -> bool {
    &&& a.facts == b.facts
    &&& a.fact_index == b.fact_index
    &&& a.operators == b.operators
    &&& a.init == b.init
    &&& a.objects == b.objects
    &&& a.types == b.types
    &&& a.metadata == b.metadata
}

/// Two tasks differ at most in their operators.
pub open spec fn same_but_operators(a: &Task, b: &Task) -> bool {
    &&& a.facts == b.facts
    &&& a.fact_index == b.fact_index
    &&& a.init == b.init
    &&& a.goal_pos == b.goal_pos
    &&& a.goal_neg == b.goal_neg
    &&& a.objects == b.objects
    &&& a.types == b.types
    &&& a.metadata == b.metadata
}

/// Makes true, in the initial state, each fact of the task that an
/// initial element of the problem asserts.
pub fn build_init_state(task: &mut Task, problem: &PddlProblem) -> (r: Result<(), MiniplanError>)
    requires
        old(task).index_ok(),
        old(task).init@.len() == old(task).facts@.len(),
    ensures
        r is Ok,
        same_but_init(old(task), final(task)),
        final(task).init@.len() == old(task).init@.len(),
        forall|i: int|
            0 <= i < final(task).init@.len() ==> #[trigger] final(task).init@[i] == (old(task).init@[i]
                || problem_init_lits(*problem).contains(final(task).facts@[i]@)),
{
    let ghost t0 = *task;
    let ghost lits = problem_init_lits(*problem);
    let n = problem.init.len();
    for k in 0..n
        invariant
            n == problem.init@.len(),
            t0.index_ok(),
            t0.init@.len() == t0.facts@.len(),
            lits == problem_init_lits(*problem),
            same_but_init(&t0, task),
            task.init@.len() == t0.init@.len(),
            forall|i: int|
                0 <= i < task.init@.len() ==> #[trigger] task.init@[i] == (t0.init@[i] || exists|j: int|
                    0 <= j < k && init_lit(problem.init@[j]) == Some(task.facts@[i]@)),
    {
        match &problem.init[k] {
            InitModel::Literal(true, NameAtomModel::Predicate(name, args)) => {
                let fact = Fact { predicate: name.clone(), args: crate::task::clone_strings(args) };
                assert(init_lit(problem.init@[k as int]) == Some(fact@));
                match task.fact_id(&fact) {
                    Some(id) => {
                        proof {
                            assert(t0.fact_index.lookup(fact@) == Some(id));
                            assert(task.facts@[id.0 as int]@ == fact@);
                        }
                        let ghost before = task.init@;
                        task.init.set(id, true);
                        proof {
                            assert forall|i: int| 0 <= i < task.init@.len() implies #[trigger] task.init@[i] == (t0.init@[i]
                                || exists|j: int| 0 <= j < k + 1 && init_lit(problem.init@[j]) == Some(task.facts@[i]@)) by {
                                if i == id.0 {
                                    assert(init_lit(problem.init@[k as int]) == Some(task.facts@[i]@));
                                } else {
                                    assert(task.init@[i] == before[i]);
                                    if init_lit(problem.init@[k as int]) == Some(task.facts@[i]@) {
                                        assert(t0.fact_index.lookup(task.facts@[i]@) == Some(FactId(i as usize)));
                                        assert(task.facts@.len() == task.facts.len());
                                        assert(FactId(i as usize).0 == i);
                                    }
                                }
                            }
                        }
                    },
                    None => {
                        proof {
                            assert forall|i: int| 0 <= i < task.init@.len() implies #[trigger] task.init@[i] == (t0.init@[i]
                                || exists|j: int| 0 <= j < k + 1 && init_lit(problem.init@[j]) == Some(task.facts@[i]@)) by {
                                if init_lit(problem.init@[k as int]) == Some(task.facts@[i]@) {
                                    assert(t0.fact_index.lookup(task.facts@[i]@) == Some(FactId(i as usize)));
                                }
                            }
                        }
                    },
                }
            },
            _ => {
                proof {
                    assert forall|i: int| 0 <= i < task.init@.len() implies #[trigger] task.init@[i] == (t0.init@[i]
                        || exists|j: int| 0 <= j < k + 1 && init_lit(problem.init@[j]) == Some(task.facts@[i]@)) by {
                        if exists|j: int| 0 <= j < k + 1 && init_lit(problem.init@[j]) == Some(task.facts@[i]@) {
                            let j = choose|j: int| 0 <= j < k + 1 && init_lit(problem.init@[j]) == Some(task.facts@[i]@);
                            assert(j != k);
                        }
                    }
                }
            },
        }
    }
    Ok(())
}

/// The plain goals among precondition or goal entries, in order.
pub open spec fn pre_goals(pgs: Seq<PreGoalModel>) -> Seq<GoalModel>
    decreases pgs.len(),
{
    if pgs.len() == 0 {
        Seq::empty()
    } else {
        pre_goals(pgs.drop_last()) + match pgs.last() {
            PreGoalModel::Goal(g) => seq![g],
            _ => Seq::empty(),
        }
    }
}

/// The goals a list of references points to.
pub open spec fn deref_goals(gs: Seq<&GoalModel>) -> Seq<GoalModel> {
    gs.map_values(|g: &GoalModel| *g)
}

/// The plain goals among precondition or goal entries.
fn pre_goal_refs<'a>(pgs: &'a Vec<PreGoalModel>) -> (r: Vec<&'a GoalModel>)
    ensures
        deref_goals(r@) == pre_goals(pgs@),
{
    let mut r: Vec<&'a GoalModel> = Vec::new();
    let n = pgs.len();
    for k in 0..n
        invariant
            n == pgs@.len(),
            deref_goals(r@) == pre_goals(pgs@.take(k as int)),
    {
        proof {
            assert(pgs@.take(k + 1).drop_last() =~= pgs@.take(k as int));
        }
        let ghost before = r@;
        match &pgs[k] {
            PreGoalModel::Goal(g) => {
                r.push(g);
                assert(deref_goals(r@) =~= deref_goals(before) + seq![*g]);
            },
            _ => {
                assert(deref_goals(r@) =~= deref_goals(before) + Seq::<GoalModel>::empty());
            },
        }
    }
    assert(pgs@.take(n as int) =~= pgs@);
    r
}

/// A list of goals as one: a single goal as itself, several as their
/// conjunction.
pub open spec fn list_walk(gs: Seq<GoalModel>, b: Seq<(Seq<char>, Seq<char>)>) -> Result<Seq<SetView>, Seq<char>> {
    if gs.len() == 1 {
        walk(gs[0], b)
    } else {
        walk_and(gs, gs.len() as int, b)
    }
}

/// A list of goals as a disjunction of literal sets, as `list_walk` says.
fn walk_list(gs: &Vec<&GoalModel>, bindings: &[(String, String)]) -> (r: Result<Vec<LiteralSet>, MiniplanError>)
    ensures
        walk_result(r, list_walk(deref_goals(gs@), bindings_view(bindings@))),
{
    let ghost gv = deref_goals(gs@);
    let ghost bv = bindings_view(bindings@);
    if gs.len() == 1 {
        return walk_goal_definition(gs[0], bindings);
    }
    let mut results: Vec<LiteralSet> = vec![LiteralSet { pos: Vec::new(), neg: Vec::new() }];
    proof {
        assert(crate::ground::formula::lits_view(results@[0].pos@) =~= Seq::<LitView>::empty());
        assert(crate::ground::formula::lits_view(results@[0].neg@) =~= Seq::<LitView>::empty());
        assert(sets_view(results@) =~= seq![(Seq::<LitView>::empty(), Seq::<LitView>::empty())]);
    }
    let n = gs.len();
    for i in 0..n
        invariant
            n == gs@.len(),
            gv == deref_goals(gs@),
            bv == bindings_view(bindings@),
            walk_and(gv, i as int, bv) == Ok::<Seq<SetView>, Seq<char>>(sets_view(results@)),
    {
        let sub = walk_goal_definition(gs[i], bindings);
        match sub {
            Err(e) => {
                proof {
                    lemma_walk_and_err(gv, i + 1, n as int, bv);
                }
                return Err(e);
            },
            Ok(sub) => {
                results = cartesian_product_dnf(&results, &sub);
            },
        }
    }
    Ok(results)
}

/// The goal of a problem: none without plain goals; else the first
/// disjunct of their conjunction, or the walk's error, or an error when
/// the conjunction has no disjunct.
pub open spec fn goal_outcome(problem: PddlProblem) -> Result<Option<SetView>, Seq<char>> {
    let gs = pre_goals(problem.goals@);
    if gs.len() == 0 {
        Ok(None)
    } else {
        match list_walk(gs, Seq::empty()) {
            Err(m) => Err(m),
            Ok(dnf) => if dnf.len() == 0 {
                Err("goal is unsatisfiable (False)"@)
            } else {
                Ok(Some(dnf[0]))
            },
        }
    }
}

/// Sets the task's goal to the first disjunct of the problem's goal, as
/// `goal_outcome` says; without plain goals the task is left as it is.
pub fn build_goal_state(task: &mut Task, problem: &PddlProblem) -> (r: Result<(), MiniplanError>)
    requires
        old(task).index_ok(),
    ensures
        match goal_outcome(*problem) {
            Err(m) => r matches Err(MiniplanError::Ground(s)) && s@ == m && *final(task) == *old(task),
            Ok(None) => r is Ok && *final(task) == *old(task),
            Ok(Some(set)) => r is Ok && same_but_goal(old(task), final(task)) && final(task).goal_pos@ == marked(
                old(task),
                set.0,
            ) && final(task).goal_neg@ == marked(old(task), set.1),
        },
{
    let goals = pre_goal_refs(&problem.goals);
    if goals.len() == 0 {
        return Ok(());
    }
    let empty: Vec<(String, String)> = Vec::new();
    assert(bindings_view(empty@) =~= Seq::<(Seq<char>, Seq<char>)>::empty());
    let dnf = match walk_list(&goals, empty.as_slice()) {
        Ok(d) => d,
        Err(e) => {
            return Err(e);
        },
    };
    if dnf.len() == 0 {
        return Err(MiniplanError::Ground(String::from_str("goal is unsatisfiable (False)")));
    }
    assert(sets_view(dnf@)[0] == dnf@[0]@);
    match build_state_from_literals(&dnf[0], task) {
        Ok((pos, neg)) => {
            task.goal_pos = pos;
            task.goal_neg = neg;
            Ok(())
        },
        Err(e) => Err(e),
    }
}

/// The bits of a conditional effect.
pub type CondView = (Seq<bool>, Seq<bool>, Seq<bool>, Seq<bool>);

/// An operator as plain values: name, preconditions, effects,
/// conditional effects and cost.
pub type OpView = (Seq<char>, Seq<bool>, Seq<bool>, Seq<bool>, Seq<bool>, Seq<CondView>, u32);

/// An operator's plain values.
pub open spec fn op_view(op: Operator) -> OpView {
    (
        op.name@,
        op.pre_pos@,
        op.pre_neg@,
        op.add@,
        op.del@,
        op.conditional@.map_values(|c: CondEffect| (c.cond_pos@, c.cond_neg@, c.add@, c.del@)),
        op.cost,
    )
}

/// Operators' plain values, in order.
pub open spec fn ops_view(ops: Seq<Operator>) -> Seq<OpView> {
    ops.map_values(|op: Operator| op_view(op))
}

/// The name of a grounded action: the action's name, followed by its
/// objects, comma-separated in parentheses, when it has parameters.
pub open spec fn op_name_text(name: Seq<char>, b: Seq<(Seq<char>, Seq<char>)>) -> Seq<char> {
    if b.len() == 0 {
        name
    } else {
        name + "("@ + comma_joined(binding_values(b)) + ")"@
    }
}

/// An action's effects.
pub open spec fn action_effects(a: ActionModel) -> Seq<CEffectModel> {
    match a.effect {
        Some(v) => v@,
        None => Seq::empty(),
    }
}

/// The operator of an action under a binding for one disjunct of its
/// precondition.
pub open spec fn op_for(task: &Task, a: ActionModel, b: Seq<(Seq<char>, Seq<char>)>, set: SetView, parts: Seq<WhenView>) -> OpView {
    let ces = action_effects(a);
    (
        op_name_text(a.name@, b),
        marked(task, set.0),
        marked(task, set.1),
        marked(task, effect_lits(plain_effects(ces), b, true)),
        marked(task, effect_lits(plain_effects(ces), b, false)),
        parts.map_values(|w: WhenView| (marked(task, w.0), marked(task, w.1), marked(task, w.2), marked(task, w.3))),
        action_cost(a),
    )
}

/// The precondition of an action without any: the single fact `dummy`.
pub open spec fn dummy_dnf() -> Seq<SetView> {
    seq![(seq![("dummy"@, Seq::<Seq<char>>::empty())], Seq::<LitView>::empty())]
}

/// An action's precondition as a disjunction of literal sets under a
/// binding.
pub open spec fn pre_dnf(a: ActionModel, b: Seq<(Seq<char>, Seq<char>)>) -> Result<Seq<SetView>, Seq<char>> {
    let gs = pre_goals(a.precondition@);
    if gs.len() == 0 {
        Ok(dummy_dnf())
    } else {
        list_walk(gs, b)
    }
}

/// The operators of an action under one binding: one per disjunct of its
/// precondition; a precondition or effect condition that cannot be walked
/// is the error (the effects are only read when there is a disjunct).
pub open spec fn binding_ops(task: &Task, a: ActionModel, b: Seq<(Seq<char>, Seq<char>)>) -> Result<Seq<OpView>, Seq<char>> {
    match pre_dnf(a, b) {
        Err(m) => Err(m),
        Ok(dnf) => if dnf.len() == 0 {
            Ok(Seq::empty())
        } else {
            match when_parts(action_effects(a), b) {
                Err(m) => Err(m),
                Ok(parts) => Ok(dnf.map_values(|set: SetView| op_for(task, a, b, set, parts))),
            }
        },
    }
}

/// The operators of an action under the first `k` bindings, in order.
pub open spec fn action_ops(task: &Task, a: ActionModel, exts: Seq<Seq<(Seq<char>, Seq<char>)>>, k: int) -> Result<Seq<OpView>, Seq<char>>
    decreases k,
{
    if k <= 0 || k > exts.len() {
        Ok(Seq::empty())
    } else {
        match action_ops(task, a, exts, k - 1) {
            Err(m) => Err(m),
            Ok(acc) => match binding_ops(task, a, exts[k - 1]) {
                Err(m) => Err(m),
                Ok(ops) => Ok(acc + ops),
            },
        }
    }
}

/// The bindings of an action's parameters to the task's objects.
pub open spec fn action_bindings(task: &Task, a: ActionModel) -> Seq<Seq<(Seq<char>, Seq<char>)>> {
    bindings_product(typed_params(a.parameters@), task.objects@, &task.types)
}

/// The operators of the actions among the first `k` structure entries.
pub open spec fn structure_ops(task: &Task, st: Seq<StructureModel>, k: int) -> Result<Seq<OpView>, Seq<char>>
    decreases k,
{
    if k <= 0 || k > st.len() {
        Ok(Seq::empty())
    } else {
        match structure_ops(task, st, k - 1) {
            Err(m) => Err(m),
            Ok(acc) => match st[k - 1] {
                StructureModel::Action(a) => {
                    let exts = action_bindings(task, a);
                    match action_ops(task, a, exts, exts.len() as int) {
                        Err(m) => Err(m),
                        Ok(ops) => Ok(acc + ops),
                    }
                },
                _ => Ok(acc),
            },
        }
    }
}

/// Each operator's id is its position, and it reads and writes only the
/// task's facts.
pub open spec fn ops_ok(task: &Task) -> bool {
    forall|k: int|
        0 <= k < task.operators@.len() ==> (#[trigger] task.operators@[k]).id.0 == k && operator_fits(
            task.operators@[k],
            task.facts@.len(),
        )
}

/// Marking depends only on the facts and their index.
pub proof fn lemma_marked_same(a: &Task, b: &Task, lits: Seq<LitView>)
    requires
        a.facts == b.facts,
        a.fact_index == b.fact_index,
    ensures
        marked(a, lits) == marked(b, lits),
{
    assert(marked(a, lits) =~= marked(b, lits)) by {
        assert forall|i: int| 0 <= i < a.facts@.len() implies marked(a, lits)[i] == marked(b, lits)[i] by {
            assert forall|k: int| 0 <= k < lits.len() implies crate::ground::formula::names_fact(a, lits[k], i)
                == crate::ground::formula::names_fact(b, lits[k], i) by {}
        }
    }
}

/// Once an action's operators fail on a prefix of bindings, they fail
/// alike on longer ones.
proof fn lemma_action_ops_err(task: &Task, a: ActionModel, exts: Seq<Seq<(Seq<char>, Seq<char>)>>, k: int, m: int)
    requires
        0 < k <= m <= exts.len(),
        action_ops(task, a, exts, k) is Err,
    ensures
        action_ops(task, a, exts, m) == action_ops(task, a, exts, k),
    decreases m - k,
{
    if k < m {
        lemma_action_ops_err(task, a, exts, k, m - 1);
    }
}

/// Once the operators fail on a prefix of the structure, they fail alike
/// on longer ones.
proof fn lemma_structure_ops_err(task: &Task, st: Seq<StructureModel>, k: int, m: int)
    requires
        0 < k <= m <= st.len(),
        structure_ops(task, st, k) is Err,
    ensures
        structure_ops(task, st, m) == structure_ops(task, st, k),
    decreases m - k,
{
    if k < m {
        lemma_structure_ops_err(task, st, k, m - 1);
    }
}

/// The name of an action grounded under a binding, as `op_name_text` says.
fn op_name(name: &String, b: &Vec<(String, String)>) -> (r: String)
    ensures
        r@ == op_name_text(name@, bindings_view(b@)),
{
    if b.len() == 0 {
        name.clone()
    } else {
        let args = binding_objects(b);
        let joined = join_commas(&args);
        let head = join3(name.as_str(), "(", joined.as_str());
        concat(head.as_str(), ")")
    }
}

/// Grounds one action over every binding of its parameters, appending its
/// operators, as `action_ops` says; the first precondition or effect
/// condition that cannot be walked is the error.
pub fn ground_action(task: &mut Task, action: &ActionModel) -> (r: Result<(), MiniplanError>)
    requires
        old(task).index_ok(),
        old(task).types.supertypes.wf(),
        ops_ok(old(task)),
    ensures
        same_but_operators(old(task), final(task)),
        ops_ok(final(task)),
        match action_ops(old(task), *action, action_bindings(old(task), *action), action_bindings(old(task), *action).len() as int) {
            Err(m) => r matches Err(MiniplanError::Ground(s)) && s@ == m,
            Ok(ops) => r is Ok && ops_view(final(task).operators@) == ops_view(old(task).operators@) + ops,
        },
{
    let ghost t0 = *task;
    let ghost a = *action;
    let params = rule_params(&action.parameters);
    let pre = pre_goal_refs(&action.precondition);
    let dummy = GoalModel::Atom(AtomModel::Predicate(String::from_str("dummy"), Vec::new()));
    proof {
        reveal_strlit("dummy");
    }
    let list = match generate_bindings(params.as_slice(), task.objects.as_slice(), &task.types) {
        Ok(v) => v,
        Err(_) => Vec::new(),
    };
    let ghost exts = all_bindings_view(list@);
    proof {
        assert(params_view(params@) == typed_params(action.parameters@));
        assert(exts == action_bindings(&t0, a));
    }
    let ghost ops0 = ops_view(t0.operators@);
    let n = list.len();
    for bi in 0..n
        invariant
            n == list@.len(),
            exts == all_bindings_view(list@),
            exts == action_bindings(&t0, a),
            a == *action,
            deref_goals(pre@) == pre_goals(action.precondition@),
            dummy matches GoalModel::Atom(AtomModel::Predicate(dn, dv)) && dn@ == "dummy"@ && dv@.len() == 0,
            t0.index_ok(),
            t0 == *old(task),
            same_but_operators(&t0, task),
            ops_ok(task),
            ops0 == ops_view(t0.operators@),
            action_ops(&t0, a, exts, bi as int) matches Ok(acc) && ops_view(task.operators@) == ops0 + acc,
    {
        let b = &list[bi];
        let ghost bv = bindings_view(b@);
        assert(exts[bi as int] == bv);
        let walked = if pre.len() == 0 {
            walk_goal_definition(&dummy, b.as_slice())
        } else {
            walk_list(&pre, b.as_slice())
        };
        let dnf = match walked {
            Ok(d) => d,
            Err(e) => {
                proof {
                    lemma_action_ops_err(&t0, a, exts, bi + 1, n as int);
                }
                return Err(e);
            },
        };
        proof {
            if pre@.len() == 0 {
                if let GoalModel::Atom(AtomModel::Predicate(dn, dv)) = &dummy {
                    assert(crate::ground::formula::terms_text(dv@, 0, bv) =~= Seq::<Seq<char>>::empty());
                }
                assert(sets_view(dnf@) =~= dummy_dnf());
            }
            assert(pre_dnf(a, bv) == Ok::<Seq<SetView>, Seq<char>>(sets_view(dnf@)));
        }
        let ghost acc = action_ops(&t0, a, exts, bi as int)->Ok_0;
        let ghost start = task.operators@;
        let nd = dnf.len();
        for si in 0..nd
            invariant
                nd == dnf@.len(),
                n == list@.len(),
                bi < n,
                exts == all_bindings_view(list@),
                exts == action_bindings(&t0, a),
                t0 == *old(task),
                t0.index_ok(),
                same_but_operators(&t0, task),
                ops_ok(task),
                a == *action,
                bv == bindings_view(b@),
                exts[bi as int] == bv,
                action_ops(&t0, a, exts, bi as int) == Ok::<Seq<OpView>, Seq<char>>(acc),
                ops_view(start) == ops0 + acc,
                pre_dnf(a, bv) == Ok::<Seq<SetView>, Seq<char>>(sets_view(dnf@)),
                si > 0 ==> when_parts(action_effects(a), bv) is Ok,
                task.operators@.len() == start.len() + si,
                forall|j: int| 0 <= j < start.len() ==> task.operators@[j] == start[j],
                forall|j: int| 0 <= j < si ==> #[trigger] op_view(task.operators@[start.len() + j]) == op_for(
                    &t0, a, bv, sets_view(dnf@)[j], when_parts(action_effects(a), bv)->Ok_0),
        {
            let (pre_pos, pre_neg) = match build_state_from_literals(&dnf[si], task) {
                Ok(x) => x,
                Err(e) => {
                    return Err(e);
                },
            };
            let (add, del, conditional) = match extract_effects(&action.effect, b.as_slice(), task) {
                Ok(x) => x,
                Err(e) => {
                    proof {
                        assert(si == 0);
                        assert(binding_ops(&t0, a, bv) is Err);
                        lemma_action_ops_err(&t0, a, exts, bi + 1, n as int);
                    }
                    return Err(e);
                },
            };
            let name = op_name(&action.name, b);
            let cost = match extract_action_cost(action) {
                Ok(c) => c,
                Err(e) => {
                    return Err(e);
                },
            };
            let id = OpId(task.operators.len());
            let op = Operator { id, name, pre_pos, pre_neg, add, del, conditional, cost };
            proof {
                let parts = when_parts(action_effects(a), bv)->Ok_0;
                let set = sets_view(dnf@)[si as int];
                assert(set == dnf@[si as int]@);
                lemma_marked_same(&t0, task, set.0);
                lemma_marked_same(&t0, task, set.1);
                let ces = action_effects(a);
                assert(ces == match action.effect { Some(v) => v@, None => Seq::empty() });
                lemma_marked_same(&t0, task, effect_lits(plain_effects(ces), bv, true));
                lemma_marked_same(&t0, task, effect_lits(plain_effects(ces), bv, false));
                assert(op.conditional@.map_values(|c: CondEffect| (c.cond_pos@, c.cond_neg@, c.add@, c.del@))
                    =~= parts.map_values(|w: WhenView| (marked(&t0, w.0), marked(&t0, w.1), marked(&t0, w.2), marked(&t0, w.3)))) by {
                    assert forall|j: int| 0 <= j < parts.len() implies (op.conditional@[j].cond_pos@, op.conditional@[j].cond_neg@, op.conditional@[j].add@, op.conditional@[j].del@)
                        == (marked(&t0, parts[j].0), marked(&t0, parts[j].1), marked(&t0, parts[j].2), marked(&t0, parts[j].3)) by {
                        assert(cond_ok(task, op.conditional@[j], parts[j]));
                        lemma_marked_same(&t0, task, parts[j].0);
                        lemma_marked_same(&t0, task, parts[j].1);
                        lemma_marked_same(&t0, task, parts[j].2);
                        lemma_marked_same(&t0, task, parts[j].3);
                    }
                }
                assert(op_view(op) == op_for(&t0, a, bv, set, parts));
                let nf = task.facts@.len();
                assert(operator_fits(op, nf)) by {
                    assert forall|k: int| 0 <= k < op.conditional@.len() implies {
                        &&& fits((#[trigger] op.conditional@[k]).cond_pos@, nf)
                        &&& fits(op.conditional@[k].cond_neg@, nf)
                        &&& fits(op.conditional@[k].add@, nf)
                        &&& fits(op.conditional@[k].del@, nf)
                    } by {
                        assert(cond_ok(task, op.conditional@[k], parts[k]));
                    }
                }
            }
            task.operators.push(op);
            proof {
                assert forall|j: int| 0 <= j < si + 1 implies #[trigger] op_view(task.operators@[start.len() + j]) == op_for(
                    &t0, a, bv, sets_view(dnf@)[j], when_parts(action_effects(a), bv)->Ok_0) by {
                    if j < si {
                        assert(task.operators@[start.len() + j] == old_ops_at(task.operators@, start.len() + j));
                    }
                }
            }
        }
        proof {
            let parts_r = when_parts(action_effects(a), bv);
            if nd > 0 {
                let parts = parts_r->Ok_0;
                let ops_b = sets_view(dnf@).map_values(|set: SetView| op_for(&t0, a, bv, set, parts));
                assert(binding_ops(&t0, a, bv) == Ok::<Seq<OpView>, Seq<char>>(ops_b));
                assert(ops_view(task.operators@) =~= ops_view(start) + ops_b) by {
                    assert forall|j: int| 0 <= j < task.operators@.len() implies ops_view(task.operators@)[j] == (ops_view(start) + ops_b)[j] by {
                        if j >= start.len() {
                            assert(op_view(task.operators@[start.len() + (j - start.len())]) == op_for(&t0, a, bv, sets_view(dnf@)[j - start.len()], parts));
                        }
                    }
                }
            } else {
                assert(binding_ops(&t0, a, bv) == Ok::<Seq<OpView>, Seq<char>>(Seq::empty()));
                assert(task.operators@ =~= start);
            }
            assert(action_ops(&t0, a, exts, bi + 1) == Ok::<Seq<OpView>, Seq<char>>(acc + binding_ops(&t0, a, bv)->Ok_0));
        }
    }
    Ok(())
}

/// The operator at a position of a list.
spec fn old_ops_at(ops: Seq<Operator>, j: int) -> Operator {
    ops[j]
}

/// An operator's values depend only on the facts and their index.
proof fn lemma_op_for_same(t1: &Task, t2: &Task, a: ActionModel, b: Seq<(Seq<char>, Seq<char>)>, set: SetView, parts: Seq<WhenView>)
    requires
        same_but_operators(t1, t2),
    ensures
        op_for(t1, a, b, set, parts) == op_for(t2, a, b, set, parts),
{
    let ces = action_effects(a);
    lemma_marked_same(t1, t2, set.0);
    lemma_marked_same(t1, t2, set.1);
    lemma_marked_same(t1, t2, effect_lits(plain_effects(ces), b, true));
    lemma_marked_same(t1, t2, effect_lits(plain_effects(ces), b, false));
    assert(parts.map_values(|w: WhenView| (marked(t1, w.0), marked(t1, w.1), marked(t1, w.2), marked(t1, w.3)))
        =~= parts.map_values(|w: WhenView| (marked(t2, w.0), marked(t2, w.1), marked(t2, w.2), marked(t2, w.3)))) by {
        assert forall|j: int| 0 <= j < parts.len() implies (marked(t1, parts[j].0), marked(t1, parts[j].1), marked(t1, parts[j].2), marked(t1, parts[j].3))
            == (marked(t2, parts[j].0), marked(t2, parts[j].1), marked(t2, parts[j].2), marked(t2, parts[j].3)) by {
            lemma_marked_same(t1, t2, parts[j].0);
            lemma_marked_same(t1, t2, parts[j].1);
            lemma_marked_same(t1, t2, parts[j].2);
            lemma_marked_same(t1, t2, parts[j].3);
        }
    }
}

/// The operators of an action depend only on the facts, their index, the
/// objects and the types.
proof fn lemma_action_ops_same(t1: &Task, t2: &Task, a: ActionModel, exts: Seq<Seq<(Seq<char>, Seq<char>)>>, k: int)
    requires
        same_but_operators(t1, t2),
    ensures
        action_ops(t1, a, exts, k) == action_ops(t2, a, exts, k),
    decreases k,
{
    if 0 < k <= exts.len() {
        lemma_action_ops_same(t1, t2, a, exts, k - 1);
        let b = exts[k - 1];
        if let Ok(dnf) = pre_dnf(a, b) {
            if let Ok(parts) = when_parts(action_effects(a), b) {
                assert(dnf.map_values(|set: SetView| op_for(t1, a, b, set, parts)) =~= dnf.map_values(
                    |set: SetView| op_for(t2, a, b, set, parts),
                )) by {
                    assert forall|j: int| 0 <= j < dnf.len() implies op_for(t1, a, b, dnf[j], parts) == op_for(t2, a, b, dnf[j], parts) by {
                        lemma_op_for_same(t1, t2, a, b, dnf[j], parts);
                    }
                }
            }
        }
        assert(binding_ops(t1, a, b) == binding_ops(t2, a, b));
    }
}

/// The operators of a structure depend only on the facts, their index,
/// the objects and the types.
pub proof fn lemma_structure_ops_same(t1: &Task, t2: &Task, st: Seq<StructureModel>, k: int)
    requires
        same_but_operators(t1, t2),
    ensures
        structure_ops(t1, st, k) == structure_ops(t2, st, k),
    decreases k,
{
    if 0 < k <= st.len() {
        lemma_structure_ops_same(t1, t2, st, k - 1);
        if let StructureModel::Action(a) = st[k - 1] {
            let exts = action_bindings(t1, a);
            lemma_action_ops_same(t1, t2, a, exts, exts.len() as int);
        }
    }
}

/// Grounds every action of a domain in order, appending their operators,
/// as `structure_ops` says; the first failure is the error.
pub fn ground_actions(task: &mut Task, domain: &PddlDomain) -> (r: Result<(), MiniplanError>)
    requires
        old(task).index_ok(),
        old(task).types.supertypes.wf(),
        ops_ok(old(task)),
    ensures
        same_but_operators(old(task), final(task)),
        ops_ok(final(task)),
        match structure_ops(old(task), domain.structure@, domain.structure@.len() as int) {
            Err(m) => r matches Err(MiniplanError::Ground(s)) && s@ == m,
            Ok(ops) => r is Ok && ops_view(final(task).operators@) == ops_view(old(task).operators@) + ops,
        },
{
    let ghost t0 = *task;
    let ghost st = domain.structure@;
    let n = domain.structure.len();
    for k in 0..n
        invariant
            n == st.len(),
            st == domain.structure@,
            t0 == *old(task),
            t0.index_ok(),
            t0.types.supertypes.wf(),
            same_but_operators(&t0, task),
            ops_ok(task),
            structure_ops(&t0, st, k as int) matches Ok(acc) && ops_view(task.operators@) == ops_view(t0.operators@) + acc,
    {
        match &domain.structure[k] {
            StructureModel::Action(a) => {
                let ghost before = *task;
                let ghost acc = structure_ops(&t0, st, k as int)->Ok_0;
                proof {
                    let exts = action_bindings(&t0, *a);
                    lemma_action_ops_same(&t0, &before, *a, exts, exts.len() as int);
                }
                match ground_action(task, a) {
                    Ok(()) => {
                        proof {
                            let exts = action_bindings(&t0, *a);
                            let ops = action_ops(&t0, *a, exts, exts.len() as int)->Ok_0;
                            assert(ops_view(task.operators@) =~= ops_view(t0.operators@) + (acc + ops));
                        }
                    },
                    Err(e) => {
                        proof {
                            lemma_structure_ops_err(&t0, st, k + 1, n as int);
                        }
                        return Err(e);
                    },
                }
            },
            _ => {},
        }
    }
    Ok(())
}

/// The task's types and objects are those of the domain and problem.
pub open spec fn extracted(domain: PddlDomain, problem: PddlProblem, task: &Task) -> bool {
    &&& task.types.supertypes.wf()
    &&& forall|t: Seq<char>| #[trigger] supertype_of(&task.types, t) == declared_supertype(domain.types@, t)
    &&& objects_view(task.objects@) == first_occurrences(named_types(domain.constants@) + named_types(problem.objects@))
}

/// The facts of the universe that the problem's initial elements assert.
pub open spec fn start_facts(domain: PddlDomain, problem: PddlProblem, rs: Seq<RuleView>, task: &Task) -> Set<LitView> {
    let u = universe(domain, rs, task.objects@);
    Set::new(|l: LitView| u.contains(l) && problem_init_lits(problem).contains(l))
}

/// The facts the derived predicates add to the initial state.
pub open spec fn derived_lits(domain: PddlDomain, problem: PddlProblem, rs: Seq<RuleView>, task: &Task) -> Result<Seq<LitView>, ()> {
    all_rule_facts(rs, rs.len() as int, start_facts(domain, problem, rs, task), task.objects@, &task.types)
}

/// Why grounding fails over a task's objects and types, if it does: a
/// derived predicate's body cannot be evaluated, the goal cannot be
/// walked or is unsatisfiable, or an action cannot be grounded; checked
/// in this order.
pub open spec fn ground_error(domain: PddlDomain, problem: PddlProblem, rs: Seq<RuleView>, task: &Task) -> Option<Seq<char>> {
    match derived_lits(domain, problem, rs, task) {
        Err(_) => Some(numeric_body_text()),
        Ok(_) => match goal_outcome(problem) {
            Err(m) => Some(m),
            Ok(_) => match structure_ops(task, domain.structure@, domain.structure@.len() as int) {
                Err(m) => Some(m),
                Ok(_) => None,
            },
        },
    }
}

/// A task is the grounding of a domain and problem: its types and objects
/// are theirs; its facts are the universe followed by the derived facts it
/// lacks; a fact holds initially when the problem asserts it or it is
/// derived; its goal is the first disjunct of the problem's goal (nothing
/// over the universe when there is none); its operators are those of the
/// domain's actions in order; and its metadata are the names and
/// requirements.
pub open spec fn grounded(domain: PddlDomain, problem: PddlProblem, rs: Seq<RuleView>, task: &Task) -> bool {
    let u = universe(domain, rs, task.objects@);
    let dl = derived_lits(domain, problem, rs, task)->Ok_0;
    &&& extracted(domain, problem, task)
    &&& ground_error(domain, problem, rs, task) is None
    &&& task.well_formed()
    &&& task.index_ok()
    &&& facts_view(task.facts@) == appended(u, dl)
    &&& forall|i: int|
        0 <= i < task.facts@.len() ==> #[trigger] task.init@[i] == ((i < u.len() && problem_init_lits(problem).contains(
            task.facts@[i]@,
        )) || dl.contains(task.facts@[i]@))
    &&& match goal_outcome(problem) {
        Ok(Some(set)) => task.goal_pos@ == marked(task, set.0) && task.goal_neg@ == marked(task, set.1),
        _ => task.goal_pos@ == Seq::new(u.len(), |i: int| false) && task.goal_neg@ == Seq::new(u.len(), |i: int| false),
    }
    &&& ops_view(task.operators@) == structure_ops(task, domain.structure@, domain.structure@.len() as int)->Ok_0
    &&& task.metadata.domain_name@ == domain.name@
    &&& task.metadata.problem_name@ == problem.name@
    &&& strings_view(task.metadata.requirements@) == strings_view(domain.requirements@)
}

/// Grounds a domain and problem into a task: the first derived predicate
/// that cannot be expanded is the error; otherwise the task is as
/// `grounded` says, or the grounding fails as `ground_error` says over the
/// domain's types and the problem's objects.
pub fn ground(domain: &PddlDomain, problem: &PddlProblem) -> (r: Result<Task, MiniplanError>)
    ensures
        match domain_rules(*domain) {
            Err(m) => r matches Err(MiniplanError::Ground(s)) && s@ == m,
            Ok(rs) => match r {
                Ok(task) => grounded(*domain, *problem, rs, &task),
                Err(e) => e matches MiniplanError::Ground(s) && exists|t: Task|
                    extracted(*domain, *problem, &t) && #[trigger] ground_error(*domain, *problem, rs, &t) == Some(s@),
            },
        },
{
    let types = match extract_types(domain) {
        Ok(t) => t,
        Err(e) => {
            return Err(e);
        },
    };
    let objects = match extract_objects(domain, problem, &types) {
        Ok(o) => o,
        Err(e) => {
            return Err(e);
        },
    };
    let (facts, fact_index) = match build_fact_universe(domain, objects.as_slice()) {
        Ok(x) => x,
        Err(e) => {
            return Err(e);
        },
    };
    let ghost rs = domain_rules(*domain)->Ok_0;
    let num_facts = facts.len();
    let mut task = Task {
        facts,
        fact_index,
        operators: Vec::new(),
        init: State::new(num_facts),
        goal_pos: State::new(num_facts),
        goal_neg: State::new(num_facts),
        objects,
        types,
        metadata: TaskMeta {
            domain_name: domain.name.clone(),
            problem_name: problem.name.clone(),
            requirements: clone_strings(&domain.requirements),
        },
    };
    let ghost u = universe(*domain, rs, task.objects@);
    let ghost t1 = task;
    assert(extracted(*domain, *problem, &t1));
    match build_init_state(&mut task, problem) {
        Ok(()) => {},
        Err(e) => {
            return Err(e);
        },
    }
    let ghost t2 = task;
    proof {
        assert(init_facts(&t2) =~= start_facts(*domain, *problem, rs, &t2)) by {
            assert forall|l: LitView| init_facts(&t2).contains(l) <==> start_facts(*domain, *problem, rs, &t2).contains(l) by {
                if init_facts(&t2).contains(l) {
                    let i = choose|i: int| 0 <= i < t2.facts@.len() && crate::task::is_set(t2.init@, i) && #[trigger] t2.facts@[i]@ == l;
                    assert(facts_view(t2.facts@)[i] == l);
                }
                if start_facts(*domain, *problem, rs, &t2).contains(l) {
                    let i = choose|i: int| 0 <= i < u.len() && u[i] == l;
                    assert(facts_view(t2.facts@)[i] == l);
                    assert(t2.facts@[i]@ == l);
                    assert(t2.init@[i]);
                }
            }
        }
    }
    match expand_into_init(&mut task, domain) {
        Ok(()) => {},
        Err(e) => {
            proof {
                assert(extracted(*domain, *problem, &t2));
                assert(ground_error(*domain, *problem, rs, &t2) == Some(numeric_body_text()));
            }
            return Err(e);
        },
    }
    let ghost t3 = task;
    let ghost dl = derived_lits(*domain, *problem, rs, &t2)->Ok_0;
    assert(expanded(&t2, &t3, dl));
    match build_goal_state(&mut task, problem) {
        Ok(()) => {},
        Err(e) => {
            proof {
                assert(extracted(*domain, *problem, &t3));
                assert(ground_error(*domain, *problem, rs, &t3) == Some(goal_outcome(*problem)->Err_0));
            }
            return Err(e);
        },
    }
    let ghost t4 = task;
    assert(ops_ok(&t4));
    match ground_actions(&mut task, domain) {
        Ok(()) => {},
        Err(e) => {
            proof {
                assert(extracted(*domain, *problem, &t4));
                assert(ground_error(*domain, *problem, rs, &t4) == Some(
                    structure_ops(&t4, domain.structure@, domain.structure@.len() as int)->Err_0,
                ));
            }
            return Err(e);
        },
    }
    proof {
        lemma_structure_ops_same(&t4, &task, domain.structure@, domain.structure@.len() as int);
        assert(task.operators@ =~= Seq::<Operator>::empty() + task.operators@);
        assert(ops_view(task.operators@) =~= ops_view(t4.operators@) + structure_ops(&t4, domain.structure@, domain.structure@.len() as int)->Ok_0);
        if let Ok(Some(set)) = goal_outcome(*problem) {
            lemma_marked_same(&t3, &task, set.0);
            lemma_marked_same(&t3, &task, set.1);
        }
        crate::ground::derived::lemma_appended_prefix(u, dl);
        assert forall|i: int| 0 <= i < task.facts@.len() implies #[trigger] task.init@[i] == ((i < u.len()
            && problem_init_lits(*problem).contains(task.facts@[i]@)) || dl.contains(task.facts@[i]@)) by {
            if i < u.len() {
                assert(facts_view(task.facts@)[i] == u[i]);
                assert(facts_view(t2.facts@)[i] == u[i]);
            }
        }
        assert forall|k: int| 0 <= k < task.operators@.len() implies operator_fits(#[trigger] task.operators@[k], task.facts@.len()) && task.operators@[k].id.0 == k by {}
        assert(fits(task.goal_pos@, task.facts@.len()));
        assert(fits(task.goal_neg@, task.facts@.len()));
    }
    Ok(task)
}

} // verus!
