//! Derived predicates with static bodies: their rules, checked against the
//! domain, and their expansion into the initial state.

use vstd::prelude::*;
use crate::error::MiniplanError;
use crate::ground::types::type_text;
use crate::pddl_model::{
    AtomModel, CEffectModel, DerivedModel, GoalModel, LiteralModel, PddlDomain, PrimEffectModel,
    StructureModel, TypedName,
};
use crate::ground::effect::consequent;
use crate::task::{Fact, FactId, Object, Task, TypeHierarchy, is_set, strings_view};
use crate::bitset::{bitset_grow, bitset_ones};
use crate::table::{IndexTable, TableKey};
use crate::ground::formula::{LitView, bindings_view, term_text, terms_text, term_to_string, terms_to_strings};
use crate::ground::bindings::{bindings_product, all_bindings_view, clone_binding, generate_bindings, params_view};
use crate::text::concat;

verus! {

/// The predicate an atom names, if it names one.
pub open spec fn atom_preds(af: AtomModel) -> Seq<Seq<char>> {
    match af {
        AtomModel::Predicate(n, _) => seq![n@],
        AtomModel::Equality(_, _) => Seq::empty(),
    }
}

/// The predicates a goal mentions, in the order they occur (repeats kept).
pub open spec fn gd_preds(gd: GoalModel) -> Seq<Seq<char>>
    decreases gd, 1nat,
{
    match gd {
        GoalModel::Atom(af) => atom_preds(af),
        GoalModel::Literal(LiteralModel::Positive(af)) => atom_preds(af),
        GoalModel::Literal(LiteralModel::Negative(af)) => atom_preds(af),
        GoalModel::And(gs) => gds_preds(gs@, gs@.len() as int),
        GoalModel::Or(gs) => gds_preds(gs@, gs@.len() as int),
        GoalModel::Not(inner) => gd_preds(*inner),
        GoalModel::Imply(a, b) => gd_preds(*a) + gd_preds(*b),
        GoalModel::Exists(_, body) => gd_preds(*body),
        GoalModel::ForAll(_, body) => gd_preds(*body),
        GoalModel::FluentComparison => Seq::empty(),
    }
}

/// The predicates the first `k` goals mention, in order.
pub open spec fn gds_preds(gs: Seq<GoalModel>, k: int) -> Seq<Seq<char>>
    decreases gs, 0nat, k,
{
    if k <= 0 || k > gs.len() {
        Seq::empty()
    } else {
        gds_preds(gs, k - 1) + gd_preds(gs[k - 1])
    }
}

/// The predicate a primitive effect adds or deletes, if any.
pub open spec fn prim_preds(pe: PrimEffectModel) -> Seq<Seq<char>> {
    match pe {
        PrimEffectModel::Add(AtomModel::Predicate(n, _)) => seq![n@],
        PrimEffectModel::Delete(AtomModel::Predicate(n, _)) => seq![n@],
        _ => Seq::empty(),
    }
}

/// The predicates primitive effects add or delete, in order.
pub open spec fn prims_preds(pes: Seq<PrimEffectModel>) -> Seq<Seq<char>>
    decreases pes.len(),
{
    if pes.len() == 0 {
        Seq::empty()
    } else {
        prims_preds(pes.drop_last()) + prim_preds(pes.last())
    }
}

/// The predicates an effect adds or deletes, at any depth.
pub open spec fn ce_preds(ce: CEffectModel) -> Seq<Seq<char>>
    decreases ce, 1nat,
{
    match ce {
        CEffectModel::Effect(pe) => prim_preds(pe),
        CEffectModel::Forall(inner) => ces_preds(inner@, inner@.len() as int),
        CEffectModel::When(_, ec) => prims_preds(consequent(ec)),
    }
}

/// The predicates the first `k` effects add or delete.
pub open spec fn ces_preds(ces: Seq<CEffectModel>, k: int) -> Seq<Seq<char>>
    decreases ces, 0nat, k,
{
    if k <= 0 || k > ces.len() {
        Seq::empty()
    } else {
        ces_preds(ces, k - 1) + ce_preds(ces[k - 1])
    }
}

/// The fluent predicates of a domain: those some action adds or deletes.
pub open spec fn fluent_names(st: Seq<StructureModel>) -> Seq<Seq<char>>
    decreases st.len(),
{
    if st.len() == 0 {
        Seq::empty()
    } else {
        fluent_names(st.drop_last()) + match st.last() {
            StructureModel::Action(a) => match a.effect {
                Some(ces) => ces_preds(ces@, ces@.len() as int),
                None => Seq::empty(),
            },
            _ => Seq::empty(),
        }
    }
}

/// The heads of a domain's derived predicates, in order.
pub open spec fn derived_heads(st: Seq<StructureModel>) -> Seq<Seq<char>>
    decreases st.len(),
{
    if st.len() == 0 {
        Seq::empty()
    } else {
        derived_heads(st.drop_last()) + match st.last() {
            StructureModel::Derived(d) => seq![d.name@],
            _ => Seq::empty(),
        }
    }
}

/// The first of `names` that occurs in `set`.
pub open spec fn first_member(names: Seq<Seq<char>>, set: Seq<Seq<char>>) -> Option<Seq<char>>
    decreases names.len(),
{
    if names.len() == 0 {
        None
    } else {
        match first_member(names.drop_last(), set) {
            Some(p) => Some(p),
            None => if set.contains(names.last()) { Some(names.last()) } else { None },
        }
    }
}

/// The message for a derived predicate that an action changes.
pub open spec fn fluent_head_text(h: Seq<char>) -> Seq<char> {
    "derived predicate `"@ + h + "` appears in action effects; derived predicates cannot be fluents"@
}

/// The message for a derived predicate whose body mentions itself.
pub open spec fn recursive_text(h: Seq<char>) -> Seq<char> {
    "derived predicate `"@ + h + "` references itself; recursive derived predicates are not supported"@
}

/// The message for a derived predicate whose body mentions another one.
pub open spec fn layered_text(h: Seq<char>, p: Seq<char>) -> Seq<char> {
    "derived predicate `"@ + h + "` references another derived predicate `"@ + p
        + "`; multi-layer derived predicates are not yet supported"@
}

/// The message for a derived predicate whose body mentions a fluent one.
pub open spec fn fluent_body_text(h: Seq<char>, p: Seq<char>) -> Seq<char> {
    "derived predicate `"@ + h + "` references fluent predicate `"@ + p
        + "`; only static-body derived predicates are supported"@
}

/// Why a derived predicate cannot be expanded, if it cannot: its head is a
/// fluent; its body mentions its head; its body mentions another derived
/// predicate (the first one it mentions); its body mentions a fluent (the
/// first one). Checked in this order.
pub open spec fn rule_error(d: DerivedModel, fluents: Seq<Seq<char>>, heads: Seq<Seq<char>>) -> Option<Seq<char>> {
    let body = gd_preds(d.body);
    if fluents.contains(d.name@) {
        Some(fluent_head_text(d.name@))
    } else if body.contains(d.name@) {
        Some(recursive_text(d.name@))
    } else {
        match first_member(body, heads) {
            Some(p) => Some(layered_text(d.name@, p)),
            None => match first_member(body, fluents) {
                Some(p) => Some(fluent_body_text(d.name@, p)),
                None => None,
            },
        }
    }
}

/// A parameter list's texts: each variable with the text of its type.
pub open spec fn typed_params(vars: Seq<TypedName>) -> Seq<(Seq<char>, Seq<char>)> {
    vars.map_values(|t: TypedName| (t.name@, type_text(t.type_ref)))
}

/// A rule as text: its head, its parameters, its body.
pub type RuleView = (Seq<char>, Seq<(Seq<char>, Seq<char>)>, GoalModel);

/// The rule of a derived predicate.
pub open spec fn derived_view(d: DerivedModel) -> RuleView {
    (d.name@, typed_params(d.parameters@), d.body)
}

/// The rules of the first `k` structure entries, or the first error.
pub open spec fn collect_rules(
    st: Seq<StructureModel>,
    k: int,
    fluents: Seq<Seq<char>>,
    heads: Seq<Seq<char>>,
) -> Result<Seq<RuleView>, Seq<char>>
    decreases k,
{
    if k <= 0 || k > st.len() {
        Ok(Seq::empty())
    } else {
        match collect_rules(st, k - 1, fluents, heads) {
            Err(m) => Err(m),
            Ok(rs) => match st[k - 1] {
                StructureModel::Derived(d) => match rule_error(d, fluents, heads) {
                    Some(m) => Err(m),
                    None => Ok(rs.push(derived_view(d))),
                },
                _ => Ok(rs),
            },
        }
    }
}

/// The rules of a domain's derived predicates, in order, or the first
/// rule that cannot be expanded.
pub open spec fn domain_rules(domain: PddlDomain) -> Result<Seq<RuleView>, Seq<char>> {
    collect_rules(
        domain.structure@,
        domain.structure@.len() as int,
        fluent_names(domain.structure@),
        derived_heads(domain.structure@),
    )
}

/// A derived predicate ready to be expanded.
pub struct DerivedRule<'a> {
    pub head_name: String,
    pub params: Vec<(String, String)>,
    pub body: &'a GoalModel,
}

/// A rule's text.
pub open spec fn rule_view(r: DerivedRule) -> RuleView {
    (r.head_name@, crate::ground::bindings::params_view(r.params@), *r.body)
}

/// Rules' texts, in order.
pub open spec fn rules_view(rs: Seq<DerivedRule>) -> Seq<RuleView> {
    rs.map_values(|r: DerivedRule| rule_view(r))
}

/// The derived predicates of a domain; each has a static body.
pub struct DerivedRuleSet<'a> {
    pub rules: Vec<DerivedRule<'a>>,
    pub all_static: bool,
}

/// Appends the predicates a goal mentions.
fn gd_pred_names(gd: &GoalModel, out: &mut Vec<String>)
    ensures
        strings_view(final(out)@) == strings_view(old(out)@) + gd_preds(*gd),
    decreases gd,
{
    let ghost start = strings_view(out@);
    match gd {
        GoalModel::Atom(af) => atom_pred_name(af, out),
        GoalModel::Literal(LiteralModel::Positive(af)) => atom_pred_name(af, out),
        GoalModel::Literal(LiteralModel::Negative(af)) => atom_pred_name(af, out),
        GoalModel::And(gs) => {
            let n = gs.len();
            assert(forall|j: int| 0 <= j < gs@.len() ==> decreases_to!(*gd => #[trigger] gs@[j]));
            for i in 0..n
                invariant
                    n == gs@.len(),
                    *gd == GoalModel::And(*gs),
                    forall|j: int| 0 <= j < gs@.len() ==> decreases_to!(*gd => #[trigger] gs@[j]),
                    strings_view(out@) == start + gds_preds(gs@, i as int),
            {
                gd_pred_names(&gs[i], out);
                proof {
                    assert(start + gds_preds(gs@, i as int) + gd_preds(gs@[i as int]) =~= start
                        + gds_preds(gs@, i + 1));
                }
            }
        },
        GoalModel::Or(gs) => {
            let n = gs.len();
            assert(forall|j: int| 0 <= j < gs@.len() ==> decreases_to!(*gd => #[trigger] gs@[j]));
            for i in 0..n
                invariant
                    n == gs@.len(),
                    *gd == GoalModel::Or(*gs),
                    forall|j: int| 0 <= j < gs@.len() ==> decreases_to!(*gd => #[trigger] gs@[j]),
                    strings_view(out@) == start + gds_preds(gs@, i as int),
            {
                gd_pred_names(&gs[i], out);
                proof {
                    assert(start + gds_preds(gs@, i as int) + gd_preds(gs@[i as int]) =~= start
                        + gds_preds(gs@, i + 1));
                }
            }
        },
        GoalModel::Not(inner) => gd_pred_names(inner, out),
        GoalModel::Imply(a, b) => {
            gd_pred_names(a, out);
            gd_pred_names(b, out);
            assert(start + gd_preds(**a) + gd_preds(**b) =~= start + (gd_preds(**a) + gd_preds(**b)));
        },
        GoalModel::Exists(_, body) => gd_pred_names(body, out),
        GoalModel::ForAll(_, body) => gd_pred_names(body, out),
        GoalModel::FluentComparison => {
            assert(start + Seq::<Seq<char>>::empty() =~= start);
        },
    }
}

/// Appends the predicate an atom names.
fn atom_pred_name(af: &AtomModel, out: &mut Vec<String>)
    ensures
        strings_view(final(out)@) == strings_view(old(out)@) + atom_preds(*af),
{
    let ghost start = strings_view(out@);
    match af {
        AtomModel::Predicate(n, _) => {
            out.push(n.clone());
            assert(strings_view(out@) =~= start + seq![n@]);
        },
        AtomModel::Equality(_, _) => {
            assert(start + Seq::<Seq<char>>::empty() =~= start);
        },
    }
}

/// Appends the predicate a primitive effect adds or deletes.
fn prim_pred_name(pe: &PrimEffectModel, out: &mut Vec<String>)
    ensures
        strings_view(final(out)@) == strings_view(old(out)@) + prim_preds(*pe),
{
    let ghost start = strings_view(out@);
    match pe {
        PrimEffectModel::Add(AtomModel::Predicate(n, _)) | PrimEffectModel::Delete(
            AtomModel::Predicate(n, _),
        ) => {
            out.push(n.clone());
            assert(strings_view(out@) =~= start + seq![n@]);
        },
        _ => {
            assert(start + Seq::<Seq<char>>::empty() =~= start);
        },
    }
}

/// Appends the predicates primitive effects add or delete.
fn prims_pred_names(pes: &Vec<PrimEffectModel>, out: &mut Vec<String>)
    ensures
        strings_view(final(out)@) == strings_view(old(out)@) + prims_preds(pes@),
{
    let ghost start = strings_view(out@);
    let n = pes.len();
    for i in 0..n
        invariant
            n == pes@.len(),
            strings_view(out@) == start + prims_preds(pes@.take(i as int)),
    {
        prim_pred_name(&pes[i], out);
        proof {
            assert(pes@.take(i + 1).drop_last() =~= pes@.take(i as int));
            assert(start + prims_preds(pes@.take(i as int)) + prim_preds(pes@[i as int]) =~= start
                + prims_preds(pes@.take(i + 1)));
        }
    }
    assert(pes@.take(n as int) =~= pes@);
}

/// Appends the predicates an effect adds or deletes, at any depth.
fn ce_pred_names(ce: &CEffectModel, out: &mut Vec<String>)
    ensures
        strings_view(final(out)@) == strings_view(old(out)@) + ce_preds(*ce),
    decreases ce,
{
    match ce {
        CEffectModel::Effect(pe) => prim_pred_name(pe, out),
        CEffectModel::Forall(inner) => {
            let ghost start = strings_view(out@);
            let n = inner.len();
            assert(forall|j: int| 0 <= j < inner@.len() ==> decreases_to!(*ce => #[trigger] inner@[j]));
            for i in 0..n
                invariant
                    n == inner@.len(),
                    *ce == CEffectModel::Forall(*inner),
                    forall|j: int| 0 <= j < inner@.len() ==> decreases_to!(*ce => #[trigger] inner@[j]),
                    strings_view(out@) == start + ces_preds(inner@, i as int),
            {
                ce_pred_names(&inner[i], out);
                proof {
                    assert(start + ces_preds(inner@, i as int) + ce_preds(inner@[i as int]) =~= start
                        + ces_preds(inner@, i + 1));
                }
            }
        },
        CEffectModel::When(_, ec) => match ec {
            crate::pddl_model::EffectConditionModel::Single(pe) => {
                let ghost start = strings_view(out@);
                prim_pred_name(pe, out);
                proof {
                    reveal_with_fuel(prims_preds, 2);
                    assert(seq![*pe].drop_last() =~= Seq::<PrimEffectModel>::empty());
                    assert(Seq::<Seq<char>>::empty() + prim_preds(*pe) =~= prim_preds(*pe));
                }
            },
            crate::pddl_model::EffectConditionModel::All(pes) => prims_pred_names(pes, out),
        },
    }
}

/// Appends the fluent predicates of a domain's structure.
fn fluent_pred_names(st: &Vec<StructureModel>) -> (r: Vec<String>)
    ensures
        strings_view(r@) == fluent_names(st@),
{
    let mut out: Vec<String> = Vec::new();
    let n = st.len();
    for i in 0..n
        invariant
            n == st@.len(),
            strings_view(out@) == fluent_names(st@.take(i as int)),
    {
        let ghost before = strings_view(out@);
        proof {
            assert(st@.take(i + 1).drop_last() =~= st@.take(i as int));
        }
        match &st[i] {
            StructureModel::Action(a) => match &a.effect {
                Some(ces) => {
                    let m = ces.len();
                    for j in 0..m
                        invariant
                            m == ces@.len(),
                            strings_view(out@) == before + ces_preds(ces@, j as int),
                    {
                        ce_pred_names(&ces[j], &mut out);
                        proof {
                            assert(before + ces_preds(ces@, j as int) + ce_preds(ces@[j as int])
                                =~= before + ces_preds(ces@, j + 1));
                        }
                    }
                },
                None => {
                    assert(before + Seq::<Seq<char>>::empty() =~= before);
                },
            },
            _ => {
                assert(before + Seq::<Seq<char>>::empty() =~= before);
            },
        }
    }
    assert(st@.take(n as int) =~= st@);
    out
}

/// The heads of the derived predicates of a domain's structure.
fn derived_head_names(st: &Vec<StructureModel>) -> (r: Vec<String>)
    ensures
        strings_view(r@) == derived_heads(st@),
{
    let mut out: Vec<String> = Vec::new();
    let n = st.len();
    for i in 0..n
        invariant
            n == st@.len(),
            strings_view(out@) == derived_heads(st@.take(i as int)),
    {
        let ghost before = strings_view(out@);
        proof {
            assert(st@.take(i + 1).drop_last() =~= st@.take(i as int));
        }
        match &st[i] {
            StructureModel::Derived(d) => {
                out.push(d.name.clone());
                assert(strings_view(out@) =~= before + seq![d.name@]);
            },
            _ => {
                assert(before + Seq::<Seq<char>>::empty() =~= before);
            },
        }
    }
    assert(st@.take(n as int) =~= st@);
    out
}

/// Whether a name is among some names.
fn has_name(names: &Vec<String>, s: &String) -> (r: bool)
    ensures
        r == strings_view(names@).contains(s@),
{
    let n = names.len();
    for i in 0..n
        invariant
            n == names@.len(),
            forall|j: int| 0 <= j < i ==> names@[j]@ != s@,
    {
        if names[i] == *s {
            assert(strings_view(names@)[i as int] == s@);
            return true;
        }
    }
    assert forall|j: int| 0 <= j < strings_view(names@).len() implies strings_view(names@)[j] != s@ by {
        assert(strings_view(names@)[j] == names@[j]@);
    }
    false
}

/// The first of `names` that is among `set`.
fn first_member_of(names: &Vec<String>, set: &Vec<String>) -> (r: Option<String>)
    ensures
        match first_member(strings_view(names@), strings_view(set@)) {
            Some(p) => r matches Some(x) && x@ == p,
            None => r is None,
        },
{
    let ghost nv = strings_view(names@);
    let n = names.len();
    for i in 0..n
        invariant
            n == names@.len(),
            nv == strings_view(names@),
            first_member(nv.take(i as int), strings_view(set@)) is None,
    {
        proof {
            assert(nv.take(i + 1).drop_last() =~= nv.take(i as int));
            assert(nv.take(i + 1).last() == names@[i as int]@);
        }
        if has_name(set, &names[i]) {
            proof {
                lemma_first_member_prefix(nv, strings_view(set@), i as int + 1);
            }
            return Some(names[i].clone());
        }
    }
    assert(nv.take(n as int) =~= nv);
    None
}

/// Once a prefix has a first member, every longer prefix has the same one.
proof fn lemma_first_member_prefix(names: Seq<Seq<char>>, set: Seq<Seq<char>>, k: int)
    requires
        0 <= k <= names.len(),
        first_member(names.take(k), set) is Some,
    ensures
        first_member(names, set) == first_member(names.take(k), set),
    decreases names.len() - k,
{
    if k < names.len() {
        assert(names.take(k + 1).drop_last() =~= names.take(k));
        lemma_first_member_prefix(names, set, k + 1);
    } else {
        assert(names.take(k) =~= names);
    }
}

/// Once the rules of a prefix fail, every longer prefix fails alike.
proof fn lemma_collect_err(
    st: Seq<StructureModel>,
    k: int,
    m: int,
    fluents: Seq<Seq<char>>,
    heads: Seq<Seq<char>>,
)
    requires
        0 < k <= m <= st.len(),
        collect_rules(st, k, fluents, heads) is Err,
    ensures
        collect_rules(st, m, fluents, heads) == collect_rules(st, k, fluents, heads),
    decreases m - k,
{
    if k < m {
        lemma_collect_err(st, k, m - 1, fluents, heads);
    }
}

/// Joins three texts.
pub(crate) fn join3(a: &str, b: &str, c: &str) -> (r: String)
    ensures
        r@ == a@ + b@ + c@,
{
    let ab = concat(a, b);
    concat(ab.as_str(), c)
}

/// Joins five texts.
fn join5(a: &str, b: &str, c: &str, d: &str, e: &str) -> (r: String)
    ensures
        r@ == a@ + b@ + c@ + d@ + e@,
{
    let abc = join3(a, b, c);
    join3(abc.as_str(), d, e)
}

/// Why a derived predicate cannot be expanded, as `rule_error` says.
fn check_rule(d: &DerivedModel, fluents: &Vec<String>, heads: &Vec<String>) -> (r: Option<String>)
    ensures
        match rule_error(*d, strings_view(fluents@), strings_view(heads@)) {
            Some(m) => r matches Some(x) && x@ == m,
            None => r is None,
        },
{
    let h = d.name.as_str();
    if has_name(fluents, &d.name) {
        return Some(join3(
            "derived predicate `",
            h,
            "` appears in action effects; derived predicates cannot be fluents",
        ));
    }
    let mut body: Vec<String> = Vec::new();
    gd_pred_names(&d.body, &mut body);
    assert(strings_view(body@) =~= gd_preds(d.body));
    if has_name(&body, &d.name) {
        return Some(join3(
            "derived predicate `",
            h,
            "` references itself; recursive derived predicates are not supported",
        ));
    }
    match first_member_of(&body, heads) {
        Some(p) => {
            return Some(join5(
                "derived predicate `",
                h,
                "` references another derived predicate `",
                p.as_str(),
                "`; multi-layer derived predicates are not yet supported",
            ));
        },
        None => {},
    }
    match first_member_of(&body, fluents) {
        Some(p) => Some(join5(
            "derived predicate `",
            h,
            "` references fluent predicate `",
            p.as_str(),
            "`; only static-body derived predicates are supported",
        )),
        None => None,
    }
}

/// A parameter list as variable and type texts.
pub(crate) fn rule_params(vars: &Vec<TypedName>) -> (r: Vec<(String, String)>)
    ensures
        crate::ground::bindings::params_view(r@) == typed_params(vars@),
{
    let mut r: Vec<(String, String)> = Vec::new();
    let n = vars.len();
    for i in 0..n
        invariant
            n == vars@.len(),
            crate::ground::bindings::params_view(r@) == typed_params(vars@.take(i as int)),
    {
        let ghost before = r@;
        r.push((vars[i].name.clone(), crate::ground::types::type_to_string(&vars[i].type_ref)));
        proof {
            assert(crate::ground::bindings::params_view(r@) =~= crate::ground::bindings::params_view(
                before,
            ).push((vars@[i as int].name@, type_text(vars@[i as int].type_ref))));
            assert(typed_params(vars@.take(i + 1)) =~= typed_params(vars@.take(i as int)).push(
                (vars@[i as int].name@, type_text(vars@[i as int].type_ref)),
            ));
        }
    }
    assert(vars@.take(n as int) =~= vars@);
    r
}

/// The derived predicates of a domain, each checked to have a static body:
/// as `domain_rules` says, the rules in order, or the first rule that
/// cannot be expanded as a grounding error.
pub fn collect<'a>(domain: &'a PddlDomain) -> (r: Result<DerivedRuleSet<'a>, MiniplanError>)
    ensures
        match domain_rules(*domain) {
            Ok(rs) => r matches Ok(set) && rules_view(set.rules@) == rs && set.all_static,
            Err(m) => r matches Err(MiniplanError::Ground(s)) && s@ == m,
        },
{
    let ghost st = domain.structure@;
    let fluents = fluent_pred_names(&domain.structure);
    let heads = derived_head_names(&domain.structure);
    let ghost fv = strings_view(fluents@);
    let ghost hv = strings_view(heads@);
    let mut rules: Vec<DerivedRule<'a>> = Vec::new();
    assert(rules_view(rules@) =~= Seq::<RuleView>::empty());
    let n = domain.structure.len();
    for i in 0..n
        invariant
            n == st.len(),
            st == domain.structure@,
            fv == fluent_names(st),
            hv == derived_heads(st),
            fv == strings_view(fluents@),
            hv == strings_view(heads@),
            collect_rules(st, i as int, fv, hv) == Ok::<Seq<RuleView>, Seq<char>>(rules_view(rules@)),
    {
        match &domain.structure[i] {
            StructureModel::Derived(d) => {
                match check_rule(d, &fluents, &heads) {
                    Some(msg) => {
                        proof {
                            lemma_collect_err(st, i as int + 1, n as int, fv, hv);
                        }
                        return Err(MiniplanError::Ground(msg));
                    },
                    None => {},
                }
                let params = rule_params(&d.parameters);
                let ghost before = rules@;
                rules.push(DerivedRule { head_name: d.name.clone(), params, body: &d.body });
                assert(rules_view(rules@) =~= rules_view(before).push(derived_view(*d)));
            },
            _ => {},
        }
    }
    Ok(DerivedRuleSet { rules, all_static: true })
}

/// The facts a table holds, as text.
pub open spec fn table_facts(t: &IndexTable<Fact>) -> Set<LitView> {
    Set::new(|l: LitView| exists|i: int| 0 <= i < t.entries().len() && #[trigger] t.entries()[i]@ == l)
}

/// Whether an atom holds under bindings: an equality when both sides have
/// the same text, a predicate when its fact is among `facts`.
pub open spec fn eval_atom(af: AtomModel, b: Seq<(Seq<char>, Seq<char>)>, facts: Set<LitView>) -> bool {
    match af {
        AtomModel::Equality(x, y) => term_text(x, b) == term_text(y, b),
        AtomModel::Predicate(n, ts) => facts.contains((n@, terms_text(ts@, ts@.len() as int, b))),
    }
}

/// The bindings a quantifier ranges over.
pub open spec fn quant_bindings(vars: Seq<TypedName>, objs: Seq<Object>, types: &TypeHierarchy) -> Seq<Seq<(Seq<char>, Seq<char>)>> {
    bindings_product(typed_params(vars), objs, types)
}

/// The truth of a goal under bindings over a set of facts, evaluated left
/// to right with short-circuiting; a quantifier ranges over the objects of
/// its variables' types, its bindings in front of the outer ones. Reaching
/// a numeric comparison is an error.
pub open spec fn eval(
    gd: GoalModel,
    b: Seq<(Seq<char>, Seq<char>)>,
    facts: Set<LitView>,
    objs: Seq<Object>,
    types: &TypeHierarchy,
) -> Result<bool, ()>
    decreases gd, 1nat,
{
    match gd {
        GoalModel::Atom(af) => Ok(eval_atom(af, b, facts)),
        GoalModel::Literal(LiteralModel::Positive(af)) => Ok(eval_atom(af, b, facts)),
        GoalModel::Literal(LiteralModel::Negative(af)) => Ok(!eval_atom(af, b, facts)),
        GoalModel::And(gs) => eval_and(gs@, gs@.len() as int, b, facts, objs, types),
        GoalModel::Or(gs) => eval_or(gs@, gs@.len() as int, b, facts, objs, types),
        GoalModel::Not(inner) => match eval(*inner, b, facts, objs, types) {
            Ok(v) => Ok(!v),
            Err(e) => Err(e),
        },
        GoalModel::Imply(x, y) => match eval(*x, b, facts, objs, types) {
            Err(e) => Err(e),
            Ok(false) => Ok(true),
            Ok(true) => eval(*y, b, facts, objs, types),
        },
        GoalModel::Exists(vars, body) => {
            let exts = quant_bindings(vars@, objs, types);
            eval_exists(*body, exts, exts.len() as int, b, facts, objs, types)
        },
        GoalModel::ForAll(vars, body) => {
            let exts = quant_bindings(vars@, objs, types);
            eval_forall(*body, exts, exts.len() as int, b, facts, objs, types)
        },
        GoalModel::FluentComparison => Err(()),
    }
}

/// The conjunction of the first `k` goals, stopping at the first false one.
pub open spec fn eval_and(
    gs: Seq<GoalModel>,
    k: int,
    b: Seq<(Seq<char>, Seq<char>)>,
    facts: Set<LitView>,
    objs: Seq<Object>,
    types: &TypeHierarchy,
) -> Result<bool, ()>
    decreases gs, 0nat, k,
{
    if k <= 0 || k > gs.len() {
        Ok(true)
    } else {
        match eval_and(gs, k - 1, b, facts, objs, types) {
            Ok(true) => eval(gs[k - 1], b, facts, objs, types),
            other => other,
        }
    }
}

/// The disjunction of the first `k` goals, stopping at the first true one.
pub open spec fn eval_or(
    gs: Seq<GoalModel>,
    k: int,
    b: Seq<(Seq<char>, Seq<char>)>,
    facts: Set<LitView>,
    objs: Seq<Object>,
    types: &TypeHierarchy,
) -> Result<bool, ()>
    decreases gs, 0nat, k,
{
    if k <= 0 || k > gs.len() {
        Ok(false)
    } else {
        match eval_or(gs, k - 1, b, facts, objs, types) {
            Ok(false) => eval(gs[k - 1], b, facts, objs, types),
            other => other,
        }
    }
}

/// Whether the body holds under one of the first `k` bindings (each in
/// front of the outer ones), stopping at the first that holds.
pub open spec fn eval_exists(
    body: GoalModel,
    exts: Seq<Seq<(Seq<char>, Seq<char>)>>,
    k: int,
    b: Seq<(Seq<char>, Seq<char>)>,
    facts: Set<LitView>,
    objs: Seq<Object>,
    types: &TypeHierarchy,
) -> Result<bool, ()>
    decreases body, 2nat, k,
{
    if k <= 0 || k > exts.len() {
        Ok(false)
    } else {
        match eval_exists(body, exts, k - 1, b, facts, objs, types) {
            Ok(false) => eval(body, exts[k - 1] + b, facts, objs, types),
            other => other,
        }
    }
}

/// Whether the body holds under each of the first `k` bindings (each in
/// front of the outer ones), stopping at the first that fails.
pub open spec fn eval_forall(
    body: GoalModel,
    exts: Seq<Seq<(Seq<char>, Seq<char>)>>,
    k: int,
    b: Seq<(Seq<char>, Seq<char>)>,
    facts: Set<LitView>,
    objs: Seq<Object>,
    types: &TypeHierarchy,
) -> Result<bool, ()>
    decreases body, 2nat, k,
{
    if k <= 0 || k > exts.len() {
        Ok(true)
    } else {
        match eval_forall(body, exts, k - 1, b, facts, objs, types) {
            Ok(true) => eval(body, exts[k - 1] + b, facts, objs, types),
            other => other,
        }
    }
}

/// The message for a numeric comparison in a derived predicate's body.
pub open spec fn numeric_body_text() -> Seq<char> {
    "numeric comparisons in derived predicate bodies are not supported"@
}

/// An evaluation's outcome as the library returns it.
pub open spec fn eval_outcome(r: Result<bool, MiniplanError>, e: Result<bool, ()>) -> bool {
    match e {
        Ok(v) => r matches Ok(x) && x == v,
        Err(_) => r matches Err(MiniplanError::Ground(s)) && s@ == numeric_body_text(),
    }
}

/// Once a conjunction's prefix is decided (false or failed), longer
/// prefixes are decided alike.
proof fn lemma_and_settled(gs: Seq<GoalModel>, k: int, m: int, b: Seq<(Seq<char>, Seq<char>)>, facts: Set<LitView>, objs: Seq<Object>, types: &TypeHierarchy)
    requires
        0 < k <= m <= gs.len(),
        eval_and(gs, k, b, facts, objs, types) != Ok::<bool, ()>(true),
    ensures
        eval_and(gs, m, b, facts, objs, types) == eval_and(gs, k, b, facts, objs, types),
    decreases m - k,
{
    if k < m {
        lemma_and_settled(gs, k, m - 1, b, facts, objs, types);
    }
}

/// Once a disjunction's prefix is decided (true or failed), longer
/// prefixes are decided alike.
proof fn lemma_or_settled(gs: Seq<GoalModel>, k: int, m: int, b: Seq<(Seq<char>, Seq<char>)>, facts: Set<LitView>, objs: Seq<Object>, types: &TypeHierarchy)
    requires
        0 < k <= m <= gs.len(),
        eval_or(gs, k, b, facts, objs, types) != Ok::<bool, ()>(false),
    ensures
        eval_or(gs, m, b, facts, objs, types) == eval_or(gs, k, b, facts, objs, types),
    decreases m - k,
{
    if k < m {
        lemma_or_settled(gs, k, m - 1, b, facts, objs, types);
    }
}

/// Once an existential's prefix is decided, longer prefixes are decided alike.
proof fn lemma_exists_settled(body: GoalModel, exts: Seq<Seq<(Seq<char>, Seq<char>)>>, k: int, m: int, b: Seq<(Seq<char>, Seq<char>)>, facts: Set<LitView>, objs: Seq<Object>, types: &TypeHierarchy)
    requires
        0 < k <= m <= exts.len(),
        eval_exists(body, exts, k, b, facts, objs, types) != Ok::<bool, ()>(false),
    ensures
        eval_exists(body, exts, m, b, facts, objs, types) == eval_exists(body, exts, k, b, facts, objs, types),
    decreases m - k,
{
    if k < m {
        lemma_exists_settled(body, exts, k, m - 1, b, facts, objs, types);
    }
}

/// Once a universal's prefix is decided, longer prefixes are decided alike.
proof fn lemma_forall_settled(body: GoalModel, exts: Seq<Seq<(Seq<char>, Seq<char>)>>, k: int, m: int, b: Seq<(Seq<char>, Seq<char>)>, facts: Set<LitView>, objs: Seq<Object>, types: &TypeHierarchy)
    requires
        0 < k <= m <= exts.len(),
        eval_forall(body, exts, k, b, facts, objs, types) != Ok::<bool, ()>(true),
    ensures
        eval_forall(body, exts, m, b, facts, objs, types) == eval_forall(body, exts, k, b, facts, objs, types),
    decreases m - k,
{
    if k < m {
        lemma_forall_settled(body, exts, k, m - 1, b, facts, objs, types);
    }
}

/// Whether an atom holds, as `eval_atom` says.
fn eval_atomic_formula(af: &AtomModel, bindings: &[(String, String)], facts: &IndexTable<Fact>) -> (r: bool)
    requires
        facts.wf(),
    ensures
        r == eval_atom(*af, bindings_view(bindings@), table_facts(facts)),
{
    match af {
        AtomModel::Equality(x, y) => {
            let first = term_to_string(x, bindings);
            let second = term_to_string(y, bindings);
            first == second
        },
        AtomModel::Predicate(n, ts) => {
            let fact = Fact { predicate: n.clone(), args: terms_to_strings(ts, bindings) };
            let found = facts.find(&fact);
            proof {
                let l = (n@, terms_text(ts@, ts@.len() as int, bindings_view(bindings@)));
                assert(fact@ == l);
                if table_facts(facts).contains(l) {
                    let i = choose|i: int| 0 <= i < facts.entries().len() && #[trigger] facts.entries()[i]@ == l;
                    assert(facts.entries()[i].key_view() == fact.key_view());
                }
                match found {
                    Some(i) => {
                        assert(facts.entries()[i as int]@ == l);
                    },
                    None => {},
                }
            }
            found.is_some()
        },
    }
}

/// Appends copies of bindings.
fn append_bindings(dst: &mut Vec<(String, String)>, src: &[(String, String)])
    ensures
        bindings_view(final(dst)@) == bindings_view(old(dst)@) + bindings_view(src@),
{
    let ghost start = bindings_view(dst@);
    let n = src.len();
    for i in 0..n
        invariant
            n == src@.len(),
            bindings_view(dst@) == start + bindings_view(src@).take(i as int),
    {
        let ghost before = dst@;
        dst.push((src[i].0.clone(), src[i].1.clone()));
        proof {
            assert(bindings_view(dst@) =~= bindings_view(before).push((src@[i as int].0@, src@[i as int].1@)));
            assert(bindings_view(src@).take(i + 1) =~= bindings_view(src@).take(i as int).push(
                (src@[i as int].0@, src@[i as int].1@),
            ));
        }
    }
    assert(bindings_view(src@).take(n as int) =~= bindings_view(src@));
}

/// The bindings of a quantifier, as `quant_bindings` says.
fn quantifier_bindings(vars: &Vec<TypedName>, objects: &[Object], types: &TypeHierarchy) -> (r: Vec<Vec<(String, String)>>)
    requires
        types.supertypes.wf(),
    ensures
        all_bindings_view(r@) == quant_bindings(vars@, objects@, types),
{
    let params = rule_params(vars);
    match generate_bindings(params.as_slice(), objects, types) {
        Ok(v) => v,
        Err(_) => Vec::new(),
    }
}

/// One quantifier binding in front of the outer ones.
fn extended_binding(ext: &Vec<(String, String)>, bindings: &[(String, String)]) -> (r: Vec<(String, String)>)
    ensures
        bindings_view(r@) == bindings_view(ext@) + bindings_view(bindings@),
{
    let mut combined = clone_binding(ext);
    append_bindings(&mut combined, bindings);
    combined
}

/// The truth of a goal under bindings over the facts of a table, as `eval`
/// says.
pub fn eval_gd(
    gd: &GoalModel,
    bindings: &[(String, String)],
    facts: &IndexTable<Fact>,
    objects: &[Object],
    types: &TypeHierarchy,
) -> (r: Result<bool, MiniplanError>)
    requires
        facts.wf(),
        types.supertypes.wf(),
    ensures
        eval_outcome(r, eval(*gd, bindings_view(bindings@), table_facts(facts), objects@, types)),
    decreases gd,
{
    let ghost bv = bindings_view(bindings@);
    let ghost fs = table_facts(facts);
    match gd {
        GoalModel::Atom(af) => Ok(eval_atomic_formula(af, bindings, facts)),
        GoalModel::Literal(LiteralModel::Positive(af)) => Ok(eval_atomic_formula(af, bindings, facts)),
        GoalModel::Literal(LiteralModel::Negative(af)) => Ok(!eval_atomic_formula(af, bindings, facts)),
        GoalModel::And(gs) => {
            let n = gs.len();
            assert(forall|j: int| 0 <= j < gs@.len() ==> decreases_to!(*gd => #[trigger] gs@[j]));
            for i in 0..n
                invariant
                    n == gs@.len(),
                    facts.wf(),
                    types.supertypes.wf(),
                    bv == bindings_view(bindings@),
                    fs == table_facts(facts),
                    forall|j: int| 0 <= j < gs@.len() ==> decreases_to!(*gd => #[trigger] gs@[j]),
                    *gd == GoalModel::And(*gs),
                    eval_and(gs@, i as int, bv, fs, objects@, types) == Ok::<bool, ()>(true),
            {
                let v = eval_gd(&gs[i], bindings, facts, objects, types);
                match v {
                    Ok(true) => {},
                    Ok(false) => {
                        proof {
                            lemma_and_settled(gs@, i + 1, n as int, bv, fs, objects@, types);
                        }
                        return Ok(false);
                    },
                    Err(e) => {
                        proof {
                            lemma_and_settled(gs@, i + 1, n as int, bv, fs, objects@, types);
                        }
                        return Err(e);
                    },
                }
            }
            Ok(true)
        },
        GoalModel::Or(gs) => {
            let n = gs.len();
            assert(forall|j: int| 0 <= j < gs@.len() ==> decreases_to!(*gd => #[trigger] gs@[j]));
            for i in 0..n
                invariant
                    n == gs@.len(),
                    facts.wf(),
                    types.supertypes.wf(),
                    bv == bindings_view(bindings@),
                    fs == table_facts(facts),
                    forall|j: int| 0 <= j < gs@.len() ==> decreases_to!(*gd => #[trigger] gs@[j]),
                    *gd == GoalModel::Or(*gs),
                    eval_or(gs@, i as int, bv, fs, objects@, types) == Ok::<bool, ()>(false),
            {
                let v = eval_gd(&gs[i], bindings, facts, objects, types);
                match v {
                    Ok(false) => {},
                    Ok(true) => {
                        proof {
                            lemma_or_settled(gs@, i + 1, n as int, bv, fs, objects@, types);
                        }
                        return Ok(true);
                    },
                    Err(e) => {
                        proof {
                            lemma_or_settled(gs@, i + 1, n as int, bv, fs, objects@, types);
                        }
                        return Err(e);
                    },
                }
            }
            Ok(false)
        },
        GoalModel::Not(inner) => {
            let v = eval_gd(inner, bindings, facts, objects, types);
            match v {
                Ok(x) => Ok(!x),
                Err(e) => Err(e),
            }
        },
        GoalModel::Imply(a, b) => {
            let v = eval_gd(a, bindings, facts, objects, types);
            match v {
                Ok(false) => Ok(true),
                Ok(true) => eval_gd(b, bindings, facts, objects, types),
                Err(e) => Err(e),
            }
        },
        GoalModel::Exists(vars, body) => {
            let list = quantifier_bindings(vars, objects, types);
            let ghost exts = all_bindings_view(list@);
            let n = list.len();
            assert(decreases_to!(*gd => **body));
            for k in 0..n
                invariant
                    n == list@.len(),
                    facts.wf(),
                    types.supertypes.wf(),
                    bv == bindings_view(bindings@),
                    fs == table_facts(facts),
                    exts == all_bindings_view(list@),
                    exts == quant_bindings(vars@, objects@, types),
                    *gd == GoalModel::Exists(*vars, *body),
                    decreases_to!(*gd => **body),
                    eval_exists(**body, exts, k as int, bv, fs, objects@, types) == Ok::<bool, ()>(false),
            {
                let combined = extended_binding(&list[k], bindings);
                assert(exts[k as int] == bindings_view(list@[k as int]@));
                let v = eval_gd(body, combined.as_slice(), facts, objects, types);
                match v {
                    Ok(false) => {},
                    Ok(true) => {
                        proof {
                            lemma_exists_settled(**body, exts, k + 1, n as int, bv, fs, objects@, types);
                        }
                        return Ok(true);
                    },
                    Err(e) => {
                        proof {
                            lemma_exists_settled(**body, exts, k + 1, n as int, bv, fs, objects@, types);
                        }
                        return Err(e);
                    },
                }
            }
            Ok(false)
        },
        GoalModel::ForAll(vars, body) => {
            let list = quantifier_bindings(vars, objects, types);
            let ghost exts = all_bindings_view(list@);
            let n = list.len();
            assert(decreases_to!(*gd => **body));
            for k in 0..n
                invariant
                    n == list@.len(),
                    facts.wf(),
                    types.supertypes.wf(),
                    bv == bindings_view(bindings@),
                    fs == table_facts(facts),
                    exts == all_bindings_view(list@),
                    exts == quant_bindings(vars@, objects@, types),
                    *gd == GoalModel::ForAll(*vars, *body),
                    decreases_to!(*gd => **body),
                    eval_forall(**body, exts, k as int, bv, fs, objects@, types) == Ok::<bool, ()>(true),
            {
                let combined = extended_binding(&list[k], bindings);
                assert(exts[k as int] == bindings_view(list@[k as int]@));
                let v = eval_gd(body, combined.as_slice(), facts, objects, types);
                match v {
                    Ok(true) => {},
                    Ok(false) => {
                        proof {
                            lemma_forall_settled(**body, exts, k + 1, n as int, bv, fs, objects@, types);
                        }
                        return Ok(false);
                    },
                    Err(e) => {
                        proof {
                            lemma_forall_settled(**body, exts, k + 1, n as int, bv, fs, objects@, types);
                        }
                        return Err(e);
                    },
                }
            }
            Ok(true)
        },
        GoalModel::FluentComparison => Err(MiniplanError::Ground(String::from_str(
            "numeric comparisons in derived predicate bodies are not supported",
        ))),
    }
}

/// Facts' texts, in order.
pub open spec fn facts_view(fs: Seq<Fact>) -> Seq<LitView> {
    fs.map_values(|f: Fact| f@)
}

/// The facts that hold in a task's initial state, as text.
pub open spec fn init_facts(task: &Task) -> Set<LitView> {
    Set::new(|l: LitView| exists|i: int| 0 <= i < task.facts@.len() && is_set(task.init@, i) && #[trigger] task.facts@[i]@ == l)
}

/// The objects a binding gives, in order.
pub open spec fn binding_values(b: Seq<(Seq<char>, Seq<char>)>) -> Seq<Seq<char>> {
    b.map_values(|p: (Seq<char>, Seq<char>)| p.1)
}

/// The facts one rule derives under the first `k` bindings: the head over
/// each binding's objects where the body holds, in order; a failed
/// evaluation fails the whole.
pub open spec fn rule_facts(
    rule: RuleView,
    exts: Seq<Seq<(Seq<char>, Seq<char>)>>,
    k: int,
    facts: Set<LitView>,
    objs: Seq<Object>,
    types: &TypeHierarchy,
) -> Result<Seq<LitView>, ()>
    decreases k,
{
    if k <= 0 || k > exts.len() {
        Ok(Seq::empty())
    } else {
        match rule_facts(rule, exts, k - 1, facts, objs, types) {
            Err(e) => Err(e),
            Ok(acc) => match eval(rule.2, exts[k - 1], facts, objs, types) {
                Err(e) => Err(e),
                Ok(true) => Ok(acc.push((rule.0, binding_values(exts[k - 1])))),
                Ok(false) => Ok(acc),
            },
        }
    }
}

/// The facts one rule derives over all bindings of its parameters.
pub open spec fn one_rule_facts(rule: RuleView, facts: Set<LitView>, objs: Seq<Object>, types: &TypeHierarchy) -> Result<Seq<LitView>, ()> {
    let exts = bindings_product(rule.1, objs, types);
    rule_facts(rule, exts, exts.len() as int, facts, objs, types)
}

/// The facts the first `k` rules derive, rule by rule.
pub open spec fn all_rule_facts(
    rules: Seq<RuleView>,
    k: int,
    facts: Set<LitView>,
    objs: Seq<Object>,
    types: &TypeHierarchy,
) -> Result<Seq<LitView>, ()>
    decreases k,
{
    if k <= 0 || k > rules.len() {
        Ok(Seq::empty())
    } else {
        match all_rule_facts(rules, k - 1, facts, objs, types) {
            Err(e) => Err(e),
            Ok(acc) => match one_rule_facts(rules[k - 1], facts, objs, types) {
                Err(e) => Err(e),
                Ok(fs) => Ok(acc + fs),
            },
        }
    }
}

/// `base` with each of `lits` that it lacks appended, in order, once.
pub open spec fn appended(base: Seq<LitView>, lits: Seq<LitView>) -> Seq<LitView>
    decreases lits.len(),
{
    if lits.len() == 0 {
        base
    } else {
        let prev = appended(base, lits.drop_last());
        if prev.contains(lits.last()) { prev } else { prev.push(lits.last()) }
    }
}

/// `after` is `before` with the facts `lits` made true: facts it lacked are
/// appended in order, and a fact holds initially when it held before or is
/// one of `lits`; nothing else changes.
pub open spec fn expanded(before: &Task, after: &Task, lits: Seq<LitView>) -> bool {
    &&& facts_view(after.facts@) == appended(facts_view(before.facts@), lits)
    &&& after.init@.len() == after.facts@.len()
    &&& forall|i: int|
        0 <= i < after.facts@.len() ==> #[trigger] after.init@[i] == ((i < before.facts@.len() && before.init@[i])
            || lits.contains(after.facts@[i]@))
    &&& after.index_ok()
    &&& after.operators == before.operators
    &&& after.goal_pos == before.goal_pos
    &&& after.goal_neg == before.goal_neg
    &&& after.objects == before.objects
    &&& after.types == before.types
    &&& after.metadata == before.metadata
}

/// The facts that hold initially, in a table.
fn init_fact_table(task: &Task) -> (t: IndexTable<Fact>)
    requires
        task.index_ok(),
    ensures
        t.wf(),
        table_facts(&t) == init_facts(task),
{
    let ones = bitset_ones(&task.init.0);
    let mut t: IndexTable<Fact> = IndexTable::new();
    let n = ones.len();
    let m = task.facts.len();
    for k in 0..n
        invariant
            n == ones@.len(),
            m == task.facts@.len(),
            t.wf(),
            forall|l: LitView| table_facts(&t).contains(l) <==> exists|j: int|
                0 <= j < k && ones@[j] < m && #[trigger] task.facts@[ones@[j] as int]@ == l,
    {
        let id = ones[k];
        if id < m {
            let f = task.facts[id].clone();
            match t.find(&f) {
                Some(_) => {
                    assert forall|l: LitView| table_facts(&t).contains(l) <==> exists|j: int|
                        0 <= j < k + 1 && ones@[j] < m && #[trigger] task.facts@[ones@[j] as int]@ == l by {
                        if l == f@ {
                            assert(task.facts@[ones@[k as int] as int]@ == l);
                        }
                        if exists|j: int| 0 <= j < k + 1 && ones@[j] < m && #[trigger] task.facts@[ones@[j] as int]@ == l {
                            let j = choose|j: int| 0 <= j < k + 1 && ones@[j] < m && #[trigger] task.facts@[ones@[j] as int]@ == l;
                            if j == k {
                                let i = choose|i: int| 0 <= i < t.entries().len() && t.entries()[i]@ == f@;
                                assert(t.entries()[i]@ == l);
                            }
                        }
                    }
                },
                None => {
                    let ghost before = t.entries();
                    let ghost old_set = table_facts(&t);
                    let ghost fv = f@;
                    t.insert(f);
                    assert forall|l: LitView| table_facts(&t).contains(l) <==> exists|j: int|
                        0 <= j < k + 1 && ones@[j] < m && #[trigger] task.facts@[ones@[j] as int]@ == l by {
                        if table_facts(&t).contains(l) {
                            let i = choose|i: int| 0 <= i < t.entries().len() && #[trigger] t.entries()[i]@ == l;
                            if i < before.len() {
                                assert(before[i]@ == l);
                                assert(old_set.contains(l));
                            } else {
                                assert(task.facts@[ones@[k as int] as int]@ == l);
                            }
                        }
                        if exists|j: int| 0 <= j < k + 1 && ones@[j] < m && #[trigger] task.facts@[ones@[j] as int]@ == l {
                            let j = choose|j: int| 0 <= j < k + 1 && ones@[j] < m && #[trigger] task.facts@[ones@[j] as int]@ == l;
                            if j == k {
                                assert(t.entries()[before.len() as int]@ == l);
                            } else {
                                assert(old_set.contains(l));
                                let i = choose|i: int| 0 <= i < before.len() && #[trigger] before[i]@ == l;
                                assert(t.entries()[i]@ == l);
                            }
                        }
                    }
                },
            }
        }
    }
    assert(table_facts(&t) =~= init_facts(task)) by {
        assert forall|l: LitView| table_facts(&t).contains(l) <==> init_facts(task).contains(l) by {
            if table_facts(&t).contains(l) {
                let j = choose|j: int| 0 <= j < n && ones@[j] < m && #[trigger] task.facts@[ones@[j] as int]@ == l;
                assert(is_set(task.init@, ones@[j] as int));
            }
            if init_facts(task).contains(l) {
                let i = choose|i: int| 0 <= i < task.facts@.len() && is_set(task.init@, i) && #[trigger] task.facts@[i]@ == l;
                let j = choose|j: int| 0 <= j < ones@.len() && ones@[j] as int == i;
                assert(task.facts@[ones@[j] as int]@ == l);
            }
        }
    }
    t
}

/// Once a rule's derivation fails on a prefix of bindings, it fails alike
/// on longer ones.
proof fn lemma_rule_facts_err(rule: RuleView, exts: Seq<Seq<(Seq<char>, Seq<char>)>>, k: int, m: int, facts: Set<LitView>, objs: Seq<Object>, types: &TypeHierarchy)
    requires
        0 < k <= m <= exts.len(),
        rule_facts(rule, exts, k, facts, objs, types) is Err,
    ensures
        rule_facts(rule, exts, m, facts, objs, types) == rule_facts(rule, exts, k, facts, objs, types),
    decreases m - k,
{
    if k < m {
        lemma_rule_facts_err(rule, exts, k, m - 1, facts, objs, types);
    }
}

/// Once the derivation fails on a prefix of rules, it fails alike on
/// longer ones.
proof fn lemma_all_rule_facts_err(rules: Seq<RuleView>, k: int, m: int, facts: Set<LitView>, objs: Seq<Object>, types: &TypeHierarchy)
    requires
        0 < k <= m <= rules.len(),
        all_rule_facts(rules, k, facts, objs, types) is Err,
    ensures
        all_rule_facts(rules, m, facts, objs, types) == all_rule_facts(rules, k, facts, objs, types),
    decreases m - k,
{
    if k < m {
        lemma_all_rule_facts_err(rules, k, m - 1, facts, objs, types);
    }
}

/// The objects of a binding, in order.
pub(crate) fn binding_objects(b: &Vec<(String, String)>) -> (r: Vec<String>)
    ensures
        strings_view(r@) == binding_values(bindings_view(b@)),
{
    let mut r: Vec<String> = Vec::new();
    let n = b.len();
    for i in 0..n
        invariant
            n == b@.len(),
            strings_view(r@) == binding_values(bindings_view(b@)).take(i as int),
    {
        let ghost before = r@;
        r.push(b[i].1.clone());
        proof {
            assert(strings_view(r@) =~= strings_view(before).push(b@[i as int].1@));
            assert(binding_values(bindings_view(b@)).take(i + 1) =~= binding_values(bindings_view(b@)).take(
                i as int,
            ).push(b@[i as int].1@));
        }
    }
    assert(binding_values(bindings_view(b@)).take(n as int) =~= binding_values(bindings_view(b@)));
    r
}

/// The facts one rule derives, as `one_rule_facts` says.
fn rule_derived_facts(rule: &DerivedRule, table: &IndexTable<Fact>, objects: &[Object], types: &TypeHierarchy) -> (r: Result<Vec<Fact>, MiniplanError>)
    requires
        table.wf(),
        types.supertypes.wf(),
    ensures
        match one_rule_facts(rule_view(*rule), table_facts(table), objects@, types) {
            Ok(fs) => r matches Ok(v) && facts_view(v@) == fs,
            Err(_) => r matches Err(MiniplanError::Ground(s)) && s@ == numeric_body_text(),
        },
{
    let ghost rv = rule_view(*rule);
    let ghost fs = table_facts(table);
    let list = match generate_bindings(rule.params.as_slice(), objects, types) {
        Ok(v) => v,
        Err(_) => Vec::new(),
    };
    let ghost exts = all_bindings_view(list@);
    let mut out: Vec<Fact> = Vec::new();
    assert(facts_view(out@) =~= Seq::<LitView>::empty());
    let n = list.len();
    for k in 0..n
        invariant
            n == list@.len(),
            table.wf(),
            types.supertypes.wf(),
            rv == rule_view(*rule),
            fs == table_facts(table),
            exts == all_bindings_view(list@),
            exts == bindings_product(rv.1, objects@, types),
            rule_facts(rv, exts, k as int, fs, objects@, types) == Ok::<Seq<LitView>, ()>(facts_view(out@)),
    {
        assert(exts[k as int] == bindings_view(list@[k as int]@));
        let v = eval_gd(rule.body, list[k].as_slice(), table, objects, types);
        match v {
            Err(e) => {
                proof {
                    lemma_rule_facts_err(rv, exts, k + 1, n as int, fs, objects@, types);
                }
                return Err(e);
            },
            Ok(true) => {
                let ghost before = out@;
                out.push(Fact { predicate: rule.head_name.clone(), args: binding_objects(&list[k]) });
                assert(facts_view(out@) =~= facts_view(before).push((rv.0, binding_values(exts[k as int]))));
            },
            Ok(false) => {},
        }
    }
    Ok(out)
}

/// The facts all rules derive, as `all_rule_facts` says.
fn derived_facts(rules: &Vec<DerivedRule>, table: &IndexTable<Fact>, objects: &[Object], types: &TypeHierarchy) -> (r: Result<Vec<Fact>, MiniplanError>)
    requires
        table.wf(),
        types.supertypes.wf(),
    ensures
        match all_rule_facts(rules_view(rules@), rules@.len() as int, table_facts(table), objects@, types) {
            Ok(fs) => r matches Ok(v) && facts_view(v@) == fs,
            Err(_) => r matches Err(MiniplanError::Ground(s)) && s@ == numeric_body_text(),
        },
{
    let ghost rvs = rules_view(rules@);
    let ghost fs = table_facts(table);
    let mut out: Vec<Fact> = Vec::new();
    assert(facts_view(out@) =~= Seq::<LitView>::empty());
    let n = rules.len();
    for k in 0..n
        invariant
            n == rules@.len(),
            table.wf(),
            types.supertypes.wf(),
            rvs == rules_view(rules@),
            fs == table_facts(table),
            all_rule_facts(rvs, k as int, fs, objects@, types) == Ok::<Seq<LitView>, ()>(facts_view(out@)),
    {
        assert(rvs[k as int] == rule_view(rules@[k as int]));
        match rule_derived_facts(&rules[k], table, objects, types) {
            Err(e) => {
                proof {
                    lemma_all_rule_facts_err(rvs, k + 1, n as int, fs, objects@, types);
                }
                return Err(e);
            },
            Ok(more) => {
                let ghost before = out@;
                let ghost added = more@;
                let mut more = more;
                out.append(&mut more);
                assert(facts_view(out@) =~= facts_view(before) + facts_view(added));
            },
        }
    }
    Ok(out)
}

/// Makes a fact true initially, appending it to the task's facts when it
/// is not one of them yet.
fn add_derived_fact(task: &mut Task, fact: Fact)
    requires
        old(task).index_ok(),
        old(task).init@.len() == old(task).facts@.len(),
    ensures
        expanded(old(task), final(task), seq![fact@]),
{
    let ghost fv = fact@;
    let ghost t0 = *task;
    proof {
        assert(seq![fv].drop_last() =~= Seq::<LitView>::empty());
        assert(seq![fv].last() == fv);
        assert forall|x: LitView| #[trigger] seq![fv].contains(x) <==> x == fv by {
            if x == fv {
                assert(seq![fv][0] == x);
            }
        }
        assert(appended(facts_view(t0.facts@), seq![fv].drop_last()) == facts_view(t0.facts@));
    }
    match task.fact_id(&fact) {
        Some(id) => {
            task.init.set(id, true);
            proof {
                assert(facts_view(task.facts@).contains(fv)) by {
                    assert(facts_view(task.facts@)[id.0 as int] == fv);
                }
                assert forall|i: int| 0 <= i < task.facts@.len() implies #[trigger] task.init@[i] == ((i < t0.facts@.len()
                    && t0.init@[i]) || seq![fv].contains(task.facts@[i]@)) by {
                    if i != id.0 {
                        assert(task.facts@ == t0.facts@);
                        assert(task.fact_index == t0.fact_index);
                        assert(t0.index_ok());
                        if task.facts@[i]@ == fv {
                            assert(t0.fact_index.lookup(t0.facts@[i]@) == Some(FactId(i as usize)));
                            assert(t0.fact_index.lookup(fv) == Some(id));
                            assert(task.facts@.len() == task.facts.len());
                            assert(FactId(i as usize).0 == i);
                        }
                        assert(!seq![fv].contains(task.facts@[i]@));
                        assert(task.init@[i] == t0.init@[i]);
                    } else {
                        assert(task.fact_index.lookup(fv) == Some(id));
                        assert(task.facts@[i]@ == fv);
                        assert(seq![fv].contains(task.facts@[i]@));
                    }
                }
            }
        },
        None => {
            proof {
                assert(!facts_view(task.facts@).contains(fv)) by {
                    if facts_view(task.facts@).contains(fv) {
                        let i = choose|i: int| 0 <= i < facts_view(task.facts@).len() && facts_view(task.facts@)[i] == fv;
                        assert(task.fact_index.lookup(task.facts@[i]@) == Some(FactId(i as usize)));
                    }
                }
            }
            let n = task.facts.len();
            let copy = fact.clone();
            task.facts.push(fact);
            let ghost before_index = task.fact_index;
            task.fact_index.insert(copy, FactId(n));
            proof {
                crate::task::lemma_lookup_after_insert(&before_index, &task.fact_index, fv, FactId(n));
            }
            bitset_grow(&mut task.init.0, task.facts.len());
            task.init.set(FactId(n), true);
            proof {
                assert(facts_view(task.facts@) =~= facts_view(t0.facts@).push(fv));
                assert forall|kv: LitView| #[trigger] task.fact_index.lookup(kv) is Some implies task.fact_index.lookup(kv).unwrap().0
                    < task.facts@.len() && task.facts@[task.fact_index.lookup(kv).unwrap().0 as int]@ == kv by {
                    if kv != fv {
                        assert(t0.fact_index.lookup(kv) == task.fact_index.lookup(kv));
                    }
                }
                assert forall|i: int| 0 <= i < task.facts@.len() implies task.fact_index.lookup(#[trigger] task.facts@[i]@)
                    == Some(FactId(i as usize)) by {
                    if i < n {
                        assert(task.facts@[i] == t0.facts@[i]);
                        if task.facts@[i]@ == fv {
                            assert(facts_view(t0.facts@)[i] == fv);
                        }
                    }
                }
                assert forall|i: int| 0 <= i < task.facts@.len() implies #[trigger] task.init@[i] == ((i < t0.facts@.len()
                    && t0.init@[i]) || seq![fv].contains(task.facts@[i]@)) by {
                    if i < n {
                        assert(task.facts@[i] == t0.facts@[i]);
                        if task.facts@[i]@ == fv {
                            assert(facts_view(t0.facts@)[i] == fv);
                        }
                        assert(seq![fv].contains(task.facts@[i]@) ==> seq![fv][0] == task.facts@[i]@);
                    } else {
                        assert(seq![fv][0] == fv);
                    }
                }
            }
        },
    }
}

/// Appending keeps the base as a prefix.
pub proof fn lemma_appended_prefix(base: Seq<LitView>, lits: Seq<LitView>)
    ensures
        appended(base, lits).len() >= base.len(),
        forall|i: int| 0 <= i < base.len() ==> #[trigger] appended(base, lits)[i] == base[i],
    decreases lits.len(),
{
    if lits.len() > 0 {
        lemma_appended_prefix(base, lits.drop_last());
    }
}

/// Making facts true in two steps is making them true at once.
proof fn lemma_expanded_step(a: &Task, b: &Task, c: &Task, lits: Seq<LitView>, l: LitView)
    requires
        expanded(a, b, lits),
        expanded(b, c, seq![l]),
        a.init@.len() == a.facts@.len(),
    ensures
        expanded(a, c, lits.push(l)),
{
    let fa = facts_view(a.facts@);
    assert(seq![l].drop_last() =~= Seq::<LitView>::empty());
    assert(lits.push(l).drop_last() =~= lits);
    assert(seq![l].last() == l);
    assert(lits.push(l).last() == l);
    lemma_appended_prefix(fa, lits);
    lemma_appended_prefix(facts_view(b.facts@), seq![l]);
    let fb = facts_view(b.facts@);
    assert(appended(fb, Seq::<LitView>::empty()) == fb);
    assert(appended(fb, seq![l]) == if fb.contains(l) { fb } else { fb.push(l) });
    assert(appended(fa, lits.push(l)) == if fb.contains(l) { fb } else { fb.push(l) });
    assert forall|x: LitView| #[trigger] seq![l].contains(x) <==> x == l by {
        if x == l {
            assert(seq![l][0] == x);
        }
    }
    assert forall|x: LitView| #[trigger] lits.push(l).contains(x) <==> (lits.contains(x) || x == l) by {
        if x == l {
            assert(lits.push(l)[lits.len() as int] == x);
        }
        if lits.contains(x) {
            let j = choose|j: int| 0 <= j < lits.len() && lits[j] == x;
            assert(lits.push(l)[j] == x);
        }
        if lits.push(l).contains(x) {
            let j = choose|j: int| 0 <= j < lits.push(l).len() && lits.push(l)[j] == x;
            if j < lits.len() {
                assert(lits[j] == x);
            }
        }
    }
    assert forall|i: int| 0 <= i < c.facts@.len() implies #[trigger] c.init@[i] == ((i < a.facts@.len() && a.init@[i])
        || lits.push(l).contains(c.facts@[i]@)) by {
        if i < b.facts@.len() {
            assert(facts_view(c.facts@)[i] == facts_view(b.facts@)[i]);
            assert(c.facts@[i]@ == b.facts@[i]@);
            assert(b.init@[i] == ((i < a.facts@.len() && a.init@[i]) || lits.contains(b.facts@[i]@)));
        } else {
            assert(facts_view(c.facts@).len() == c.facts@.len());
            assert(facts_view(b.facts@).len() == b.facts@.len());
            assert(facts_view(c.facts@) == facts_view(b.facts@).push(l));
            assert(c.facts@[i]@ == facts_view(c.facts@)[i]);
        }
    }
}

/// Makes true, in the initial state, every fact the rules derive from it:
/// as `all_rule_facts` says over the facts that hold initially, the
/// derived facts are added as `expanded` says. When a rule's body cannot
/// be evaluated the error is returned and the task is left as it was.
pub fn expand_into_init_with_rules(task: &mut Task, rule_set: &DerivedRuleSet) -> (r: Result<(), MiniplanError>)
    requires
        old(task).index_ok(),
        old(task).init@.len() == old(task).facts@.len(),
        old(task).types.supertypes.wf(),
    ensures
        match all_rule_facts(
            rules_view(rule_set.rules@),
            rule_set.rules@.len() as int,
            init_facts(old(task)),
            old(task).objects@,
            &old(task).types,
        ) {
            Ok(lits) => r is Ok && expanded(old(task), final(task), lits),
            Err(_) => r matches Err(MiniplanError::Ground(s)) && s@ == numeric_body_text() && *final(task) == *old(task),
        },
{
    let ghost t0 = *task;
    proof {
        assert(appended(facts_view(t0.facts@), Seq::<LitView>::empty()) == facts_view(t0.facts@));
    }
    if rule_set.rules.len() == 0 {
        return Ok(());
    }
    let table = init_fact_table(task);
    let facts = match derived_facts(&rule_set.rules, &table, task.objects.as_slice(), &task.types) {
        Ok(v) => v,
        Err(e) => {
            return Err(e);
        },
    };
    let ghost lits = facts_view(facts@);
    let n = facts.len();
    for k in 0..n
        invariant
            n == facts@.len(),
            lits == facts_view(facts@),
            t0.init@.len() == t0.facts@.len(),
            expanded(&t0, task, lits.take(k as int)),
    {
        let ghost before = *task;
        add_derived_fact(task, facts[k].clone());
        proof {
            lemma_expanded_step(&t0, &before, task, lits.take(k as int), lits[k as int]);
            assert(lits.take(k as int).push(lits[k as int]) =~= lits.take(k + 1));
        }
    }
    assert(lits.take(n as int) =~= lits);
    Ok(())
}

/// Makes true, in the initial state, every fact the domain's derived
/// predicates derive from it; a rule that cannot be expanded, or a body
/// that cannot be evaluated, is the error, and the task is then left as it
/// was.
pub fn expand_into_init(task: &mut Task, domain: &PddlDomain) -> (r: Result<(), MiniplanError>)
    requires
        old(task).index_ok(),
        old(task).init@.len() == old(task).facts@.len(),
        old(task).types.supertypes.wf(),
    ensures
        match domain_rules(*domain) {
            Err(m) => r matches Err(MiniplanError::Ground(s)) && s@ == m && *final(task) == *old(task),
            Ok(rs) => match all_rule_facts(rs, rs.len() as int, init_facts(old(task)), old(task).objects@, &old(task).types) {
                Ok(lits) => r is Ok && expanded(old(task), final(task), lits),
                Err(_) => r matches Err(MiniplanError::Ground(s)) && s@ == numeric_body_text() && *final(task) == *old(task),
            },
        },
{
    let set = match collect(domain) {
        Ok(set) => set,
        Err(e) => {
            return Err(e);
        },
    };
    expand_into_init_with_rules(task, &set)
}

} // verus!
