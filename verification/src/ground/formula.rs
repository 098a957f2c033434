//! Goal descriptions as disjunctions of literal sets, terms as text, and
//! literal sets as bitsets over a task's facts.

use vstd::prelude::*;
use crate::error::MiniplanError;
use crate::pddl_model::{AtomModel, GoalModel, LiteralModel, TermModel};
use crate::task::{Fact, FactId, State, Task, clone_strings, strings_view, is_set};
use crate::text::concat;

verus! {

/// A literal as text: a predicate name and its arguments.
pub type LitView = (Seq<char>, Seq<Seq<char>>);

/// A literal set as text: its positive and its negative literals.
pub type SetView = (Seq<LitView>, Seq<LitView>);

/// A conjunction of positive and negative literals, each a predicate name
/// with its arguments.
pub struct LiteralSet {
    pub pos: Vec<(String, Vec<String>)>,
    pub neg: Vec<(String, Vec<String>)>,
}

/// A literal's text.
pub open spec fn lit_view(l: (String, Vec<String>)) -> LitView {
    (l.0@, strings_view(l.1@))
}

/// Literals' texts, in order.
pub open spec fn lits_view(v: Seq<(String, Vec<String>)>) -> Seq<LitView> {
    v.map_values(|l: (String, Vec<String>)| lit_view(l))
}

impl View for LiteralSet {
    type V = SetView;

    open spec fn view(&self) -> SetView {
        (lits_view(self.pos@), lits_view(self.neg@))
    }
}

/// Literal sets' texts, in order.
pub open spec fn sets_view(v: Seq<LiteralSet>) -> Seq<SetView> {
    v.map_values(|s: LiteralSet| s@)
}

/// Bindings of variables to objects, as text.
pub open spec fn bindings_view(b: Seq<(String, String)>) -> Seq<(Seq<char>, Seq<char>)> {
    b.map_values(|p: (String, String)| (p.0@, p.1@))
}

/// Copies a literal.
fn clone_lit(l: &(String, Vec<String>)) -> (r: (String, Vec<String>))
    ensures
        lit_view(r) == lit_view(*l),
{
    (l.0.clone(), clone_strings(&l.1))
}

/// Appends copies of literals.
fn append_lits(dst: &mut Vec<(String, Vec<String>)>, src: &Vec<(String, Vec<String>)>)
    ensures
        lits_view(final(dst)@) == lits_view(old(dst)@) + lits_view(src@),
{
    let n = src.len();
    let ghost start = lits_view(dst@);
    for i in 0..n
        invariant
            n == src@.len(),
            lits_view(dst@) == start + lits_view(src@).take(i as int),
    {
        let ghost before = dst@;
        dst.push(clone_lit(&src[i]));
        proof {
            assert(lits_view(dst@) =~= lits_view(before).push(lit_view(src@[i as int])));
            assert(lits_view(src@).take(i + 1) =~= lits_view(src@).take(i as int).push(lit_view(src@[i as int])));
        }
    }
    assert(lits_view(src@).take(n as int) =~= lits_view(src@));
}

/// Copies a literal set.
fn clone_set(s: &LiteralSet) -> (r: LiteralSet)
    ensures
        r@ == s@,
{
    let mut pos: Vec<(String, Vec<String>)> = Vec::new();
    append_lits(&mut pos, &s.pos);
    let mut neg: Vec<(String, Vec<String>)> = Vec::new();
    append_lits(&mut neg, &s.neg);
    assert(lits_view(pos@) =~= lits_view(s.pos@));
    assert(lits_view(neg@) =~= lits_view(s.neg@));
    LiteralSet { pos, neg }
}

/// The positive literals of all sets, in order.
pub open spec fn all_pos(sets: Seq<SetView>) -> Seq<LitView>
    decreases sets.len(),
{
    if sets.len() == 0 { Seq::empty() } else { all_pos(sets.drop_last()) + sets.last().0 }
}

/// The negative literals of all sets, in order.
pub open spec fn all_neg(sets: Seq<SetView>) -> Seq<LitView>
    decreases sets.len(),
{
    if sets.len() == 0 { Seq::empty() } else { all_neg(sets.drop_last()) + sets.last().1 }
}

/// The union of literal sets: all their positive literals and all their
/// negative literals, in order.
pub fn merge_literal_sets(sets: &[LiteralSet]) -> (r: LiteralSet)
    ensures
        r@.0 == all_pos(sets@.map_values(|s: LiteralSet| s@)),
        r@.1 == all_neg(sets@.map_values(|s: LiteralSet| s@)),
{
    let ghost all = sets@.map_values(|s: LiteralSet| s@);
    let mut pos: Vec<(String, Vec<String>)> = Vec::new();
    let mut neg: Vec<(String, Vec<String>)> = Vec::new();
    let n = sets.len();
    for i in 0..n
        invariant
            n == sets@.len(),
            all == sets@.map_values(|s: LiteralSet| s@),
            lits_view(pos@) == all_pos(all.take(i as int)),
            lits_view(neg@) == all_neg(all.take(i as int)),
    {
        proof {
            assert(all.take(i + 1).drop_last() =~= all.take(i as int));
            assert(all.take(i + 1).last() == sets@[i as int]@);
        }
        append_lits(&mut pos, &sets[i].pos);
        append_lits(&mut neg, &sets[i].neg);
    }
    proof {
        assert(all.take(n as int) =~= all);
    }
    LiteralSet { pos, neg }
}

/// Two literal sets joined: the literals of the first, then of the second.
pub open spec fn combine(l: SetView, r: SetView) -> SetView {
    (l.0 + r.0, l.1 + r.1)
}

/// Every set of `left` joined with every set of `right`, left-major.
pub open spec fn product(left: Seq<SetView>, right: Seq<SetView>) -> Seq<SetView>
    decreases left.len(),
{
    if left.len() == 0 {
        Seq::empty()
    } else {
        product(left.drop_last(), right) + right.map_values(|r: SetView| combine(left.last(), r))
    }
}

/// The conjunction of two disjunctions of literal sets: every pair joined,
/// left-major; when one side is empty, the other side unchanged.
pub open spec fn dnf_and(left: Seq<SetView>, right: Seq<SetView>) -> Seq<SetView> {
    if left.len() > 0 && right.len() > 0 {
        product(left, right)
    } else {
        left + right
    }
}

/// The product of the disjunctions is empty exactly when a side is empty.
proof fn lemma_product_len(left: Seq<SetView>, right: Seq<SetView>)
    ensures
        product(left, right).len() == 0 <==> (left.len() == 0 || right.len() == 0),
    decreases left.len(),
{
    if left.len() > 0 {
        lemma_product_len(left.drop_last(), right);
    }
}

/// The conjunction of two disjunctions of literal sets, as `dnf_and` says.
pub fn cartesian_product_dnf(left: &[LiteralSet], right: &[LiteralSet]) -> (r: Vec<LiteralSet>)
    ensures
        sets_view(r@) == dnf_and(sets_view(left@), sets_view(right@)),
{
    let ghost lv = sets_view(left@);
    let ghost rv = sets_view(right@);
    let mut result: Vec<LiteralSet> = Vec::new();
    let nl = left.len();
    let nr = right.len();
    for i in 0..nl
        invariant
            nl == left@.len(),
            nr == right@.len(),
            lv == sets_view(left@),
            rv == sets_view(right@),
            sets_view(result@) == product(lv.take(i as int), rv),
    {
        proof {
            assert(lv.take(i + 1).drop_last() =~= lv.take(i as int));
            assert(lv.take(i + 1).last() == left@[i as int]@);
        }
        let ghost base = sets_view(result@);
        for j in 0..nr
            invariant
                nl == left@.len(),
                nr == right@.len(),
                i < nl,
                lv == sets_view(left@),
                rv == sets_view(right@),
                sets_view(result@) == base + rv.take(j as int).map_values(|x: SetView| combine(left@[i as int]@, x)),
        {
            let mut pos: Vec<(String, Vec<String>)> = Vec::new();
            append_lits(&mut pos, &left[i].pos);
            append_lits(&mut pos, &right[j].pos);
            let mut neg: Vec<(String, Vec<String>)> = Vec::new();
            append_lits(&mut neg, &left[i].neg);
            append_lits(&mut neg, &right[j].neg);
            let ghost before = result@;
            result.push(LiteralSet { pos, neg });
            proof {
                assert(lits_view(pos@) =~= left@[i as int]@.0 + right@[j as int]@.0);
                assert(lits_view(neg@) =~= left@[i as int]@.1 + right@[j as int]@.1);
                assert(sets_view(result@) =~= sets_view(before).push(combine(left@[i as int]@, rv[j as int])));
                assert(rv.take(j + 1).map_values(|x: SetView| combine(left@[i as int]@, x)) =~= rv.take(j as int).map_values(
                    |x: SetView| combine(left@[i as int]@, x),
                ).push(combine(left@[i as int]@, rv[j as int])));
            }
        }
        proof {
            assert(rv.take(nr as int) =~= rv);
        }
    }
    proof {
        assert(lv.take(nl as int) =~= lv);
        lemma_product_len(lv, rv);
    }
    if result.len() == 0 {
        proof {
            assert(product(lv, rv).len() == 0);
        }
        let mut out: Vec<LiteralSet> = Vec::new();
        for i in 0..nl
            invariant
                nl == left@.len(),
                lv == sets_view(left@),
                sets_view(out@) == lv.take(i as int),
        {
            let ghost before = out@;
            out.push(clone_set(&left[i]));
            proof {
                assert(sets_view(out@) =~= sets_view(before).push(lv[i as int]));
                assert(lv.take(i + 1) =~= lv.take(i as int).push(lv[i as int]));
            }
        }
        for j in 0..nr
            invariant
                nl == left@.len(),
                nr == right@.len(),
                lv == sets_view(left@),
                rv == sets_view(right@),
                sets_view(out@) == lv.take(nl as int) + rv.take(j as int),
        {
            let ghost before = out@;
            out.push(clone_set(&right[j]));
            proof {
                assert(sets_view(out@) =~= sets_view(before).push(rv[j as int]));
                assert(rv.take(j + 1) =~= rv.take(j as int).push(rv[j as int]));
                assert(lv.take(nl as int) + rv.take(j + 1) =~= (lv.take(nl as int) + rv.take(j as int)).push(rv[j as int]));
            }
        }
        proof {
            assert(lv.take(nl as int) =~= lv);
            assert(rv.take(nr as int) =~= rv);
        }
        return out;
    }
    result
}

/// The object bound to a variable: the first binding of its name.
pub open spec fn bound_to(b: Seq<(Seq<char>, Seq<char>)>, name: Seq<char>) -> Option<Seq<char>>
    decreases b.len(),
{
    if b.len() == 0 {
        None
    } else {
        match bound_to(b.drop_last(), name) {
            Some(v) => Some(v),
            None => if b.last().0 == name { Some(b.last().1) } else { None },
        }
    }
}

/// Texts joined with commas.
pub open spec fn comma_joined(parts: Seq<Seq<char>>) -> Seq<char>
    decreases parts.len(),
{
    if parts.len() == 0 {
        Seq::empty()
    } else if parts.len() == 1 {
        parts[0]
    } else {
        comma_joined(parts.drop_last()) + ","@ + parts.last()
    }
}

/// The text of a term under bindings: a name is itself, a bound variable
/// its object, an unbound variable its own name, and a function term its
/// symbol, followed by its arguments' texts in parentheses when it has any.
pub open spec fn term_text(t: TermModel, b: Seq<(Seq<char>, Seq<char>)>) -> Seq<char>
    decreases t, 1nat,
{
    match t {
        TermModel::Name(n) => n@,
        TermModel::Variable(v) => match bound_to(b, v@) {
            Some(x) => x,
            None => v@,
        },
        TermModel::Function(s, ts) => if ts@.len() == 0 {
            s@
        } else {
            s@ + "("@ + comma_joined(terms_text(ts@, ts@.len() as int, b)) + ")"@
        },
    }
}

/// The texts of the first `k` terms.
pub open spec fn terms_text(ts: Seq<TermModel>, k: int, b: Seq<(Seq<char>, Seq<char>)>) -> Seq<Seq<char>>
    decreases ts, 0nat, k,
{
    if k <= 0 || k > ts.len() {
        Seq::empty()
    } else {
        terms_text(ts, k - 1, b).push(term_text(ts[k - 1], b))
    }
}

/// The object bound to a variable, by a scan.
fn lookup_binding(bindings: &[(String, String)], name: &String) -> (r: Option<String>)
    ensures
        match bound_to(bindings_view(bindings@), name@) {
            Some(x) => r matches Some(s) && s@ == x,
            None => r is None,
        },
{
    let ghost bv = bindings_view(bindings@);
    let n = bindings.len();
    for i in 0..n
        invariant
            n == bindings@.len(),
            bv == bindings_view(bindings@),
            bound_to(bv.take(i as int), name@) is None,
    {
        proof {
            assert(bv.take(i + 1).drop_last() =~= bv.take(i as int));
        }
        if bindings[i].0 == *name {
            proof {
                lemma_bound_prefix(bv, name@, i as int + 1);
            }
            return Some(bindings[i].1.clone());
        }
    }
    proof {
        assert(bv.take(n as int) =~= bv);
    }
    None
}

proof fn lemma_bound_prefix(b: Seq<(Seq<char>, Seq<char>)>, name: Seq<char>, k: int)
    requires
        0 <= k <= b.len(),
        bound_to(b.take(k), name) is Some,
    ensures
        bound_to(b, name) == bound_to(b.take(k), name),
    decreases b.len() - k,
{
    if k < b.len() {
        assert(b.take(k + 1).drop_last() =~= b.take(k));
        lemma_bound_prefix(b, name, k + 1);
    } else {
        assert(b.take(k) =~= b);
    }
}

/// The text of a term under bindings, as `term_text` says.
pub fn term_to_string(term: &TermModel, bindings: &[(String, String)]) -> (r: String)
    ensures
        r@ == term_text(*term, bindings_view(bindings@)),
    decreases term,
{
    match term {
        TermModel::Name(n) => n.clone(),
        TermModel::Variable(v) => match lookup_binding(bindings, v) {
            Some(x) => x,
            None => v.clone(),
        },
        TermModel::Function(s, ts) => {
            if ts.len() == 0 {
                s.clone()
            } else {
                let args = terms_to_strings(ts, bindings);
                let joined = join_commas(&args);
                let a = concat(s.as_str(), "(");
                let b = concat(a.as_str(), joined.as_str());
                concat(b.as_str(), ")")
            }
        },
    }
}

/// The texts of terms under bindings, in order.
pub fn terms_to_strings(ts: &Vec<TermModel>, bindings: &[(String, String)]) -> (r: Vec<String>)
    ensures
        strings_view(r@) == terms_text(ts@, ts@.len() as int, bindings_view(bindings@)),
    decreases ts,
{
    let mut r: Vec<String> = Vec::new();
    let n = ts.len();
    for i in 0..n
        invariant
            n == ts@.len(),
            strings_view(r@) == terms_text(ts@, i as int, bindings_view(bindings@)),
    {
        let ghost before = r@;
        let t = term_to_string(&ts[i], bindings);
        r.push(t);
        proof {
            assert(strings_view(r@) =~= strings_view(before).push(term_text(ts@[i as int], bindings_view(bindings@))));
        }
    }
    r
}

/// Joins texts with commas.
pub fn join_commas(parts: &Vec<String>) -> (r: String)
    ensures
        r@ == comma_joined(strings_view(parts@)),
{
    let ghost all = strings_view(parts@);
    let n = parts.len();
    let mut r = String::new();
    for i in 0..n
        invariant
            n == parts@.len(),
            all == strings_view(parts@),
            r@ == comma_joined(all.take(i as int)),
    {
        proof {
            assert(all.take(i + 1).drop_last() =~= all.take(i as int));
        }
        if i == 0 {
            r = parts[0].clone();
            proof {
                assert(all.take(1) =~= seq![parts@[0]@]);
            }
        } else {
            let a = concat(r.as_str(), ",");
            r = concat(a.as_str(), parts[i].as_str());
        }
    }
    proof {
        assert(all.take(n as int) =~= all);
    }
    r
}

/// The literal sets of an atom asserted: an equality gives one empty set
/// (it constrains nothing), a predicate one set with it as a positive
/// literal.
pub open spec fn positive_atom(af: AtomModel, b: Seq<(Seq<char>, Seq<char>)>) -> Seq<SetView> {
    match af {
        AtomModel::Equality(_, _) => seq![(Seq::<LitView>::empty(), Seq::<LitView>::empty())],
        AtomModel::Predicate(n, ts) => seq![(seq![(n@, terms_text(ts@, ts@.len() as int, b))], Seq::<LitView>::empty())],
    }
}

/// The literal sets of an atom denied: an equality of two different texts
/// gives one empty set and of equal texts none; a predicate one set with
/// it as a negative literal.
pub open spec fn negative_atom(af: AtomModel, b: Seq<(Seq<char>, Seq<char>)>) -> Seq<SetView> {
    match af {
        AtomModel::Equality(x, y) => if term_text(x, b) != term_text(y, b) {
            seq![(Seq::<LitView>::empty(), Seq::<LitView>::empty())]
        } else {
            Seq::empty()
        },
        AtomModel::Predicate(n, ts) => seq![(Seq::<LitView>::empty(), seq![(n@, terms_text(ts@, ts@.len() as int, b))])],
    }
}

/// A goal as a disjunction of literal sets under bindings. Quantifiers are
/// dropped (their bodies read under the outer bindings); a negation of
/// anything but an atom or a literal, an implication and a numeric
/// comparison are errors.
pub open spec fn walk(gd: GoalModel, b: Seq<(Seq<char>, Seq<char>)>) -> Result<Seq<SetView>, Seq<char>>
    decreases gd, 1nat,
{
    match gd {
        GoalModel::Atom(af) => Ok(positive_atom(af, b)),
        GoalModel::Literal(LiteralModel::Positive(af)) => Ok(positive_atom(af, b)),
        GoalModel::Literal(LiteralModel::Negative(af)) => Ok(negative_atom(af, b)),
        GoalModel::And(gs) => walk_and(gs@, gs@.len() as int, b),
        GoalModel::Or(gs) => walk_or(gs@, gs@.len() as int, b),
        GoalModel::Not(inner) => match *inner {
            GoalModel::Atom(af) => Ok(negative_atom(af, b)),
            GoalModel::Literal(LiteralModel::Positive(af)) => Ok(negative_atom(af, b)),
            GoalModel::Literal(LiteralModel::Negative(af)) => Ok(negative_atom(af, b)),
            _ => Err("negation of non-atom in goal not supported"@),
        },
        GoalModel::Imply(_, _) => Err("imply in goal not supported"@),
        GoalModel::ForAll(_, body) => walk(*body, b),
        GoalModel::Exists(_, body) => walk(*body, b),
        GoalModel::FluentComparison => Err("numeric comparison in goal not supported in v1"@),
    }
}

/// The conjunction of the first `k` goals, starting from one empty set.
pub open spec fn walk_and(gs: Seq<GoalModel>, k: int, b: Seq<(Seq<char>, Seq<char>)>) -> Result<Seq<SetView>, Seq<char>>
    decreases gs, 0nat, k,
{
    if k <= 0 || k > gs.len() {
        Ok(seq![(Seq::<LitView>::empty(), Seq::<LitView>::empty())])
    } else {
        match walk_and(gs, k - 1, b) {
            Err(e) => Err(e),
            Ok(acc) => match walk(gs[k - 1], b) {
                Err(e) => Err(e),
                Ok(sub) => Ok(dnf_and(acc, sub)),
            },
        }
    }
}

/// The disjunction of the first `k` goals.
pub open spec fn walk_or(gs: Seq<GoalModel>, k: int, b: Seq<(Seq<char>, Seq<char>)>) -> Result<Seq<SetView>, Seq<char>>
    decreases gs, 0nat, k,
{
    if k <= 0 || k > gs.len() {
        Ok(Seq::empty())
    } else {
        match walk_or(gs, k - 1, b) {
            Err(e) => Err(e),
            Ok(acc) => match walk(gs[k - 1], b) {
                Err(e) => Err(e),
                Ok(sub) => Ok(acc + sub),
            },
        }
    }
}

/// Once the conjunction of a prefix fails, every longer prefix fails alike.
pub proof fn lemma_walk_and_err(gs: Seq<GoalModel>, k: int, m: int, b: Seq<(Seq<char>, Seq<char>)>)
    requires
        0 < k <= m <= gs.len(),
        walk_and(gs, k, b) is Err,
    ensures
        walk_and(gs, m, b) == walk_and(gs, k, b),
    decreases m - k,
{
    if k < m {
        lemma_walk_and_err(gs, k, m - 1, b);
    }
}

/// Once the disjunction of a prefix fails, every longer prefix fails alike.
proof fn lemma_walk_or_err(gs: Seq<GoalModel>, k: int, m: int, b: Seq<(Seq<char>, Seq<char>)>)
    requires
        0 < k <= m <= gs.len(),
        walk_or(gs, k, b) is Err,
    ensures
        walk_or(gs, m, b) == walk_or(gs, k, b),
    decreases m - k,
{
    if k < m {
        lemma_walk_or_err(gs, k, m - 1, b);
    }
}

/// The outcome of a walk as the library returns it.
pub open spec fn walk_result(r: Result<Vec<LiteralSet>, MiniplanError>, w: Result<Seq<SetView>, Seq<char>>) -> bool {
    match w {
        Ok(v) => r matches Ok(x) && sets_view(x@) == v,
        Err(m) => r matches Err(e) && (e matches MiniplanError::Ground(s) && s@ == m),
    }
}

/// A literal of a predicate over terms' texts.
fn predicate_lit(name: &String, ts: &Vec<TermModel>, bindings: &[(String, String)]) -> (r: (String, Vec<String>))
    ensures
        lit_view(r) == (name@, terms_text(ts@, ts@.len() as int, bindings_view(bindings@))),
{
    (name.clone(), terms_to_strings(ts, bindings))
}

/// The sets of an atom asserted, as `positive_atom` says.
fn walk_positive_atom(af: &AtomModel, bindings: &[(String, String)]) -> (r: Vec<LiteralSet>)
    ensures
        sets_view(r@) == positive_atom(*af, bindings_view(bindings@)),
{
    let set = match af {
        AtomModel::Equality(_, _) => LiteralSet { pos: Vec::new(), neg: Vec::new() },
        AtomModel::Predicate(n, ts) => LiteralSet { pos: vec![predicate_lit(n, ts, bindings)], neg: Vec::new() },
    };
    proof {
        assert(lits_view(set.neg@) =~= Seq::<LitView>::empty());
        match af {
            AtomModel::Equality(_, _) => {
                assert(lits_view(set.pos@) =~= Seq::<LitView>::empty());
            },
            AtomModel::Predicate(n, ts) => {
                assert(lits_view(set.pos@) =~= seq![lit_view(set.pos@[0])]);
            },
        }
    }
    let r = vec![set];
    assert(sets_view(r@) =~= seq![r@[0]@]);
    r
}

/// The sets of an atom denied, as `negative_atom` says.
fn walk_negative_atom(af: &AtomModel, bindings: &[(String, String)]) -> (r: Vec<LiteralSet>)
    ensures
        sets_view(r@) == negative_atom(*af, bindings_view(bindings@)),
{
    match af {
        AtomModel::Equality(x, y) => {
            let first = term_to_string(x, bindings);
            let second = term_to_string(y, bindings);
            if first != second {
                let set = LiteralSet { pos: Vec::new(), neg: Vec::new() };
                assert(lits_view(set.pos@) =~= Seq::<LitView>::empty());
                assert(lits_view(set.neg@) =~= Seq::<LitView>::empty());
                let r = vec![set];
                assert(sets_view(r@) =~= seq![r@[0]@]);
                r
            } else {
                let r: Vec<LiteralSet> = Vec::new();
                assert(sets_view(r@) =~= Seq::<SetView>::empty());
                r
            }
        },
        AtomModel::Predicate(n, ts) => {
            let set = LiteralSet { pos: Vec::new(), neg: vec![predicate_lit(n, ts, bindings)] };
            assert(lits_view(set.pos@) =~= Seq::<LitView>::empty());
            assert(lits_view(set.neg@) =~= seq![lit_view(set.neg@[0])]);
            let r = vec![set];
            assert(sets_view(r@) =~= seq![r@[0]@]);
            r
        },
    }
}

/// A goal as a disjunction of literal sets under bindings, as `walk` says.
pub fn walk_goal_definition(gd: &GoalModel, bindings: &[(String, String)]) -> (r: Result<Vec<LiteralSet>, MiniplanError>)
    ensures
        walk_result(r, walk(*gd, bindings_view(bindings@))),
    decreases gd,
{
    match gd {
        GoalModel::Atom(af) => Ok(walk_positive_atom(af, bindings)),
        GoalModel::Literal(LiteralModel::Positive(af)) => Ok(walk_positive_atom(af, bindings)),
        GoalModel::Literal(LiteralModel::Negative(af)) => Ok(walk_negative_atom(af, bindings)),
        GoalModel::And(gs) => {
            let mut results: Vec<LiteralSet> = vec![LiteralSet { pos: Vec::new(), neg: Vec::new() }];
            proof {
                assert(lits_view(results@[0].pos@) =~= Seq::<LitView>::empty());
                assert(lits_view(results@[0].neg@) =~= Seq::<LitView>::empty());
                assert(sets_view(results@) =~= seq![(Seq::<LitView>::empty(), Seq::<LitView>::empty())]);
            }
            let n = gs.len();
            for i in 0..n
                invariant
                    n == gs@.len(),
                    *gd == GoalModel::And(*gs),
                    walk_and(gs@, i as int, bindings_view(bindings@)) == Ok::<Seq<SetView>, Seq<char>>(sets_view(results@)),
            {
                proof {
                    assert(decreases_to!(*gd => gs@[i as int]));
                }
                let sub = walk_goal_definition(&gs[i], bindings);
                match sub {
                    Err(e) => {
                        proof {
                            lemma_walk_and_err(gs@, i as int + 1, n as int, bindings_view(bindings@));
                        }
                        return Err(e);
                    },
                    Ok(sub) => {
                        results = cartesian_product_dnf(&results, &sub);
                    },
                }
            }
            Ok(results)
        },
        GoalModel::Or(gs) => {
            let mut all: Vec<LiteralSet> = Vec::new();
            proof {
                assert(sets_view(all@) =~= Seq::<SetView>::empty());
            }
            let n = gs.len();
            for i in 0..n
                invariant
                    n == gs@.len(),
                    *gd == GoalModel::Or(*gs),
                    walk_or(gs@, i as int, bindings_view(bindings@)) == Ok::<Seq<SetView>, Seq<char>>(sets_view(all@)),
            {
                proof {
                    assert(decreases_to!(*gd => gs@[i as int]));
                }
                let sub = walk_goal_definition(&gs[i], bindings);
                match sub {
                    Err(e) => {
                        proof {
                            lemma_walk_or_err(gs@, i as int + 1, n as int, bindings_view(bindings@));
                        }
                        return Err(e);
                    },
                    Ok(sub) => {
                        let ghost before = all@;
                        let ghost added = sub@;
                        let mut sub = sub;
                        all.append(&mut sub);
                        proof {
                            assert(sets_view(all@) =~= sets_view(before) + sets_view(added));
                        }
                    },
                }
            }
            Ok(all)
        },
        GoalModel::Not(inner) => match &**inner {
            GoalModel::Atom(af) => Ok(walk_negative_atom(af, bindings)),
            GoalModel::Literal(LiteralModel::Positive(af)) => Ok(walk_negative_atom(af, bindings)),
            GoalModel::Literal(LiteralModel::Negative(af)) => Ok(walk_negative_atom(af, bindings)),
            _ => Err(MiniplanError::Ground(String::from_str("negation of non-atom in goal not supported"))),
        },
        GoalModel::Imply(_, _) => Err(MiniplanError::Ground(String::from_str("imply in goal not supported"))),
        GoalModel::ForAll(_, body) => walk_goal_definition(body, bindings),
        GoalModel::Exists(_, body) => walk_goal_definition(body, bindings),
        GoalModel::FluentComparison => Err(MiniplanError::Ground(String::from_str("numeric comparison in goal not supported in v1"))),
    }
}

/// The literal names the fact at position `i` of the task.
pub open spec fn names_fact(task: &Task, lit: LitView, i: int) -> bool {
    match task.fact_index.lookup(lit) {
        Some(id) => id.0 == i,
        None => false,
    }
}

/// The bits of the task's facts named by literals: a fact's bit is set when
/// some literal names it; literals naming no fact are passed over.
pub open spec fn marked(task: &Task, lits: Seq<LitView>) -> Seq<bool> {
    Seq::new(task.facts@.len(), |i: int| exists|k: int| 0 <= k < lits.len() && #[trigger] names_fact(task, lits[k], i))
}

/// The bits of the facts named by some literals.
fn mark_literals(lits: &Vec<(String, Vec<String>)>, task: &Task) -> (r: State)
    requires
        task.index_ok(),
    ensures
        r@ == marked(task, lits_view(lits@)),
{
    let ghost lv = lits_view(lits@);
    let n = task.num_facts();
    let mut r = State::new(n);
    let m = lits.len();
    for k in 0..m
        invariant
            m == lits@.len(),
            n == task.facts@.len(),
            task.index_ok(),
            lv == lits_view(lits@),
            r@.len() == n,
            forall|i: int| 0 <= i < n ==> r@[i] == exists|kk: int| 0 <= kk < k && #[trigger] names_fact(task, lv[kk], i),
    {
        let fact = Fact { predicate: lits[k].0.clone(), args: clone_strings(&lits[k].1) };
        proof {
            assert(fact@ == lv[k as int]);
        }
        match task.fact_id(&fact) {
            Some(id) => {
                let ghost before = r@;
                r.set(id, true);
                proof {
                    assert forall|i: int| 0 <= i < n implies r@[i] == exists|kk: int| 0 <= kk < k + 1 && #[trigger] names_fact(task, lv[kk], i) by {
                        if i == id.0 {
                            assert(names_fact(task, lv[k as int], i));
                        } else {
                            assert(r@[i] == before[i]);
                        }
                    }
                }
            },
            None => {
                proof {
                    assert forall|i: int| 0 <= i < n implies r@[i] == exists|kk: int| 0 <= kk < k + 1 && #[trigger] names_fact(task, lv[kk], i) by {
                        assert(!names_fact(task, lv[k as int], i));
                    }
                }
            },
        }
    }
    assert(r@ =~= marked(task, lv));
    r
}

/// The states of a literal set: the bits of the facts its positive
/// literals name, and of those its negative literals name.
pub fn build_state_from_literals(literals: &LiteralSet, task: &Task) -> (r: Result<(State, State), MiniplanError>)
    requires
        task.index_ok(),
    ensures
        r matches Ok((p, n)) && p@ == marked(task, literals@.0) && n@ == marked(task, literals@.1),
{
    let p = mark_literals(&literals.pos, task);
    let n = mark_literals(&literals.neg, task);
    Ok((p, n))
}

} // verus!
