//! Grounded task representation: facts, operators, bitset states and the task.

use vstd::prelude::*;
use fixedbitset::FixedBitSet;
use crate::table::{KeyMap, TableKey, IndexTable, Subgoal};
use crate::bitset::{
    bits_of, bitset_clone, bitset_contains, bitset_len, bitset_new, bitset_ones, bitset_set,
    bitset_with_capacity,
};

verus! {

/// Whether position `i` is set in a bit sequence (false beyond its length).
pub open spec fn is_set(s: Seq<bool>, i: int) -> bool {
    0 <= i < s.len() && s[i]
}

/// Every position set in `a` is set in `b`.
pub open spec fn subset(a: Seq<bool>, b: Seq<bool>) -> bool {
    forall|i: int| #[trigger] is_set(a, i) ==> is_set(b, i)
}

/// No position set in `a` is set in `b`.
pub open spec fn disjoint(a: Seq<bool>, b: Seq<bool>) -> bool {
    forall|i: int| #[trigger] is_set(a, i) ==> !is_set(b, i)
}

/// Every position set in `a` lies below `n`.
pub open spec fn fits(a: Seq<bool>, n: nat) -> bool {
    forall|i: int| #[trigger] is_set(a, i) ==> i < n
}

/// `cur` with every position set in `bits` replaced by `value`.
pub open spec fn overwrite(cur: Seq<bool>, bits: Seq<bool>, value: bool) -> Seq<bool> {
    Seq::new(cur.len(), |i: int| if is_set(bits, i) { value } else { cur[i] })
}

/// A unique identifier for a fact (predicate instance).
#[derive(Debug, Clone, Copy, PartialEq, Eq, Structural, Hash, Default)]
pub struct FactId(pub usize);

/// A unique identifier for an operator (grounded action).
#[derive(Debug, Clone, Copy, PartialEq, Eq, Structural, Hash, Default)]
pub struct OpId(pub usize);

/// A named object with an associated type.
pub struct Object {
    /// The object's name.
    pub name: String,
    /// The object's type name.
    pub object_type: String,
}

impl Clone for Object {
    fn clone(&self) -> (r: Self)
        ensures
            r.name@ == self.name@,
            r.object_type@ == self.object_type@,
    {
        Object { name: self.name.clone(), object_type: self.object_type.clone() }
    }
}

/// A grounded fact (predicate instance with arguments).
pub struct Fact {
    /// The predicate name.
    pub predicate: String,
    /// The grounded arguments.
    pub args: Vec<String>,
}

/// The characters of each string, in order.
pub open spec fn strings_view(v: Seq<String>) -> Seq<Seq<char>> {
    v.map_values(|a: String| a@)
}

impl View for Fact {
    type V = (Seq<char>, Seq<Seq<char>>);

    open spec fn view(&self) -> (Seq<char>, Seq<Seq<char>>) {
        (self.predicate@, strings_view(self.args@))
    }
}

/// Copies a list of strings.
pub fn clone_strings(v: &Vec<String>) -> (r: Vec<String>)
    ensures
        strings_view(r@) == strings_view(v@),
        r@.len() == v@.len(),
{
    let mut r: Vec<String> = Vec::new();
    let n = v.len();
    for i in 0..n
        invariant
            n == v@.len(),
            r@.len() == i,
            forall|j: int| 0 <= j < i ==> #[trigger] r@[j]@ == v@[j]@,
    {
        r.push(v[i].clone());
    }
    assert(strings_view(r@) =~= strings_view(v@));
    r
}

impl Clone for Fact {
    fn clone(&self) -> (r: Self)
        ensures
            r@ == self@,
    {
        Fact { predicate: self.predicate.clone(), args: clone_strings(&self.args) }
    }
}

/// A hierarchy of types with single inheritance: each subtype names its
/// direct supertype.
pub struct TypeHierarchy {
    /// Maps each subtype to its direct supertype.
    pub supertypes: KeyMap<String, String>,
}

/// The direct supertype recorded for `name`.
pub open spec fn supertype_of(th: &TypeHierarchy, name: Seq<char>) -> Option<Seq<char>> {
    match th.supertypes.lookup(name) {
        Some(s) => Some(s@),
        None => None,
    }
}

/// `child` reaches `parent` by following at most `steps` supertype links,
/// where every type counts as a subtype of itself and of `object`.
pub open spec fn reaches_type(
    th: &TypeHierarchy,
    child: Seq<char>,
    parent: Seq<char>,
    steps: nat,
) -> bool
    decreases steps,
{
    if child == parent || parent == "object"@ {
        true
    } else if steps == 0 {
        false
    } else {
        match supertype_of(th, child) {
            Some(s) => reaches_type(th, s, parent, (steps - 1) as nat),
            None => false,
        }
    }
}

impl TypeHierarchy {
    /// Create an empty type hierarchy.
    pub fn new() -> (th: Self)
        ensures
            th.supertypes.wf(),
            th.supertypes.keys().len() == 0,
    {
        TypeHierarchy { supertypes: KeyMap::new() }
    }

    /// Check if `child` is a subtype of `parent` (reflexive): whether the
    /// supertype chain from `child` meets `parent` within as many links as
    /// the hierarchy records.
    pub fn is_subtype_of(&self, child: &str, parent: &str) -> (r: bool)
        requires
            self.supertypes.wf(),
        ensures
            r == reaches_type(self, child@, parent@, self.supertypes.keys().len() as nat),
    {
        proof {
            reveal_strlit("object");
        }
        let object = String::from_str("object");
        let target = parent.to_owned();
        let mut cur = child.to_owned();
        let n = self.supertypes.len();
        let mut fuel = n;
        loop
            invariant
                self.supertypes.wf(),
                n == self.supertypes.keys().len(),
                fuel <= n,
                target@ == parent@,
                object@ == "object"@,
                reaches_type(self, child@, parent@, n as nat) == reaches_type(
                    self,
                    cur@,
                    parent@,
                    fuel as nat,
                ),
            decreases fuel,
        {
            if cur == target || target == object {
                return true;
            }
            if fuel == 0 {
                return false;
            }
            match self.supertypes.get(&cur) {
                Some(sup) => {
                    cur = sup.clone();
                    fuel = fuel - 1;
                },
                None => {
                    return false;
                },
            }
        }
    }

    /// Add a type with an optional supertype; a type without one is not recorded.
    pub fn add_type(&mut self, name: String, supertype: Option<String>)
        requires
            old(self).supertypes.wf(),
        ensures
            final(self).supertypes.wf(),
            supertype is None ==> final(self).supertypes == old(self).supertypes,
            supertype matches Some(sup) ==> {
                &&& forall|t: Seq<char>| t != name@ ==> supertype_of(final(self), t) == supertype_of(old(self), t)
                &&& supertype_of(final(self), name@) == Some(sup@)
            },
    {
        if let Some(sup) = supertype {
            self.supertypes.insert(name, sup);
            proof {
                self.supertypes.lemma_keys_distinct();
                old(self).supertypes.lemma_keys_distinct();
                lemma_lookup_after_insert(&old(self).supertypes, &self.supertypes, name@, sup);
            }
        }
    }
}

/// Every type is a subtype of itself and of `object`, within any number of
/// supertype links.
pub proof fn lemma_subtype_reflexive(th: &TypeHierarchy, t: Seq<char>, steps: nat)
    ensures
        reaches_type(th, t, t, steps),
        reaches_type(th, t, "object"@, steps),
{
}

impl Default for TypeHierarchy {
    /// An empty type hierarchy.
    fn default() -> (th: Self)
        ensures
            th.supertypes.wf(),
            th.supertypes.keys().len() == 0,
    {
        TypeHierarchy::new()
    }
}

/// How many bit sequences of length `n` there are: 2 to the `n`.
pub open spec fn state_space(n: nat) -> nat
    decreases n,
{
    if n == 0 {
        1
    } else {
        2 * state_space((n - 1) as nat)
    }
}

/// The bit sequences of length `n`.
pub open spec fn bit_seqs(n: nat) -> Set<Seq<bool>> {
    Set::new(|s: Seq<bool>| s.len() == n)
}

/// There are finitely many bit sequences of length `n`, at most
/// `state_space(n)`.
pub proof fn lemma_bit_seqs_bound(n: nat)
    ensures
        bit_seqs(n).finite(),
        bit_seqs(n).len() <= state_space(n),
    decreases n,
{
    if n == 0 {
        assert(bit_seqs(0) =~= Set::<Seq<bool>>::empty().insert(Seq::<bool>::empty())) by {
            assert forall|s: Seq<bool>| #[trigger] bit_seqs(0).contains(s) implies s == Seq::<bool>::empty() by {
                assert(s =~= Seq::<bool>::empty());
            }
        }
    } else {
        let m = (n - 1) as nat;
        lemma_bit_seqs_bound(m);
        let prev = bit_seqs(m);
        let ft = |s: Seq<bool>| s.push(true);
        let ff = |s: Seq<bool>| s.push(false);
        let a = prev.map(ft);
        let b = prev.map(ff);
        vstd::set_lib::lemma_map_size_bound(prev, a, ft);
        vstd::set_lib::lemma_map_size_bound(prev, b, ff);
        assert(bit_seqs(n) =~= a.union(b)) by {
            assert forall|s: Seq<bool>| #[trigger] bit_seqs(n).contains(s) implies a.union(b).contains(s) by {
                let t = s.drop_last();
                assert(prev.contains(t));
                assert(s =~= t.push(s.last()));
                if s.last() {
                    assert(a.contains(ft(t)));
                } else {
                    assert(b.contains(ff(t)));
                }
            }
        }
        vstd::set_lib::lemma_len_union(a, b);
    }
}

/// A table of distinct states of `n` facts holds at most `state_space(n)`
/// of them.
pub proof fn lemma_table_bound(t: &IndexTable<State>, n: nat)
    requires
        t.wf(),
        forall|i: int| 0 <= i < t.entries().len() ==> (#[trigger] t.entries()[i])@.len() == n,
    ensures
        t.entries().len() <= state_space(n),
{
    t.lemma_entries_distinct();
    let v = t.entries().map_values(|s: State| s@);
    assert(v.no_duplicates()) by {
        assert forall|i: int, j: int| 0 <= i < v.len() && 0 <= j < v.len() && i != j implies v[i] != v[j] by {
            assert(t.entries()[i].key_view() != t.entries()[j].key_view());
        }
    }
    v.unique_seq_to_set();
    lemma_bit_seqs_bound(n);
    assert(v.to_set().subset_of(bit_seqs(n))) by {
        assert forall|s: Seq<bool>| #[trigger] v.to_set().contains(s) implies bit_seqs(n).contains(s) by {
            let i = choose|i: int| 0 <= i < v.len() && v[i] == s;
            assert(t.entries()[i]@.len() == n);
        }
    }
    vstd::set_lib::lemma_len_subset(v.to_set(), bit_seqs(n));
}

/// A table of distinct subgoals, each after the first made of two bit
/// sequences of length `n`, holds at most one more than
/// `state_space(2 * n)` of them.
pub proof fn lemma_subgoal_table_bound(t: &IndexTable<Subgoal>, n: nat)
    requires
        t.wf(),
        forall|j: int| 1 <= j < t.entries().len() ==> (#[trigger] t.entries()[j]).pos@.len() == n && t.entries()[j].neg@.len() == n,
    ensures
        t.entries().len() <= state_space(2 * n) + 1,
{
    t.lemma_entries_distinct();
    if t.entries().len() > 0 {
        let rest = t.entries().subrange(1, t.entries().len() as int);
        let v = rest.map_values(|g: Subgoal| g.pos@ + g.neg@);
        assert(v.no_duplicates()) by {
            assert forall|i: int, j: int| 0 <= i < v.len() && 0 <= j < v.len() && i != j implies v[i] != v[j] by {
                let a = rest[i];
                let b = rest[j];
                assert(a == t.entries()[i + 1]);
                assert(b == t.entries()[j + 1]);
                assert(a.key_view() != b.key_view());
                if v[i] == v[j] {
                    assert(a.pos@ =~= v[i].subrange(0, n as int));
                    assert(b.pos@ =~= v[j].subrange(0, n as int));
                    assert(a.neg@ =~= v[i].subrange(n as int, 2 * n as int));
                    assert(b.neg@ =~= v[j].subrange(n as int, 2 * n as int));
                }
            }
        }
        v.unique_seq_to_set();
        lemma_bit_seqs_bound(2 * n);
        assert(v.to_set().subset_of(bit_seqs(2 * n))) by {
            assert forall|x: Seq<bool>| #[trigger] v.to_set().contains(x) implies bit_seqs(2 * n).contains(x) by {
                let i = choose|i: int| 0 <= i < v.len() && v[i] == x;
                assert(rest[i] == t.entries()[i + 1]);
            }
        }
        vstd::set_lib::lemma_len_subset(v.to_set(), bit_seqs(2 * n));
    }
}

/// Distinct bit sequences of length `n` number at most `state_space(n)`.
pub proof fn lemma_distinct_seqs_bound(v: Seq<Seq<bool>>, n: nat)
    requires
        forall|i: int, j: int| 0 <= i < v.len() && 0 <= j < v.len() && i != j ==> v[i] != v[j],
        forall|i: int| 0 <= i < v.len() ==> (#[trigger] v[i]).len() == n,
    ensures
        v.len() <= state_space(n),
{
    assert(v.no_duplicates());
    v.unique_seq_to_set();
    lemma_bit_seqs_bound(n);
    assert(v.to_set().subset_of(bit_seqs(n))) by {
        assert forall|x: Seq<bool>| #[trigger] v.to_set().contains(x) implies bit_seqs(n).contains(x) by {
            let i = choose|i: int| 0 <= i < v.len() && v[i] == x;
        }
    }
    vstd::set_lib::lemma_len_subset(v.to_set(), bit_seqs(n));
}

/// Distinct pairs of bit sequences, each the pair `root` or made of two
/// sequences of length `n`, number at most one more than
/// `state_space(2 * n)`.
pub proof fn lemma_distinct_pairs_bound(v: Seq<(Seq<bool>, Seq<bool>)>, root: (Seq<bool>, Seq<bool>), n: nat)
    requires
        forall|i: int, j: int| 0 <= i < v.len() && 0 <= j < v.len() && i != j ==> v[i] != v[j],
        forall|i: int| 0 <= i < v.len() ==> #[trigger] v[i] == root || (v[i].0.len() == n && v[i].1.len() == n),
    ensures
        v.len() <= state_space(2 * n) + 1,
{
    let marker = Seq::new(2 * n + 1, |i: int| true);
    let f = |x: (Seq<bool>, Seq<bool>)| if x == root { marker } else { x.0 + x.1 };
    let w = v.map_values(f);
    assert(w.no_duplicates()) by {
        assert forall|i: int, j: int| 0 <= i < w.len() && 0 <= j < w.len() && i != j implies w[i] != w[j] by {
            let a = v[i];
            let b = v[j];
            assert(a != b);
            if w[i] == w[j] {
                if a == root {
                    assert(b != root);
                    assert(w[j].len() == 2 * n);
                } else if b == root {
                    assert(w[i].len() == 2 * n);
                } else {
                    assert(a.0 =~= w[i].subrange(0, n as int));
                    assert(b.0 =~= w[j].subrange(0, n as int));
                    assert(a.1 =~= w[i].subrange(n as int, 2 * n as int));
                    assert(b.1 =~= w[j].subrange(n as int, 2 * n as int));
                }
            }
        }
    }
    w.unique_seq_to_set();
    lemma_bit_seqs_bound(2 * n);
    let big = bit_seqs(2 * n).union(Set::<Seq<bool>>::empty().insert(marker));
    assert(w.to_set().subset_of(big)) by {
        assert forall|x: Seq<bool>| #[trigger] w.to_set().contains(x) implies big.contains(x) by {
            let i = choose|i: int| 0 <= i < w.len() && w[i] == x;
            assert(v[i] == root || (v[i].0.len() == n && v[i].1.len() == n));
        }
    }
    vstd::set_lib::lemma_len_union(bit_seqs(2 * n), Set::<Seq<bool>>::empty().insert(marker));
    vstd::set_lib::lemma_len_subset(w.to_set(), big);
}

/// What an insertion into a key map does to lookups.
pub proof fn lemma_lookup_after_insert<K: TableKey, V>(
    before: &KeyMap<K, V>,
    after: &KeyMap<K, V>,
    kv: K::KV,
    v: V,
)
    requires
        before.wf(),
        after.wf(),
        before.position(kv) is Some ==> {
            &&& after.keys() == before.keys()
            &&& after.values() == before.values().update(before.position(kv)->0, v)
        },
        before.position(kv) is None ==> {
            &&& after.keys() == before.keys().push(kv)
            &&& after.values() == before.values().push(v)
        },
    ensures
        after.lookup(kv) == Some(v),
        forall|t: K::KV| t != kv ==> #[trigger] after.lookup(t) == before.lookup(t),
{
    before.lemma_keys_distinct();
    after.lemma_keys_distinct();
    assert(after.keys().len() == after.values().len());
    if before.position(kv) is None {
        let n = before.keys().len() as int;
        assert(after.keys()[n] == kv);
        assert(after.position(kv) == Some(n));
    } else {
        let p = before.position(kv)->0;
        assert(after.keys()[p] == kv);
        assert(after.position(kv) == Some(p));
    }
    assert forall|t: K::KV| t != kv implies #[trigger] after.lookup(t) == before.lookup(t) by {
        if before.position(t) is Some {
            let p = before.position(t)->0;
            assert(after.keys()[p] == t);
            assert(after.position(t) == Some(p));
        } else {
            assert forall|i: int| 0 <= i < after.keys().len() implies after.keys()[i] != t by {
                if i < before.keys().len() {
                    assert(after.keys()[i] == before.keys()[i]);
                }
            }
        }
    }
}

/// A set of facts represented as a bitset; used for states and goal parts.
pub struct State(pub FixedBitSet);

impl View for State {
    type V = Seq<bool>;

    open spec fn view(&self) -> Seq<bool> {
        bits_of(self.0)
    }
}

impl Clone for State {
    fn clone(&self) -> (r: Self)
        ensures
            r@ == self@,
    {
        State(bitset_clone(&self.0))
    }
}

/// Whether every set bit of `bits` is set in `s`.
pub fn all_set_in(bits: &State, s: &State) -> (r: bool)
    ensures
        r == subset(bits@, s@),
{
    let ones = bitset_ones(&bits.0);
    let n = ones.len();
    for k in 0..n
        invariant
            n == ones@.len(),
            forall|j: int| 0 <= j < ones@.len() ==> is_set(bits@, #[trigger] ones@[j] as int),
            forall|j: int| 0 <= j < k ==> is_set(s@, ones@[j] as int),
    {
        if !bitset_contains(&s.0, ones[k]) {
            assert(is_set(bits@, ones@[k as int] as int));
            return false;
        }
    }
    assert forall|i: int| #[trigger] is_set(bits@, i) implies is_set(s@, i) by {
        let j = choose|j: int| 0 <= j < ones@.len() && ones@[j] as int == i;
    }
    true
}

/// Whether no set bit of `bits` is set in `s`.
pub fn none_set_in(bits: &State, s: &State) -> (r: bool)
    ensures
        r == disjoint(bits@, s@),
{
    let ones = bitset_ones(&bits.0);
    let n = ones.len();
    for k in 0..n
        invariant
            n == ones@.len(),
            forall|j: int| 0 <= j < ones@.len() ==> is_set(bits@, #[trigger] ones@[j] as int),
            forall|j: int| 0 <= j < k ==> !is_set(s@, ones@[j] as int),
    {
        if bitset_contains(&s.0, ones[k]) {
            assert(is_set(bits@, ones@[k as int] as int));
            return false;
        }
    }
    assert forall|i: int| #[trigger] is_set(bits@, i) implies !is_set(s@, i) by {
        let j = choose|j: int| 0 <= j < ones@.len() && ones@[j] as int == i;
    }
    true
}

/// Writes `value` at every position set in `bits`.
pub fn overwrite_bits(target: &mut State, bits: &State, value: bool)
    requires
        fits(bits@, old(target)@.len()),
    ensures
        final(target)@ == overwrite(old(target)@, bits@, value),
{
    let ghost orig = target@;
    let ones = bitset_ones(&bits.0);
    let n = ones.len();
    for k in 0..n
        invariant
            n == ones@.len(),
            fits(bits@, orig.len()),
            forall|a: int, b: int| 0 <= a < b < ones@.len() ==> ones@[a] < ones@[b],
            forall|j: int| 0 <= j < ones@.len() ==> is_set(bits@, #[trigger] ones@[j] as int),
            target@.len() == orig.len(),
            forall|i: int|
                0 <= i < orig.len() ==> #[trigger] target@[i] == if (exists|j: int|
                    0 <= j < k && ones@[j] == i) {
                    value
                } else {
                    orig[i]
                },
    {
        let b = ones[k];
        assert(is_set(bits@, b as int));
        let ghost before = target@;
        bitset_set(&mut target.0, b, value);
        assert forall|i: int| 0 <= i < orig.len() implies #[trigger] target@[i] == if (exists|j: int|
            0 <= j < k + 1 && ones@[j] == i) {
            value
        } else {
            orig[i]
        } by {
            if i == b as int {
                assert(ones@[k as int] == i);
            } else {
                if exists|j: int| 0 <= j < k + 1 && ones@[j] == i {
                    let j = choose|j: int| 0 <= j < k + 1 && ones@[j] == i;
                    assert(j != k);
                }
                assert(before[i] == target@[i]);
            }
        }
    }
    assert(target@ =~= overwrite(orig, bits@, value)) by {
        assert forall|i: int| 0 <= i < orig.len() implies target@[i] == overwrite(orig, bits@, value)[i] by {
            if is_set(bits@, i) {
                let j = choose|j: int| 0 <= j < ones@.len() && ones@[j] as int == i;
            } else {
                assert(!exists|j: int| 0 <= j < ones@.len() && ones@[j] == i);
            }
        }
    }
}


/// A conditional effect: applied only when its conditions hold.
pub struct CondEffect {
    /// Facts that must be true for the effect to apply.
    pub cond_pos: State,
    /// Facts that must be false for the effect to apply.
    pub cond_neg: State,
    /// Facts to add when the effect applies.
    pub add: State,
    /// Facts to delete when the effect applies.
    pub del: State,
}

impl Clone for CondEffect {
    fn clone(&self) -> (r: Self)
        ensures
            r.cond_pos@ == self.cond_pos@,
            r.cond_neg@ == self.cond_neg@,
            r.add@ == self.add@,
            r.del@ == self.del@,
    {
        CondEffect {
            cond_pos: self.cond_pos.clone(),
            cond_neg: self.cond_neg.clone(),
            add: self.add.clone(),
            del: self.del.clone(),
        }
    }
}

/// A grounded planning operator.
pub struct Operator {
    /// Unique identifier for this operator.
    pub id: OpId,
    /// Human-readable name.
    pub name: String,
    /// Positive preconditions (facts that must be true).
    pub pre_pos: State,
    /// Negative preconditions (facts that must be false).
    pub pre_neg: State,
    /// Add effects (facts to make true).
    pub add: State,
    /// Delete effects (facts to make false).
    pub del: State,
    /// Conditional effects.
    pub conditional: Vec<CondEffect>,
    /// The cost of executing this operator.
    pub cost: u32,
}

/// A conditional effect fires in state `s` when its positive conditions hold
/// and none of its negative conditions does.
pub open spec fn cond_holds(s: Seq<bool>, c: CondEffect) -> bool {
    subset(c.cond_pos@, s) && disjoint(c.cond_neg@, s)
}

/// One conditional effect, judged on the state `s` the operator is applied to,
/// acting on the partially built successor `cur`: adds first, then deletes.
pub open spec fn cond_step(s: Seq<bool>, c: CondEffect, cur: Seq<bool>) -> Seq<bool> {
    if cond_holds(s, c) {
        overwrite(overwrite(cur, c.add@, true), c.del@, false)
    } else {
        cur
    }
}

/// The conditional effects in list order, each judged on `s`.
pub open spec fn apply_conds(s: Seq<bool>, conds: Seq<CondEffect>, cur: Seq<bool>) -> Seq<bool>
    decreases conds.len(),
{
    if conds.len() == 0 {
        cur
    } else {
        cond_step(s, conds.last(), apply_conds(s, conds.drop_last(), cur))
    }
}

/// The state reached by applying `op` to `s`: add effects, then delete
/// effects, then every conditional effect whose condition holds in `s`.
pub open spec fn successor(s: Seq<bool>, op: Operator) -> Seq<bool> {
    apply_conds(s, op.conditional@, overwrite(overwrite(s, op.add@, true), op.del@, false))
}

/// The preconditions of `op` hold in `s`.
pub open spec fn applicable_in(s: Seq<bool>, op: Operator) -> bool {
    subset(op.pre_pos@, s) && disjoint(op.pre_neg@, s)
}

/// A state satisfies a goal when every positive goal fact holds and no
/// negative goal fact does.
pub open spec fn satisfies_goal(s: Seq<bool>, goal_pos: Seq<bool>, goal_neg: Seq<bool>) -> bool {
    subset(goal_pos, s) && disjoint(goal_neg, s)
}

/// Every effect that applying `op` to `s` writes lies inside `s`.
pub open spec fn effects_fit(s: Seq<bool>, op: Operator) -> bool {
    &&& fits(op.add@, s.len())
    &&& fits(op.del@, s.len())
    &&& forall|k: int|
        0 <= k < op.conditional@.len() && cond_holds(s, #[trigger] op.conditional@[k]) ==> {
            &&& fits(op.conditional@[k].add@, s.len())
            &&& fits(op.conditional@[k].del@, s.len())
        }
}

proof fn lemma_overwrite_len(cur: Seq<bool>, bits: Seq<bool>, value: bool)
    ensures
        overwrite(cur, bits, value).len() == cur.len(),
{
}

proof fn lemma_apply_conds_len(s: Seq<bool>, conds: Seq<CondEffect>, cur: Seq<bool>)
    ensures
        apply_conds(s, conds, cur).len() == cur.len(),
    decreases conds.len(),
{
    if conds.len() > 0 {
        lemma_apply_conds_len(s, conds.drop_last(), cur);
    }
}

/// Applying an operator never changes the length of a state.
pub proof fn lemma_successor_len(s: Seq<bool>, op: Operator)
    ensures
        successor(s, op).len() == s.len(),
{
    lemma_apply_conds_len(s, op.conditional@, overwrite(overwrite(s, op.add@, true), op.del@, false));
}

/// One byte per position: 1 where the bit is set, 0 where it is clear.
pub open spec fn bit_bytes(s: Seq<bool>) -> Seq<u8> {
    Seq::new(s.len(), |i: int| if s[i] { 1u8 } else { 0u8 })
}

impl State {
    /// The bits as bytes, one per position.
    pub fn to_bytes(&self) -> (v: Vec<u8>)
        ensures
            v@ == bit_bytes(self@),
    {
        let n = bitset_len(&self.0);
        let mut v: Vec<u8> = Vec::new();
        for i in 0..n
            invariant
                n == self@.len(),
                v@ == bit_bytes(self@).take(i as int),
        {
            if bitset_contains(&self.0, i) {
                v.push(1u8);
            } else {
                v.push(0u8);
            }
            assert(v@ =~= bit_bytes(self@).take(i + 1));
        }
        assert(bit_bytes(self@).take(n as int) =~= bit_bytes(self@));
        v
    }

    /// Whether two states have the same length and the same bits.
    pub fn same_bits(&self, other: &State) -> (r: bool)
        ensures
            r == (self@ == other@),
    {
        let n = bitset_len(&self.0);
        if n != bitset_len(&other.0) {
            return false;
        }
        for i in 0..n
            invariant
                n == self@.len(),
                n == other@.len(),
                forall|j: int| 0 <= j < i ==> self@[j] == other@[j],
        {
            if bitset_contains(&self.0, i) != bitset_contains(&other.0, i) {
                return false;
            }
        }
        assert(self@ =~= other@);
        true
    }

    /// Create a new state with the given number of facts, all false.
    pub fn new(size: usize) -> (r: Self)
        ensures
            r@ == Seq::new(size as nat, |i: int| false),
    {
        State(bitset_with_capacity(size))
    }

    /// Create an empty state (zero capacity).
    pub fn empty() -> (r: Self)
        ensures
            r@ == Seq::<bool>::empty(),
    {
        State(bitset_new())
    }

    /// Set or clear a fact in this state; the fact must lie below the length.
    pub fn set(&mut self, id: FactId, value: bool)
        requires
            id.0 < old(self)@.len(),
        ensures
            final(self)@ == old(self)@.update(id.0 as int, value),
    {
        bitset_set(&mut self.0, id.0, value)
    }

    /// Check if a fact is true in this state.
    pub fn contains(&self, id: FactId) -> (r: bool)
        ensures
            r == is_set(self@, id.0 as int),
    {
        bitset_contains(&self.0, id.0)
    }

    /// Returns the number of bits in the bitset.
    pub fn len(&self) -> (n: usize)
        ensures
            n == self@.len(),
    {
        bitset_len(&self.0)
    }

    /// Returns `true` if the bitset has zero capacity.
    pub fn is_empty(&self) -> (r: bool)
        ensures
            r == (self@.len() == 0),
    {
        bitset_len(&self.0) == 0
    }

    /// Check if an operator's preconditions are satisfied in this state.
    pub fn applicable(&self, op: &Operator) -> (r: bool)
        ensures
            r == applicable_in(self@, *op),
    {
        all_set_in(&op.pre_pos, self) && none_set_in(&op.pre_neg, self)
    }

    /// Check if this state satisfies the given goal specification.
    pub fn satisfies(&self, goal_pos: &State, goal_neg: &State) -> (r: bool)
        ensures
            r == satisfies_goal(self@, goal_pos@, goal_neg@),
    {
        all_set_in(goal_pos, self) && none_set_in(goal_neg, self)
    }

    /// Apply an operator to produce the resulting state.
    pub fn apply(&self, op: &Operator) -> (r: Self)
        requires
            effects_fit(self@, *op),
        ensures
            r@ == successor(self@, *op),
    {
        let mut next = self.clone();
        overwrite_bits(&mut next, &op.add, true);
        proof {
            lemma_overwrite_len(self@, op.add@, true);
        }
        overwrite_bits(&mut next, &op.del, false);
        let ghost base = next@;
        let n = op.conditional.len();
        for k in 0..n
            invariant
                n == op.conditional@.len(),
                effects_fit(self@, *op),
                base.len() == self@.len(),
                next@ == apply_conds(self@, op.conditional@.take(k as int), base),
        {
            let cond = &op.conditional[k];
            let holds = all_set_in(&cond.cond_pos, self) && none_set_in(&cond.cond_neg, self);
            proof {
                lemma_apply_conds_len(self@, op.conditional@.take(k as int), base);
                assert(op.conditional@.take(k + 1).drop_last() =~= op.conditional@.take(k as int));
                assert(op.conditional@.take(k + 1).last() == op.conditional@[k as int]);
            }
            if holds {
                assert(cond_holds(self@, op.conditional@[k as int]));
                overwrite_bits(&mut next, &cond.add, true);
                proof {
                    lemma_overwrite_len(
                        apply_conds(self@, op.conditional@.take(k as int), base),
                        cond.add@,
                        true,
                    );
                }
                overwrite_bits(&mut next, &cond.del, false);
            }
        }
        assert(op.conditional@.take(n as int) =~= op.conditional@);
        next
    }
}

/// Metadata about a planning task.
pub struct TaskMeta {
    /// The domain name.
    pub domain_name: String,
    /// The problem name.
    pub problem_name: String,
    /// PDDL requirements used.
    pub requirements: Vec<String>,
}

/// A fully grounded planning task: facts, operators, the initial state and
/// the goal.
pub struct Task {
    /// All grounded facts.
    pub facts: Vec<Fact>,
    /// Maps facts to their IDs.
    pub fact_index: KeyMap<Fact, FactId>,
    /// All grounded operators.
    pub operators: Vec<Operator>,
    /// The initial state.
    pub init: State,
    /// Positive goal facts (must be true).
    pub goal_pos: State,
    /// Negative goal facts (must be false).
    pub goal_neg: State,
    /// Objects in the problem.
    pub objects: Vec<Object>,
    /// Type hierarchy.
    pub types: TypeHierarchy,
    /// Task metadata.
    pub metadata: TaskMeta,
}

/// Every fact an operator reads or writes lies below `n`.
pub open spec fn operator_fits(op: Operator, n: nat) -> bool {
    &&& fits(op.pre_pos@, n)
    &&& fits(op.pre_neg@, n)
    &&& fits(op.add@, n)
    &&& fits(op.del@, n)
    &&& forall|k: int|
        0 <= k < op.conditional@.len() ==> {
            &&& fits((#[trigger] op.conditional@[k]).cond_pos@, n)
            &&& fits(op.conditional@[k].cond_neg@, n)
            &&& fits(op.conditional@[k].add@, n)
            &&& fits(op.conditional@[k].del@, n)
        }
}

impl Task {
    /// The initial state has one bit per fact, and every goal fact and
    /// every fact an operator mentions is a fact of the task.
    pub open spec fn well_formed(&self) -> bool {
        let n = self.facts@.len();
        &&& self.init@.len() == n
        &&& fits(self.goal_pos@, n)
        &&& fits(self.goal_neg@, n)
        &&& forall|k: int|
            0 <= k < self.operators@.len() ==> operator_fits(#[trigger] self.operators@[k], n)
                && self.operators@[k].id.0 == k
    }

    /// The fact index maps exactly the task's facts, each to its position.
    pub open spec fn index_ok(&self) -> bool {
        &&& self.fact_index.wf()
        &&& forall|kv: (Seq<char>, Seq<Seq<char>>)|
            #[trigger] self.fact_index.lookup(kv) matches Some(id) ==> id.0 < self.facts@.len() && self.facts@[id.0 as int]@ == kv
        &&& forall|i: int| 0 <= i < self.facts@.len() ==> self.fact_index.lookup(#[trigger] self.facts@[i]@) == Some(FactId(i as usize))
    }

    /// Look up the ID of a fact.
    pub fn fact_id(&self, fact: &Fact) -> (r: Option<FactId>)
        requires
            self.fact_index.wf(),
        ensures
            r == self.fact_index.lookup(fact@),
    {
        match self.fact_index.get(fact) {
            Some(id) => Some(*id),
            None => None,
        }
    }

    /// The number of facts of the task.
    pub fn num_facts(&self) -> (n: usize)
        ensures
            n == self.facts@.len(),
    {
        self.facts.len()
    }
}

/// A state of a task's length keeps its length and stays inside the task's
/// facts under every operator of the task.
pub proof fn lemma_effects_fit(s: Seq<bool>, op: Operator, n: nat)
    requires
        operator_fits(op, n),
        s.len() == n,
    ensures
        effects_fit(s, op),
        successor(s, op).len() == n,
{
    lemma_successor_len(s, op);
}

} // verus!
