//! Hashed indexes from keys (states, subgoals, facts) to dense positions.
//!
//! Each key kind gives a deterministic 64-bit digest of its abstract value;
//! the table keeps every key once, in insertion order, and finds a key by
//! scanning only the positions that share its digest.

use vstd::prelude::*;
use std::collections::HashMap;
use std::collections::hash_map::DefaultHasher;
use std::hash::Hasher;
use crate::task::{State, Fact, bit_bytes};

verus! {

/// A key that can be stored in an [`IndexTable`].
pub trait TableKey: Sized {
    /// The abstract value that decides when two keys are the same.
    type KV;

    spec fn key_view(&self) -> Self::KV;

    /// The digest of an abstract value.
    spec fn key_digest(v: Self::KV) -> u64;

    fn digest(&self) -> (h: u64)
        ensures
            h == Self::key_digest(self.key_view()),
    ;

    fn same_key(&self, other: &Self) -> (r: bool)
        ensures
            r == (self.key_view() == other.key_view()),
    ;
}

/// Keys stored once each, in insertion order, with a digest index.
pub struct IndexTable<K> {
    keys: Vec<K>,
    buckets: HashMap<u64, Vec<usize>>,
}

impl<K: TableKey> IndexTable<K> {
    /// The abstract values of the stored keys, by position.
    pub closed spec fn entries(&self) -> Seq<K> {
        self.keys@
    }

    /// The stored key at a position.
    pub fn get(&self, i: usize) -> (k: &K)
        requires
            i < self.entries().len(),
        ensures
            *k == self.entries()[i as int],
    {
        &self.keys[i]
    }

    /// The digest index is consistent with the stored keys, and no key is
    /// stored twice.
    pub closed spec fn wf(&self) -> bool {
        &&& forall|i: int|
            0 <= i < self.keys@.len() ==> {
                let h = K::key_digest(#[trigger] self.keys@[i].key_view());
                self.buckets@.contains_key(h) && exists|j: int|
                    0 <= j < self.buckets@[h]@.len() && self.buckets@[h]@[j] as int == i
            }
        &&& forall|h: u64, j: int|
            #![trigger self.buckets@[h]@[j]]
            self.buckets@.contains_key(h) && 0 <= j < self.buckets@[h]@.len() ==> {
                &&& self.buckets@[h]@[j] < self.keys@.len()
                &&& K::key_digest(self.keys@[self.buckets@[h]@[j] as int].key_view()) == h
            }
        &&& forall|i: int, j: int|
            0 <= i < self.keys@.len() && 0 <= j < self.keys@.len() && i != j
                ==> #[trigger] self.keys@[i].key_view() != #[trigger] self.keys@[j].key_view()
    }

    /// No key is stored twice.
    pub proof fn lemma_entries_distinct(&self)
        requires
            self.wf(),
        ensures
            forall|i: int, j: int|
                0 <= i < self.entries().len() && 0 <= j < self.entries().len() && i != j
                    ==> #[trigger] self.entries()[i].key_view() != #[trigger] self.entries()[j].key_view(),
    {
    }

    pub fn new() -> (t: Self)
        ensures
            t.wf(),
            t.entries().len() == 0,
    {
        IndexTable { keys: Vec::new(), buckets: HashMap::new() }
    }

    pub fn len(&self) -> (n: usize)
        ensures
            n == self.entries().len(),
    {
        self.keys.len()
    }

    /// The position of a key with the same abstract value, if one is stored.
    pub fn find(&self, k: &K) -> (r: Option<usize>)
        requires
            self.wf(),
        ensures
            match r {
                Some(i) => i < self.entries().len() && self.entries()[i as int].key_view()
                    == k.key_view(),
                None => forall|i: int|
                    0 <= i < self.entries().len() ==> #[trigger] self.entries()[i].key_view()
                        != k.key_view(),
            },
    {
        let h = k.digest();
        match self.buckets.get(&h) {
            None => {
                assert forall|i: int| 0 <= i < self.keys@.len() implies #[trigger] self.keys@[i].key_view()
                    != k.key_view() by {
                    if self.keys@[i].key_view() == k.key_view() {
                        assert(self.buckets@.contains_key(h));
                    }
                }
                None
            },
            Some(bucket) => {
                let n = bucket.len();
                for j in 0..n
                    invariant
                        n == bucket@.len(),
                        self.wf(),
                        self.buckets@.contains_key(h),
                        self.buckets@[h] == *bucket,
                        h == K::key_digest(k.key_view()),
                        forall|jj: int|
                            0 <= jj < j ==> self.keys@[#[trigger] bucket@[jj] as int].key_view()
                                != k.key_view(),
                {
                    let idx = bucket[j];
                    assert(self.buckets@[h]@[j as int] == idx);
                    if self.keys[idx].same_key(k) {
                        return Some(idx);
                    }
                }
                assert forall|i: int| 0 <= i < self.keys@.len() implies #[trigger] self.keys@[i].key_view()
                    != k.key_view() by {
                    if self.keys@[i].key_view() == k.key_view() {
                        let jj = choose|jj: int| 0 <= jj < bucket@.len() && bucket@[jj] as int == i;
                        assert(self.keys@[bucket@[jj] as int].key_view() != k.key_view());
                        assert(false);
                    }
                }
                None
            },
        }
    }

    /// Stores a key that is not yet stored, at the next position.
    pub fn insert(&mut self, k: K) -> (idx: usize)
        requires
            old(self).wf(),
            forall|i: int|
                0 <= i < old(self).entries().len() ==> #[trigger] old(self).entries()[i].key_view()
                    != k.key_view(),
        ensures
            final(self).wf(),
            idx == old(self).entries().len(),
            final(self).entries() == old(self).entries().push(k),
    {
        let h = k.digest();
        let idx = self.keys.len();
        let ghost old_keys = self.keys@;
        let ghost old_buckets = self.buckets@;
        let mut bucket = match self.buckets.remove(&h) {
            Some(b) => b,
            None => Vec::new(),
        };
        proof {
            if old_buckets.contains_key(h) {
                assert(bucket == old_buckets[h]);
            } else {
                assert(bucket@ == Seq::<usize>::empty());
            }
        }
        let ghost old_bucket = bucket@;
        bucket.push(idx);
        self.buckets.insert(h, bucket);
        self.keys.push(k);
        proof {
            assert(self.buckets@ == old_buckets.insert(h, bucket));
            assert forall|i: int| 0 <= i < self.keys@.len() implies {
                let hh = K::key_digest(#[trigger] self.keys@[i].key_view());
                self.buckets@.contains_key(hh) && exists|j: int|
                    0 <= j < self.buckets@[hh]@.len() && self.buckets@[hh]@[j] as int == i
            } by {
                let hh = K::key_digest(self.keys@[i].key_view());
                if i == idx as int {
                    assert(bucket@[old_bucket.len() as int] == idx);
                    assert(self.buckets@[hh]@[old_bucket.len() as int] as int == i);
                } else {
                    assert(self.keys@[i] == old_keys[i]);
                    assert(old_buckets.contains_key(hh));
                    let j = choose|j: int|
                        0 <= j < old_buckets[hh]@.len() && old_buckets[hh]@[j] as int == i;
                    if hh == h {
                        assert(bucket@[j] as int == i);
                        assert(self.buckets@[hh]@[j] as int == i);
                    } else {
                        assert(self.buckets@[hh] == old_buckets[hh]);
                        assert(self.buckets@[hh]@[j] as int == i);
                    }
                }
            }
            assert forall|hh: u64, j: int|
                self.buckets@.contains_key(hh) && 0 <= j < self.buckets@[hh]@.len() implies {
                &&& #[trigger] self.buckets@[hh]@[j] < self.keys@.len()
                &&& K::key_digest(self.keys@[self.buckets@[hh]@[j] as int].key_view()) == hh
            } by {
                if hh == h {
                    if j < old_bucket.len() {
                        assert(old_buckets[h]@[j] == self.buckets@[hh]@[j]);
                    }
                } else {
                    assert(old_buckets[hh]@[j] == self.buckets@[hh]@[j]);
                }
            }
            assert forall|i: int, j: int|
                0 <= i < self.keys@.len() && 0 <= j < self.keys@.len() && i != j
                implies #[trigger] self.keys@[i].key_view() != #[trigger] self.keys@[j].key_view() by {
                if i < old_keys.len() && j < old_keys.len() {
                    assert(self.keys@[i] == old_keys[i]);
                    assert(self.keys@[j] == old_keys[j]);
                } else if i < old_keys.len() {
                    assert(self.keys@[i] == old_keys[i]);
                    assert(old_keys[i] == old(self).entries()[i]);
                } else {
                    assert(self.keys@[j] == old_keys[j]);
                    assert(old_keys[j] == old(self).entries()[j]);
                }
            }
        }
        idx
    }
}

/// The digest of a sequence of writes, as `DefaultHasher` computes it.
pub open spec fn writes_digest(writes: Seq<Seq<u8>>) -> u64 {
    <DefaultHasher as vstd::std_specs::hash::DefaultHasherAdditionalSpecFns>::spec_finish(writes)
}

/// Digests a sequence of byte strings, each written separately.
pub fn digest_writes(writes: &Vec<Vec<u8>>) -> (h: u64)
    ensures
        h == writes_digest(writes@.map_values(|w: Vec<u8>| w@)),
{
    let mut hasher = DefaultHasher::new();
    let n = writes.len();
    for k in 0..n
        invariant
            n == writes@.len(),
            hasher@ == writes@.take(k as int).map_values(|w: Vec<u8>| w@),
    {
        hasher.write(writes[k].as_slice());
        assert(writes@.take(k + 1).map_values(|w: Vec<u8>| w@) =~= writes@.take(k as int).map_values(
            |w: Vec<u8>| w@,
        ).push(writes@[k as int]@));
    }
    assert(writes@.take(n as int) =~= writes@);
    hasher.finish()
}


/// The sum of a sequence of costs.
pub open spec fn cost_sum(s: Seq<u64>) -> nat
    decreases s.len(),
{
    if s.len() == 0 {
        0
    } else {
        cost_sum(s.drop_last()) + s.last() as nat
    }
}

/// Replacing one cost changes the sum by the difference.
pub proof fn lemma_cost_sum_update(s: Seq<u64>, i: int, v: u64)
    requires
        0 <= i < s.len(),
    ensures
        cost_sum(s.update(i, v)) + s[i] == cost_sum(s) + v,
    decreases s.len(),
{
    let u = s.update(i, v);
    if i == s.len() - 1 {
        assert(u.drop_last() =~= s.drop_last());
    } else {
        assert(u.drop_last() =~= s.drop_last().update(i, v));
        lemma_cost_sum_update(s.drop_last(), i, v);
    }
}

/// A map from keys to values: a key table plus one value per stored key.
pub struct KeyMap<K, V> {
    table: IndexTable<K>,
    values: Vec<V>,
}

impl<K: TableKey, V> KeyMap<K, V> {
    /// The abstract values of the stored keys, in insertion order.
    pub closed spec fn keys(&self) -> Seq<K::KV> {
        self.table.entries().map_values(|k: K| k.key_view())
    }

    /// The value stored for each key, by position.
    pub closed spec fn values(&self) -> Seq<V> {
        self.values@
    }

    pub closed spec fn wf(&self) -> bool {
        self.table.wf() && self.values@.len() == self.table.entries().len()
    }

    /// The position of an abstract key, if stored.
    pub open spec fn position(&self, kv: K::KV) -> Option<int> {
        if exists|i: int| 0 <= i < self.keys().len() && self.keys()[i] == kv {
            Some(choose|i: int| 0 <= i < self.keys().len() && self.keys()[i] == kv)
        } else {
            None
        }
    }

    /// The value stored for an abstract key, if any.
    pub open spec fn lookup(&self, kv: K::KV) -> Option<V> {
        match self.position(kv) {
            Some(i) => Some(self.values()[i]),
            None => None,
        }
    }

    /// No key is stored twice.
    pub proof fn lemma_keys_distinct(&self)
        requires
            self.wf(),
        ensures
            self.keys().len() == self.values().len(),
            forall|i: int, j: int|
                0 <= i < self.keys().len() && 0 <= j < self.keys().len() && i != j
                    ==> #[trigger] self.keys()[i] != #[trigger] self.keys()[j],
    {
        assert forall|i: int, j: int|
            0 <= i < self.keys().len() && 0 <= j < self.keys().len() && i != j
                implies #[trigger] self.keys()[i] != #[trigger] self.keys()[j] by {
            assert(self.keys()[i] == self.table.keys@[i].key_view());
            assert(self.keys()[j] == self.table.keys@[j].key_view());
        }
    }

    pub fn new() -> (m: Self)
        ensures
            m.wf(),
            m.keys().len() == 0,
            m.values().len() == 0,
    {
        KeyMap { table: IndexTable::new(), values: Vec::new() }
    }

    pub fn len(&self) -> (n: usize)
        requires
            self.wf(),
        ensures
            n == self.keys().len(),
    {
        self.values.len()
    }

    /// The value stored for a key, with its position.
    pub fn get(&self, k: &K) -> (r: Option<&V>)
        requires
            self.wf(),
        ensures
            match r {
                Some(v) => self.lookup(k.key_view()) == Some(*v),
                None => self.lookup(k.key_view()) is None,
            },
    {
        proof {
            self.lemma_keys_distinct();
        }
        match self.table.find(k) {
            Some(i) => {
                assert(self.keys()[i as int] == k.key_view());
                let ghost p = choose|p: int| 0 <= p < self.keys().len() && self.keys()[p] == k.key_view();
                assert(p == i as int);
                Some(&self.values[i])
            },
            None => {
                assert forall|i: int| 0 <= i < self.keys().len() implies self.keys()[i] != k.key_view() by {
                    assert(self.keys()[i] == self.table.entries()[i].key_view());
                }
                None
            },
        }
    }

    /// Stores `v` for `k`, replacing the value of an equal key if one is stored.
    pub fn insert(&mut self, k: K, v: V)
        requires
            old(self).wf(),
        ensures
            final(self).wf(),
            old(self).position(k.key_view()) is Some ==> {
                &&& final(self).keys() == old(self).keys()
                &&& final(self).values() == old(self).values().update(
                    old(self).position(k.key_view())->0,
                    v,
                )
            },
            old(self).position(k.key_view()) is None ==> {
                &&& final(self).keys() == old(self).keys().push(k.key_view())
                &&& final(self).values() == old(self).values().push(v)
            },
    {
        proof {
            old(self).lemma_keys_distinct();
        }
        match self.table.find(&k) {
            Some(i) => {
                assert(self.keys()[i as int] == k.key_view());
                let ghost p = choose|p: int| 0 <= p < self.keys().len() && self.keys()[p] == k.key_view();
                assert(p == i as int);
                self.values.set(i, v);
            },
            None => {
                assert forall|i: int| 0 <= i < self.keys().len() implies self.keys()[i] != k.key_view() by {
                    assert(self.keys()[i] == self.table.entries()[i].key_view());
                }
                let ghost kv = k.key_view();
                self.table.insert(k);
                self.values.push(v);
                assert(self.keys() =~= old(self).keys().push(kv));
            },
        }
    }
}

/// Storing a cost below the known one, or for a new key, either adds a key
/// or lowers the sum of the stored costs.
pub proof fn lemma_insert_measure<K: TableKey>(before: &KeyMap<K, u64>, after: &KeyMap<K, u64>, kv: K::KV, v: u64)
    requires
        before.wf(),
        before.position(kv) is Some ==> {
            &&& after.keys() == before.keys()
            &&& after.values() == before.values().update(before.position(kv)->0, v)
        },
        before.position(kv) is None ==> {
            &&& after.keys() == before.keys().push(kv)
            &&& after.values() == before.values().push(v)
        },
        before.lookup(kv) is Some ==> v < before.lookup(kv)->0,
    ensures
        after.keys().len() >= before.keys().len(),
        after.keys().len() == before.keys().len() ==> cost_sum(after.values()) < cost_sum(before.values()),
{
    before.lemma_keys_distinct();
    if before.position(kv) is Some {
        let p = before.position(kv)->0;
        lemma_cost_sum_update(before.values(), p, v);
    }
}

/// The sum of the first components of a sequence of pairs of costs.
pub open spec fn first_sum(s: Seq<(u64, u64)>) -> nat {
    cost_sum(s.map_values(|p: (u64, u64)| p.0))
}

/// Storing a pair whose first cost is below the known one, or for a new
/// key, either adds a key or lowers the sum of the stored first costs.
pub proof fn lemma_insert_pair_measure<K: TableKey>(
    before: &KeyMap<K, (u64, u64)>,
    after: &KeyMap<K, (u64, u64)>,
    kv: K::KV,
    v: (u64, u64),
)
    requires
        before.wf(),
        before.position(kv) is Some ==> {
            &&& after.keys() == before.keys()
            &&& after.values() == before.values().update(before.position(kv)->0, v)
        },
        before.position(kv) is None ==> {
            &&& after.keys() == before.keys().push(kv)
            &&& after.values() == before.values().push(v)
        },
        before.lookup(kv) is Some ==> v.0 < (before.lookup(kv)->0).0,
    ensures
        after.keys().len() >= before.keys().len(),
        after.keys().len() == before.keys().len() ==> first_sum(after.values()) < first_sum(before.values()),
{
    before.lemma_keys_distinct();
    if before.position(kv) is Some {
        let p = before.position(kv)->0;
        let f = |x: (u64, u64)| x.0;
        assert(after.values().map_values(f) =~= before.values().map_values(f).update(p, v.0));
        lemma_cost_sum_update(before.values().map_values(f), p, v.0);
    }
}

impl TableKey for State {
    type KV = Seq<bool>;

    open spec fn key_view(&self) -> Seq<bool> {
        self@
    }

    open spec fn key_digest(v: Seq<bool>) -> u64 {
        writes_digest(seq![bit_bytes(v)])
    }

    fn digest(&self) -> (h: u64) {
        let writes = vec![self.to_bytes()];
        assert(writes@.map_values(|w: Vec<u8>| w@) =~= seq![bit_bytes(self@)]);
        digest_writes(&writes)
    }

    fn same_key(&self, other: &Self) -> (r: bool) {
        self.same_bits(other)
    }
}

/// A regression subgoal: facts that must hold and facts that must not.
pub struct Subgoal {
    pub pos: State,
    pub neg: State,
}

impl Clone for Subgoal {
    fn clone(&self) -> (r: Self)
        ensures
            r.pos@ == self.pos@,
            r.neg@ == self.neg@,
    {
        Subgoal { pos: self.pos.clone(), neg: self.neg.clone() }
    }
}

impl TableKey for Subgoal {
    type KV = (Seq<bool>, Seq<bool>);

    open spec fn key_view(&self) -> (Seq<bool>, Seq<bool>) {
        (self.pos@, self.neg@)
    }

    open spec fn key_digest(v: (Seq<bool>, Seq<bool>)) -> u64 {
        writes_digest(seq![bit_bytes(v.0), bit_bytes(v.1)])
    }

    fn digest(&self) -> (h: u64) {
        let writes = vec![self.pos.to_bytes(), self.neg.to_bytes()];
        assert(writes@.map_values(|w: Vec<u8>| w@) =~= seq![bit_bytes(self.pos@), bit_bytes(self.neg@)]);
        digest_writes(&writes)
    }

    fn same_key(&self, other: &Self) -> (r: bool) {
        self.pos.same_bits(&other.pos) && self.neg.same_bits(&other.neg)
    }
}


impl TableKey for Fact {
    type KV = (Seq<char>, Seq<Seq<char>>);

    open spec fn key_view(&self) -> (Seq<char>, Seq<Seq<char>>) {
        self@
    }

    open spec fn key_digest(v: (Seq<char>, Seq<Seq<char>>)) -> u64 {
        writes_digest(
            seq![vstd::utf8::encode_utf8(v.0)] + v.1.map_values(|a: Seq<char>| vstd::utf8::encode_utf8(a)),
        )
    }

    fn digest(&self) -> (h: u64) {
        let mut hasher = DefaultHasher::new();
        hasher.write(self.predicate.as_str().as_bytes());
        let n = self.args.len();
        for i in 0..n
            invariant
                n == self.args@.len(),
                hasher@ == seq![vstd::utf8::encode_utf8(self.predicate@)] + self.args@.take(
                    i as int,
                ).map_values(|a: String| vstd::utf8::encode_utf8(a@)),
        {
            hasher.write(self.args[i].as_str().as_bytes());
            assert(self.args@.take(i + 1).map_values(|a: String| vstd::utf8::encode_utf8(a@))
                =~= self.args@.take(i as int).map_values(|a: String| vstd::utf8::encode_utf8(a@)).push(
                vstd::utf8::encode_utf8(self.args@[i as int]@),
            ));
        }
        assert(self.args@.take(n as int) =~= self.args@);
        assert(self.args@.map_values(|a: String| vstd::utf8::encode_utf8(a@)) =~= self@.1.map_values(
            |a: Seq<char>| vstd::utf8::encode_utf8(a),
        ));
        hasher.finish()
    }

    fn same_key(&self, other: &Self) -> (r: bool) {
        if self.predicate != other.predicate {
            return false;
        }
        let n = self.args.len();
        if n != other.args.len() {
            assert(self@.1.len() != other@.1.len());
            return false;
        }
        for i in 0..n
            invariant
                n == self.args@.len(),
                n == other.args@.len(),
                forall|j: int| 0 <= j < i ==> self.args@[j]@ == other.args@[j]@,
        {
            if self.args[i] != other.args[i] {
                assert(self@.1[i as int] != other@.1[i as int]);
                return false;
            }
        }
        assert(self@.1 =~= other@.1);
        true
    }
}

impl TableKey for String {
    type KV = Seq<char>;

    open spec fn key_view(&self) -> Seq<char> {
        self@
    }

    open spec fn key_digest(v: Seq<char>) -> u64 {
        writes_digest(seq![vstd::utf8::encode_utf8(v)])
    }

    fn digest(&self) -> (h: u64) {
        let mut hasher = DefaultHasher::new();
        hasher.write(self.as_str().as_bytes());
        assert(hasher@ =~= seq![vstd::utf8::encode_utf8(self@)]);
        hasher.finish()
    }

    fn same_key(&self, other: &Self) -> (r: bool) {
        *self == *other
    }
}

} // verus!
