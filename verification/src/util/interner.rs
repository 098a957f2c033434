//! A string interner: each distinct string gets a dense id, in order of
//! first interning.

use vstd::prelude::*;
use crate::table::KeyMap;
use crate::task::strings_view;

verus! {

/// The strings interned so far, and the id interning `s` gives: its
/// position when it is already there, else the next position after
/// appending it.
pub open spec fn interned(v: Seq<Seq<char>>, s: Seq<char>) -> (Seq<Seq<char>>, nat) {
    if v.contains(s) {
        (v, choose|i: nat| i < v.len() && v[i as int] == s)
    } else {
        (v.push(s), v.len())
    }
}

/// Maps strings to dense ids and back.
pub struct Interner {
    map: KeyMap<String, usize>,
    rev: Vec<String>,
}

impl View for Interner {
    type V = Seq<Seq<char>>;

    /// The interned strings, by id.
    closed spec fn view(&self) -> Seq<Seq<char>> {
        strings_view(self.rev@)
    }
}

impl Interner {
    /// The map holds each interned string once, with its id.
    pub closed spec fn wf(&self) -> bool {
        &&& self.map.wf()
        &&& self.map.keys() == strings_view(self.rev@)
        &&& forall|i: int| 0 <= i < self.map.values().len() ==> #[trigger] self.map.values()[i] == i
    }

    /// An empty interner.
    pub fn new() -> (r: Self)
        ensures
            r.wf(),
            r@ == Seq::<Seq<char>>::empty(),
    {
        let r = Interner { map: KeyMap::new(), rev: Vec::new() };
        assert(strings_view(r.rev@) =~= Seq::<Seq<char>>::empty());
        assert(r.map.keys() =~= strings_view(r.rev@));
        r
    }

    /// The id of a string, interning it first when it is new.
    pub fn intern(&mut self, s: &str) -> (id: usize)
        requires
            old(self).wf(),
        ensures
            final(self).wf(),
            (final(self)@, id as nat) == interned(old(self)@, s@),
    {
        proof {
            self.map.lemma_keys_distinct();
        }
        let key = s.to_owned();
        match self.map.get(&key) {
            Some(id) => {
                let id = *id;
                proof {
                    let p = self.map.position(s@)->0;
                    assert(self.map.keys()[p] == s@);
                    assert(self@.contains(s@));
                    let c = choose|i: nat| i < self@.len() && self@[i as int] == s@;
                    assert(self.map.keys()[c as int] == s@);
                    assert(c as int == p);
                }
                id
            },
            None => {
                let id = self.rev.len();
                proof {
                    assert(!self@.contains(s@)) by {
                        if self@.contains(s@) {
                            let i = choose|i: int| 0 <= i < self@.len() && self@[i] == s@;
                            assert(self.map.keys()[i] == s@);
                        }
                    }
                }
                let ghost before = self.rev@;
                self.map.insert(key, id);
                self.rev.push(s.to_owned());
                proof {
                    assert(strings_view(self.rev@) =~= strings_view(before).push(s@));
                }
                id
            },
        }
    }

    /// The string with a given id; the id must have been given out.
    pub fn resolve(&self, id: usize) -> (r: &str)
        requires
            id < self@.len(),
        ensures
            r@ == self@[id as int],
    {
        self.rev[id].as_str()
    }

    /// The number of interned strings.
    pub fn len(&self) -> (n: usize)
        ensures
            n == self@.len(),
    {
        self.rev.len()
    }

    /// Whether nothing is interned.
    pub fn is_empty(&self) -> (r: bool)
        ensures
            r == (self@.len() == 0),
    {
        self.rev.len() == 0
    }
}

impl Default for Interner {
    /// An empty interner.
    fn default() -> (r: Self)
        ensures
            r.wf(),
            r@ == Seq::<Seq<char>>::empty(),
    {
        Interner::new()
    }
}

/// Resolving the id that interning gives returns the interned string.
pub proof fn lemma_resolve_interned(v: Seq<Seq<char>>, s: Seq<char>)
    ensures
        interned(v, s).1 < interned(v, s).0.len(),
        interned(v, s).0[interned(v, s).1 as int] == s,
{
    if v.contains(s) {
        let i = choose|i: int| 0 <= i < v.len() && v[i] == s;
        assert(v[i as nat as int] == s);
    }
}

/// Interning a string again changes nothing and gives the same id.
pub proof fn lemma_intern_idempotent(v: Seq<Seq<char>>, s: Seq<char>)
    ensures
        interned(interned(v, s).0, s) == interned(v, s),
{
    lemma_resolve_interned(v, s);
    if !v.contains(s) {
        let w = v.push(s);
        assert(w[v.len() as int] == s);
        assert(w.contains(s));
        let c = choose|i: nat| i < w.len() && w[i as int] == s;
        if c < v.len() {
            assert(v[c as int] == s);
            assert(false);
        }
    }
}

/// Interning never forgets or reorders what was interned before.
pub proof fn lemma_intern_keeps(v: Seq<Seq<char>>, s: Seq<char>)
    ensures
        interned(v, s).0.len() >= v.len(),
        forall|i: int| 0 <= i < v.len() ==> #[trigger] interned(v, s).0[i] == v[i],
{
}

} // verus!
