//! A priority queue that hands out an entry of least rank.

use vstd::prelude::*;

verus! {

/// Where entry `j` of a sequence of length `n` stands after the entry at
/// `i` is replaced by the last one and the last position is dropped.
pub open spec fn moved(i: int, n: int, j: int) -> int {
    if j == n - 1 { i } else { j }
}

/// Where entry `j` after such a removal came from.
pub open spec fn origin(i: int, n: int, j: int) -> int {
    if j == i { n - 1 } else { j }
}

/// Entries with a rank; `pop_min` removes one of least rank.
pub struct MinQueue<T> {
    pub entries: Vec<(u128, T)>,
}

impl<T> MinQueue<T> {
    pub fn new() -> (q: Self)
        ensures
            q.entries@.len() == 0,
    {
        MinQueue { entries: Vec::new() }
    }

    pub fn is_empty(&self) -> (r: bool)
        ensures
            r == (self.entries@.len() == 0),
    {
        self.entries.len() == 0
    }

    pub fn push(&mut self, rank: u128, item: T)
        ensures
            final(self).entries@ == old(self).entries@.push((rank, item)),
    {
        self.entries.push((rank, item));
    }

    /// The least rank held, if any.
    pub fn peek_rank(&self) -> (r: Option<u128>)
        ensures
            match r {
                None => self.entries@.len() == 0,
                Some(k) => self.entries@.len() > 0 && (exists|i: int|
                    0 <= i < self.entries@.len() && self.entries@[i].0 == k) && forall|j: int|
                    0 <= j < self.entries@.len() ==> k <= (#[trigger] self.entries@[j]).0,
            },
    {
        let n = self.entries.len();
        if n == 0 {
            return None;
        }
        let mut best: usize = 0;
        for j in 1..n
            invariant
                n == self.entries@.len(),
                best < n,
                forall|k: int| 0 <= k < j ==> self.entries@[best as int].0 <= (#[trigger] self.entries@[k]).0,
        {
            if self.entries[j].0 < self.entries[best].0 {
                best = j;
            }
        }
        Some(self.entries[best].0)
    }

    /// Removes and returns the first entry of least rank.
    pub fn pop_min(&mut self) -> (r: Option<(u128, T)>)
        ensures
            match r {
                None => old(self).entries@.len() == 0 && final(self).entries@ == old(self).entries@,
                Some(e) => {
                    let n = old(self).entries@.len() as int;
                    &&& n > 0
                    &&& final(self).entries@.len() == n - 1
                    &&& exists|i: int|
                        0 <= i < n && old(self).entries@[i] == e && (forall|j: int|
                            0 <= j < n && j != i ==> final(self).entries@[moved(i, n, j)] == old(
                                self,
                            ).entries@[j]) && (forall|j: int|
                            0 <= j < n - 1 ==> final(self).entries@[j] == old(self).entries@[origin(
                                i,
                                n,
                                j,
                            )] && origin(i, n, j) != i)
                    &&& forall|j: int| 0 <= j < n ==> e.0 <= (#[trigger] old(self).entries@[j]).0
                },
            },
    {
        let n = self.entries.len();
        if n == 0 {
            return None;
        }
        let mut best: usize = 0;
        for j in 1..n
            invariant
                n == self.entries@.len(),
                best < n,
                forall|k: int| 0 <= k < j ==> self.entries@[best as int].0 <= (#[trigger] self.entries@[k]).0,
        {
            if self.entries[j].0 < self.entries[best].0 {
                best = j;
            }
        }
        let ghost before = self.entries@;
        let e = self.entries.swap_remove(best);
        proof {
            let i = best as int;
            assert(before[i] == e);
            assert forall|j: int| 0 <= j < n && j != i implies self.entries@[moved(i, n as int, j)] == before[j] by {}
            assert forall|j: int| 0 <= j < n - 1 implies self.entries@[j] == before[origin(i, n as int, j)]
                && origin(i, n as int, j) != i by {}
        }
        Some(e)
    }
}

/// The rank of an optional cost: a known cost ranks by its value, an
/// unknown (infinite) one above every known one.
pub open spec fn cost_rank(o: Option<u64>) -> u128 {
    match o {
        Some(v) => v as u128,
        None => 0x1_0000_0000_0000_0000u128,
    }
}

pub fn rank_of(o: Option<u64>) -> (r: u128)
    ensures
        r == cost_rank(o),
{
    match o {
        Some(v) => v as u128,
        None => 0x1_0000_0000_0000_0000u128,
    }
}

/// A property of every entry still holds of every entry left after a
/// removal, and of the removed one.
pub proof fn lemma_removal_keeps<T>(
    before: Seq<(u128, T)>,
    after: Seq<(u128, T)>,
    e: (u128, T),
    p: spec_fn((u128, T)) -> bool,
)
    requires
        after.len() == before.len() - 1,
        exists|i: int|
            0 <= i < before.len() && before[i] == e && forall|j: int|
                0 <= j < before.len() - 1 ==> after[j] == before[origin(i, before.len() as int, j)] && origin(
                    i,
                    before.len() as int,
                    j,
                ) != i,
        forall|q: int| 0 <= q < before.len() ==> p(#[trigger] before[q]),
    ensures
        forall|q: int| 0 <= q < after.len() ==> p(#[trigger] after[q]),
        p(e),
{
    let i = choose|i: int|
        0 <= i < before.len() && before[i] == e && forall|j: int|
            0 <= j < before.len() - 1 ==> after[j] == before[origin(i, before.len() as int, j)] && origin(
                i,
                before.len() as int,
                j,
            ) != i;
    assert(p(before[i]));
    assert forall|q: int| 0 <= q < after.len() implies p(#[trigger] after[q]) by {
        assert(after[q] == before[origin(i, before.len() as int, q)]);
        assert(p(before[origin(i, before.len() as int, q)]));
    }
}

} // verus!
