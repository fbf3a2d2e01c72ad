//! The response correlator: a table mapping in-flight request identifiers to
//! single-use reply channels.
//!
//! The table owns one entry per outstanding request. Each identifier appears
//! at most once, and an entry leaves the table exactly once: when a matching
//! reply arrives (`resolve`), when its caller's wait times out (`expire`), or
//! when the bridge is torn down (`take_all`).
use crate::text::chars_eq;
use vstd::map::*;
use vstd::prelude::*;

verus! {

/// The pending-request table. `T` is the reply channel of the embedding
/// runtime; the table only stores and hands back such channels, it never
/// invokes them.
pub struct PendingTable<T> {
    pub entries: Vec<(Vec<char>, T)>,
}

impl<T> PendingTable<T> {
    /// The identifier of the entry at index `i`.
    pub open spec fn key_at(self, i: int) -> Seq<char> {
        self.entries@[i].0@
    }

    /// Each identifier appears at most once.
    pub open spec fn wf(self) -> bool {
        forall|i: int, j: int|
            0 <= i < j < self.entries@.len() ==> self.key_at(i) != self.key_at(j)
    }

    /// Whether an entry for `k` is outstanding.
    pub open spec fn has_key(self, k: Seq<char>) -> bool {
        exists|i: int| 0 <= i < self.entries@.len() && self.key_at(i) == k
    }

    /// The index of the entry for `k`, when one is outstanding.
    pub open spec fn index_of(self, k: Seq<char>) -> int {
        choose|i: int| 0 <= i < self.entries@.len() && self.key_at(i) == k
    }

    /// The table as a mapping from identifiers to channels.
    pub open spec fn as_map(self) -> Map<Seq<char>, T> {
        Map::new(
            |k: Seq<char>| self.has_key(k),
            |k: Seq<char>| self.entries@[self.index_of(k)].1,
        )
    }

    /// The number of outstanding requests.
    pub open spec fn count(self) -> nat {
        self.entries@.len()
    }

    /// In a well-formed table the index of an outstanding key is unique.
    proof fn lemma_index_of(self, k: Seq<char>)
        requires
            self.wf(),
            self.has_key(k),
        ensures
            0 <= self.index_of(k) < self.entries@.len(),
            self.key_at(self.index_of(k)) == k,
            forall|i: int|
                0 <= i < self.entries@.len() && self.key_at(i) == k ==> i == self.index_of(k),
    {
        let w = choose|i: int| 0 <= i < self.entries@.len() && self.key_at(i) == k;
        assert(0 <= w < self.entries@.len() && self.key_at(w) == k);
    }

    /// An empty table.
    pub fn new() -> (r: Self)
        ensures
            r.wf(),
            r.count() == 0,
            r.as_map() == Map::<Seq<char>, T>::empty(),
    {
        let r = PendingTable { entries: Vec::new() };
        proof {
            let e = Map::<Seq<char>, T>::empty();
            assert_maps_equal!(r.as_map(), e);
        }
        r
    }

    /// The number of outstanding requests.
    pub fn len(&self) -> (r: usize)
        ensures
            r == self.count(),
    {
        self.entries.len()
    }

    /// Whether an entry for `id` is outstanding.
    pub fn contains(&self, id: &[char]) -> (r: bool)
        ensures
            r == self.has_key(id@),
    {
        let mut i: usize = 0;
        while i < self.entries.len()
            invariant
                i <= self.entries@.len(),
                forall|j: int| 0 <= j < i ==> self.key_at(j) != id@,
            decreases self.entries@.len() - i,
        {
            if chars_eq(self.entries[i].0.as_slice(), id) {
                proof {
                    assert(self.key_at(i as int) == id@);
                }
                return true;
            }
            i += 1;
        }
        false
    }

    /// Inserts a new single-use channel for `id`. If an entry for `id` is
    /// already outstanding, the table is left unchanged and the channel is
    /// handed back.
    pub fn register(&mut self, id: Vec<char>, chan: T) -> (r: Result<(), T>)
        requires
            old(self).wf(),
        ensures
            final(self).wf(),
            old(self).has_key(id@) ==> *final(self) == *old(self) && (r matches Err(c) && c == chan),
            !old(self).has_key(id@) ==> (r matches Ok(u) && u == ()) && final(self).count()
                == old(self).count() + 1 && final(self).as_map() == old(self).as_map().insert(
                id@,
                chan,
            ),
    {
        if self.contains(id.as_slice()) {
            return Err(chan);
        }
        let ghost olds = *self;
        let n = self.entries.len();
        self.entries.push((id, chan));
        proof {
            let news = *self;
            assert(forall|i: int| 0 <= i < n ==> news.key_at(i) == olds.key_at(i));
            assert(news.key_at(n as int) == id@);
            assert forall|k: Seq<char>| true implies {
                (news.has_key(k) <==> olds.has_key(k) || k == id@)
            } by {
                if news.has_key(k) {
                    let i = choose|i: int| 0 <= i < news.entries@.len() && news.key_at(i) == k;
                    if i < n {
                        assert(olds.key_at(i) == k);
                    }
                }
                if olds.has_key(k) {
                    let i = choose|i: int| 0 <= i < olds.entries@.len() && olds.key_at(i) == k;
                    assert(news.key_at(i) == k);
                }
            }
            assert(news.wf());
            news.lemma_index_of(id@);
            assert_maps_equal!(news.as_map(), olds.as_map().insert(id@, chan), k => {
                if news.has_key(k) {
                    news.lemma_index_of(k);
                    if k == id@ {
                        assert(news.index_of(k) == n);
                    } else {
                        olds.lemma_index_of(k);
                        assert(news.index_of(k) == olds.index_of(k));
                    }
                }
            });
        }
        Ok(())
    }

    /// Looks up and removes the entry for `id`, handing its channel back so
    /// the arrived reply can be delivered. When no entry is outstanding the
    /// table is unchanged and the event is a push notification.
    pub fn resolve(&mut self, id: &[char]) -> (r: Option<T>)
        requires
            old(self).wf(),
        ensures
            final(self).wf(),
            !old(self).has_key(id@) ==> r is None && *final(self) == *old(self),
            old(self).has_key(id@) ==> (r matches Some(c) && c == old(self).as_map()[id@])
                && final(self).count() == old(self).count() - 1 && final(self).as_map() == old(
                self,
            ).as_map().remove(id@),
            !final(self).has_key(id@),
    {
        let ghost olds = *self;
        let mut i: usize = 0;
        while i < self.entries.len()
            invariant
                *self == olds,
                olds == *old(self),
                olds.wf(),
                i <= self.entries@.len(),
                forall|j: int| 0 <= j < i ==> self.key_at(j) != id@,
            decreases self.entries@.len() - i,
        {
            if chars_eq(self.entries[i].0.as_slice(), id) {
                proof {
                    assert(olds.key_at(i as int) == id@);
                }
                let pair = self.entries.remove(i);
                proof {
                    let news = *self;
                    olds.lemma_index_of(id@);
                    assert(olds.index_of(id@) == i);
                    assert(olds.as_map()[id@] == pair.1);
                    olds.entries@.remove_ensures(i as int);
                    assert(forall|j: int|
                        0 <= j < news.entries@.len() ==> news.key_at(j) == (if j < i {
                            olds.key_at(j)
                        } else {
                            olds.key_at(j + 1)
                        }));
                    assert(news.wf());
                    assert forall|k: Seq<char>| true implies {
                        (news.has_key(k) <==> olds.has_key(k) && k != id@)
                    } by {
                        if news.has_key(k) {
                            let j = choose|j: int|
                                0 <= j < news.entries@.len() && news.key_at(j) == k;
                            if j < i {
                                assert(olds.key_at(j) == k);
                            } else {
                                assert(olds.key_at(j + 1) == k);
                            }
                        }
                        if olds.has_key(k) && k != id@ {
                            let j = choose|j: int|
                                0 <= j < olds.entries@.len() && olds.key_at(j) == k;
                            if j < i {
                                assert(news.key_at(j) == k);
                            } else {
                                assert(j != i);
                                assert(news.key_at(j - 1) == k);
                            }
                        }
                    }
                    assert_maps_equal!(news.as_map(), olds.as_map().remove(id@), k => {
                        if news.has_key(k) {
                            news.lemma_index_of(k);
                            olds.lemma_index_of(k);
                            let j = news.index_of(k);
                            if j < i {
                                assert(olds.key_at(j) == k);
                                assert(olds.index_of(k) == j);
                            } else {
                                assert(olds.key_at(j + 1) == k);
                                assert(olds.index_of(k) == j + 1);
                            }
                        }
                    });
                }
                return Some(pair.1);
            }
            i += 1;
        }
        None
    }

    /// Removes the entry for `id` after its caller's wait has timed out, so
    /// that a late reply can no longer be delivered to a caller that already
    /// gave up. The channel is handed back only to be dropped.
    pub fn expire(&mut self, id: &[char]) -> (r: Option<T>)
        requires
            old(self).wf(),
        ensures
            final(self).wf(),
            !old(self).has_key(id@) ==> r is None && *final(self) == *old(self),
            old(self).has_key(id@) ==> (r matches Some(c) && c == old(self).as_map()[id@])
                && final(self).count() == old(self).count() - 1 && final(self).as_map() == old(
                self,
            ).as_map().remove(id@),
            !final(self).has_key(id@),
    {
        self.resolve(id)
    }

    /// Drains every outstanding entry for teardown, handing back each
    /// identifier and channel exactly once so that every waiting caller can
    /// be failed with a "not running" condition.
    pub fn take_all(&mut self) -> (r: Vec<(Vec<char>, T)>)
        ensures
            final(self).wf(),
            final(self).count() == 0,
            r@ == old(self).entries@,
            r@.len() == old(self).count(),
    {
        let mut out: Vec<(Vec<char>, T)> = Vec::new();
        core::mem::swap(&mut out, &mut self.entries);
        out
    }
}

/// Expiring an identifier removes it for good: whatever channels remain, the
/// expired identifier no longer has one, so a late reply for it cannot be
/// delivered to the caller that gave up.
pub proof fn lemma_expired_id_stays_dropped<T>(m: Map<Seq<char>, T>, id: Seq<char>)
    ensures
        !m.remove(id).dom().contains(id),
{
}

/// Correlation is independent across distinct identifiers: resolving one
/// outstanding request neither removes nor changes the channel any other
/// identifier is mapped to, so no caller can observe another caller's reply.
pub proof fn lemma_independent_correlation<T>(m: Map<Seq<char>, T>, a: Seq<char>, b: Seq<char>)
    requires
        m.dom().contains(a),
        m.dom().contains(b),
        a != b,
    ensures
        m.remove(a).dom().contains(b),
        m.remove(a)[b] == m[b],
{
}

} // verus!
