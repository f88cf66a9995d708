//! The keyspace: a map from byte-string keys to stored values with lazy
//! time-based expiry.
//!
//! Time is a plain millisecond reading of a monotonic clock, handed in by
//! the caller; an entry with a lifetime is dead once `now - created` reaches
//! it. A dead entry is deleted by the very read that discovers it, so an
//! expired key is indistinguishable from one never set.

use vstd::prelude::*;

use crate::resp::{RespModel, RespValue};

verus! {

/// One keyspace slot: the owned value, its creation time, and an optional
/// lifetime in milliseconds.
pub struct Data {
    pub value: RespValue,
    pub created: u64,
    pub expiry: Option<u64>,
}

/// The mathematical model of a slot.
pub struct DataModel {
    pub value: RespModel,
    pub created: u64,
    pub expiry: Option<u64>,
}

impl View for Data {
    type V = DataModel;

    open spec fn view(&self) -> DataModel {
        DataModel { value: self.value@, created: self.created, expiry: self.expiry }
    }
}

/// True while the entry has not yet expired at time `now`.
pub open spec fn entry_live(d: DataModel, now: u64) -> bool {
    match d.expiry {
        None => true,
        Some(t) => (now as int) < d.created + t,
    }
}

/// What a read of `k` at time `now` yields.
pub open spec fn lookup(m: Map<Seq<u8>, DataModel>, k: Seq<u8>, now: u64) -> Option<RespModel> {
    if m.contains_key(k) && entry_live(m[k], now) {
        Some(m[k].value)
    } else {
        None
    }
}

/// The keyspace after a read of `k` at time `now`: a dead entry is gone.
pub open spec fn store_after_get(m: Map<Seq<u8>, DataModel>, k: Seq<u8>, now: u64) -> Map<
    Seq<u8>,
    DataModel,
> {
    if m.contains_key(k) && !entry_live(m[k], now) {
        m.remove(k)
    } else {
        m
    }
}

/// The keyspace. Its model is a map from key bytes to slot models.
pub struct Storage {
    entries: Vec<(Vec<u8>, Data)>,
}

/// The map described by a sequence of slots; a later slot for the same key
/// would win, but well-formed storage never holds two.
pub closed spec fn map_of(es: Seq<(Vec<u8>, Data)>) -> Map<Seq<u8>, DataModel>
    decreases es.len(),
{
    if es.len() == 0 {
        Map::empty()
    } else {
        map_of(es.drop_last()).insert(es.last().0@, es.last().1@)
    }
}

proof fn lemma_map_of_contains(es: Seq<(Vec<u8>, Data)>, k: Seq<u8>)
    ensures
        map_of(es).contains_key(k) <==> exists|i: int| 0 <= i < es.len() && #[trigger] es[i].0@
            == k,
    decreases es.len(),
{
    if es.len() > 0 {
        lemma_map_of_contains(es.drop_last(), k);
        if map_of(es).contains_key(k) {
            if k == es.last().0@ {
                assert(es[es.len() - 1].0@ == k);
            } else {
                let i = choose|i: int|
                    0 <= i < es.drop_last().len() && #[trigger] es.drop_last()[i].0@ == k;
                assert(es[i].0@ == k);
            }
        }
        if exists|i: int| 0 <= i < es.len() && #[trigger] es[i].0@ == k {
            let i = choose|i: int| 0 <= i < es.len() && #[trigger] es[i].0@ == k;
            if i < es.len() - 1 {
                assert(es.drop_last()[i].0@ == k);
            }
        }
    }
}

/// No two slots share a key.
spec fn unique_keys(es: Seq<(Vec<u8>, Data)>) -> bool {
    forall|i: int, j: int|
        0 <= i < j < es.len() ==> #[trigger] es[i].0@ != #[trigger] es[j].0@
}

proof fn lemma_map_of_index(es: Seq<(Vec<u8>, Data)>, i: int)
    requires
        unique_keys(es),
        0 <= i < es.len(),
    ensures
        map_of(es).contains_key(es[i].0@),
        map_of(es)[es[i].0@] == es[i].1@,
    decreases es.len(),
{
    if i == es.len() - 1 {
        lemma_map_of_contains(es, es[i].0@);
    } else {
        assert(unique_keys(es.drop_last()));
        assert(es.drop_last()[i] == es[i]);
        lemma_map_of_index(es.drop_last(), i);
        assert(es[i].0@ != es.last().0@);
    }
}

proof fn lemma_map_of_remove(es: Seq<(Vec<u8>, Data)>, i: int)
    requires
        unique_keys(es),
        0 <= i < es.len(),
    ensures
        map_of(es.remove(i)) == map_of(es).remove(es[i].0@),
    decreases es.len(),
{
    let k = es[i].0@;
    if i == es.len() - 1 {
        assert(es.remove(i) =~= es.drop_last());
        lemma_map_of_contains(es.drop_last(), k);
        assert(!map_of(es.drop_last()).contains_key(k)) by {
            if map_of(es.drop_last()).contains_key(k) {
                let j = choose|j: int|
                    0 <= j < es.drop_last().len() && #[trigger] es.drop_last()[j].0@ == k;
                assert(es[j].0@ == k);
            }
        }
        assert(map_of(es).remove(k) =~= map_of(es.drop_last()));
    } else {
        assert(unique_keys(es.drop_last()));
        assert(es.drop_last()[i] == es[i]);
        lemma_map_of_remove(es.drop_last(), i);
        assert(es.remove(i).drop_last() =~= es.drop_last().remove(i));
        assert(es.remove(i).last() == es.last());
        let lk = es.last().0@;
        assert(k != lk);
        assert(map_of(es.remove(i)) == map_of(es.drop_last().remove(i)).insert(lk, es.last().1@));
        assert(map_of(es.drop_last()).remove(k).insert(lk, es.last().1@) =~= map_of(
            es.drop_last(),
        ).insert(lk, es.last().1@).remove(k));
    }
}

impl Storage {
    /// The keyspace holds each key at most once.
    pub closed spec fn wf(&self) -> bool {
        unique_keys(self.entries@)
    }

    /// An empty keyspace.
    pub fn new() -> (s: Storage)
        ensures
            s.wf(),
            s@ == Map::<Seq<u8>, DataModel>::empty(),
    {
        Storage { entries: Vec::new() }
    }

    /// The index of the slot holding `key`, if any.
    fn find(&self, key: &[u8]) -> (r: Option<usize>)
        ensures
            match r {
                Some(i) => i < self.entries@.len() && self.entries@[i as int].0@ == key@,
                None => forall|i: int|
                    0 <= i < self.entries@.len() ==> #[trigger] self.entries@[i].0@ != key@,
            },
    {
        let mut i: usize = 0;
        while i < self.entries.len()
            invariant
                i <= self.entries@.len(),
                forall|j: int| 0 <= j < i ==> #[trigger] self.entries@[j].0@ != key@,
            decreases self.entries@.len() - i,
        {
            if crate::ascii::bytes_eq(self.entries[i].0.as_slice(), key) {
                return Some(i);
            }
            i = i + 1;
        }
        None
    }

    /// Unconditionally writes `key`, recording `now` as its creation time
    /// and `expiry` as its lifetime in milliseconds.
    pub fn set(&mut self, key: Vec<u8>, value: RespValue, expiry: Option<u64>, now: u64)
        requires
            old(self).wf(),
        ensures
            final(self).wf(),
            final(self)@ == old(self)@.insert(
                key@,
                DataModel { value: value@, created: now, expiry },
            ),
    {
        let ghost es0 = self.entries@;
        match self.find(key.as_slice()) {
            Some(i) => {
                proof {
                    lemma_map_of_remove(es0, i as int);
                }
                self.entries.remove(i);
                proof {
                    assert(unique_keys(self.entries@)) by {
                        assert(forall|a: int|
                            0 <= a < es0.remove(i as int).len() ==> #[trigger] es0.remove(
                                i as int,
                            )[a] == if a < i as int {
                                es0[a]
                            } else {
                                es0[a + 1]
                            });
                    }
                    lemma_map_of_contains(self.entries@, key@);
                }
            },
            None => {
                proof {
                    assert(self@.remove(key@) =~= self@) by {
                        lemma_map_of_contains(es0, key@);
                    }
                }
            },
        }
        let ghost es1 = self.entries@;
        proof {
            lemma_map_of_contains(es1, key@);
            assert(!map_of(es1).contains_key(key@));
            assert(map_of(es1) == map_of(es0).remove(key@));
        }
        let slot = Data { value, created: now, expiry };
        self.entries.push((key, slot));
        proof {
            assert(self.entries@.drop_last() =~= es1);
            assert(map_of(self.entries@) == map_of(es1).insert(
                self.entries@.last().0@,
                self.entries@.last().1@,
            ));
            assert(map_of(es0).remove(self.entries@.last().0@).insert(
                self.entries@.last().0@,
                self.entries@.last().1@,
            ) =~= map_of(es0).insert(self.entries@.last().0@, self.entries@.last().1@));
            assert(unique_keys(self.entries@)) by {
                lemma_map_of_contains(es1, key@);
                assert(forall|a: int|
                    0 <= a < es1.len() ==> #[trigger] self.entries@[a] == es1[a]);
                assert forall|a: int, b: int|
                    0 <= a < b < self.entries@.len() implies #[trigger] self.entries@[a].0@
                    != #[trigger] self.entries@[b].0@ by {
                    if b == self.entries@.len() - 1 {
                        if self.entries@[a].0@ == key@ {
                            assert(es1[a].0@ == key@);
                            assert(map_of(es1).contains_key(key@)) by {
                                lemma_map_of_index(es1, a);
                            }
                        }
                    }
                }
            }
        }
    }

    /// Reads `key` at time `now`. A live entry is returned; a dead one is
    /// deleted and reported absent, exactly as a missing key is.
    pub fn get(&mut self, key: &[u8], now: u64) -> (r: Option<RespValue>)
        requires
            old(self).wf(),
        ensures
            final(self).wf(),
            final(self)@ == store_after_get(old(self)@, key@, now),
            match r {
                Some(v) => lookup(old(self)@, key@, now) == Some(v@),
                None => lookup(old(self)@, key@, now) is None,
            },
    {
        let ghost es0 = self.entries@;
        match self.find(key) {
            None => {
                proof {
                    lemma_map_of_contains(es0, key@);
                }
                None
            },
            Some(i) => {
                proof {
                    lemma_map_of_index(es0, i as int);
                }
                let created = self.entries[i].1.created;
                let expired: bool = match self.entries[i].1.expiry {
                    Some(t) => now >= created && now - created >= t,
                    None => false,
                };
                if expired {
                    proof {
                        lemma_map_of_remove(es0, i as int);
                    }
                    self.entries.remove(i);
                    proof {
                        assert(unique_keys(self.entries@)) by {
                            assert(forall|a: int|
                                0 <= a < es0.remove(i as int).len() ==> #[trigger] es0.remove(
                                    i as int,
                                )[a] == if a < i as int {
                                    es0[a]
                                } else {
                                    es0[a + 1]
                                });
                        }
                    }
                    None
                } else {
                    let v = self.entries[i].1.value.duplicate();
                    Some(v)
                }
            },
        }
    }
}

impl View for Storage {
    type V = Map<Seq<u8>, DataModel>;

    closed spec fn view(&self) -> Map<Seq<u8>, DataModel> {
        map_of(self.entries@)
    }
}

/// After a write of `v` under lifetime `ttl` at time `t0`: a read before
/// `t0 + ttl` yields `v`; a read at or past it yields nothing and deletes
/// the key; every later read still yields nothing — no resurrection.
pub proof fn lemma_expiry(
    m: Map<Seq<u8>, DataModel>,
    k: Seq<u8>,
    v: RespModel,
    t0: u64,
    ttl: u64,
    now1: u64,
    now2: u64,
    now3: u64,
)
    requires
        (now1 as int) < t0 + ttl,
        (now2 as int) >= t0 + ttl,
    ensures
        lookup(m.insert(k, DataModel { value: v, created: t0, expiry: Some(ttl) }), k, now1)
            == Some(v),
        lookup(m.insert(k, DataModel { value: v, created: t0, expiry: Some(ttl) }), k, now2)
            is None,
        store_after_get(
            m.insert(k, DataModel { value: v, created: t0, expiry: Some(ttl) }),
            k,
            now2,
        ) == m.insert(k, DataModel { value: v, created: t0, expiry: Some(ttl) }).remove(k),
        lookup(
            store_after_get(
                m.insert(k, DataModel { value: v, created: t0, expiry: Some(ttl) }),
                k,
                now2,
            ),
            k,
            now3,
        ) is None,
        store_after_get(
            store_after_get(
                m.insert(k, DataModel { value: v, created: t0, expiry: Some(ttl) }),
                k,
                now2,
            ),
            k,
            now3,
        ) == store_after_get(
            m.insert(k, DataModel { value: v, created: t0, expiry: Some(ttl) }),
            k,
            now2,
        ),
{
}

/// Overwriting an entry that had no lifetime with one that has a fresh
/// lifetime makes the fresh lifetime govern: a read right after the second
/// write yields the second value.
pub proof fn lemma_overwrite(
    m: Map<Seq<u8>, DataModel>,
    k: Seq<u8>,
    v1: RespModel,
    v2: RespModel,
    t1: u64,
    t2: u64,
    ttl: u64,
)
    requires
        ttl > 0,
    ensures
        lookup(
            m.insert(k, DataModel { value: v1, created: t1, expiry: None }).insert(
                k,
                DataModel { value: v2, created: t2, expiry: Some(ttl) },
            ),
            k,
            t2,
        ) == Some(v2),
{
}

} // verus!
