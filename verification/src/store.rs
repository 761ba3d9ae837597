//! The entry store: a concurrent mapping from key to value with optional
//! expiration and last-access metadata, bounded in size by LRU eviction.
use vstd::prelude::*;

use crate::concmap::{dm_contents, dm_entries, dm_get, dm_insert, dm_len, dm_new, dm_remove, Slot,
    SlotView};
use crate::spec_expiry;
use crate::expiry_of;

verus! {

/// One stored record: the payload, the optional absolute expiration
/// timestamp (seconds since the UNIX epoch), and the time of last access.
pub struct Entry {
    pub value: String,
    pub expires_at: Option<u64>,
    pub last_accessed: u64,
}

impl View for Entry {
    type V = SlotView;

    open spec fn view(&self) -> SlotView {
        (self.value@, self.expires_at, self.last_accessed)
    }
}

/// True when the slot's expiration lies strictly in the past: an entry is
/// still valid exactly at its expiration second.
pub open spec fn slot_expired(slot: SlotView, now: u64) -> bool {
    match slot.1 {
        Some(e) => now > e,
        None => false,
    }
}

/// The value a read of `key` at time `now` observes in the mapping `m`:
/// the stored text unless the key is absent or its entry has expired.
pub open spec fn spec_lookup(m: Map<Seq<char>, SlotView>, key: Seq<char>, now: u64) -> Option<
    Seq<char>,
> {
    if m.contains_key(key) && !slot_expired(m[key], now) {
        Some(m[key].0)
    } else {
        None
    }
}

/// True when `key` is an entry of `m` whose last access is no later than
/// that of any other entry: a least-recently-used entry.
pub open spec fn least_recently_used(m: Map<Seq<char>, SlotView>, key: Seq<char>) -> bool {
    m.contains_key(key) && forall|k2: Seq<char>|
        #[trigger] m.contains_key(k2) ==> m[key].2 <= m[k2].2
}

/// A key-value store with per-entry TTL metadata and a configured maximum
/// entry count enforced by LRU eviction.
pub struct Store {
    map: dashmap::DashMap<String, Slot>,
    max_keys: usize,
}

impl Store {
    /// The mapping the store currently holds.
    pub closed spec fn contents(self) -> Map<Seq<char>, SlotView> {
        dm_contents(self.map)
    }

    /// The configured maximum number of entries.
    pub closed spec fn capacity(self) -> usize {
        self.max_keys
    }

    /// The store's contents are a finite mapping.
    pub open spec fn wf(self) -> bool {
        self.contents().dom().finite()
    }

    /// Creates an empty store that evicts beyond `max_keys` entries.
    pub fn new(max_keys: usize) -> (r: Store)
        ensures
            r.wf(),
            r.contents() == Map::<Seq<char>, SlotView>::empty(),
            r.capacity() == max_keys,
    {
        let r = Store { map: dm_new(), max_keys };
        proof {
            assert(r.contents() =~= Map::<Seq<char>, SlotView>::empty());
        }
        r
    }

    /// Inserts or overwrites `key` without any durability side effect; the
    /// entry expires `ttl` seconds after `now` (never, without a TTL) and
    /// counts as last accessed at `now`. Used for WAL replay, and by `set`
    /// for the in-memory half of its work. Performs no eviction.
    pub fn set_internal(&mut self, key: String, value: String, ttl: Option<u64>, now: u64)
        requires
            old(self).wf(),
        ensures
            final(self).wf(),
            final(self).capacity() == old(self).capacity(),
            final(self).contents() == old(self).contents().insert(
                key@,
                (value@, spec_expiry(ttl, now), now),
            ),
    {
        let expires_at = expiry_of(ttl, now);
        dm_insert(&mut self.map, key, value, expires_at, now);
    }

    /// Returns the value under `key` unless the entry is missing or has
    /// expired by `now`. An expired entry is removed as a side effect; a
    /// hit refreshes the entry's last-access time to `now`.
    pub fn get(&mut self, key: &str, now: u64) -> (r: Option<String>)
        requires
            old(self).wf(),
        ensures
            final(self).wf(),
            final(self).capacity() == old(self).capacity(),
            match r {
                Some(v) => v@ == spec_lookup(old(self).contents(), key@, now).unwrap()
                    && spec_lookup(old(self).contents(), key@, now) is Some
                    && final(self).contents() == old(self).contents().insert(
                    key@,
                    (v@, old(self).contents()[key@].1, now),
                ),
                None => spec_lookup(old(self).contents(), key@, now) is None
                    && final(self).contents() == (if old(self).contents().contains_key(key@) {
                    old(self).contents().remove(key@)
                } else {
                    old(self).contents()
                }),
            },
    {
        match dm_get(&mut self.map, key) {
            Some((value, expires_at, _last_accessed)) => {
                let is_expired = match expires_at {
                    Some(e) => now > e,
                    None => false,
                };
                if is_expired {
                    dm_remove(&mut self.map, key);
                    None
                } else {
                    dm_insert(&mut self.map, key.to_owned(), value.clone(), expires_at, now);
                    Some(value)
                }
            },
            None => None,
        }
    }

    /// Removes every entry whose expiration lies strictly before `now`.
    /// All other entries are left untouched.
    pub fn cleanup_expired(&mut self, now: u64)
        requires
            old(self).wf(),
        ensures
            final(self).wf(),
            final(self).capacity() == old(self).capacity(),
            forall|k: Seq<char>|
                #[trigger] final(self).contents().contains_key(k) <==> (old(self).contents().contains_key(k) && !slot_expired(old(self).contents()[k], now)),
            forall|k: Seq<char>|
                #[trigger] final(self).contents().contains_key(k) ==> final(self).contents()[k]
                    == old(self).contents()[k],
    {
        let entries = dm_entries(&mut self.map);
        let ghost c0 = self.contents();
        let mut i: usize = 0;
        while i < entries.len()
            invariant
                i <= entries.len(),
                self.wf(),
                self.capacity() == old(self).capacity(),
                c0 == old(self).contents(),
                forall|j: int|
                    0 <= j < entries@.len() ==> c0.contains_pair(
                        #[trigger] entries@[j].0@,
                        (entries@[j].1@, entries@[j].2, entries@[j].3),
                    ),
                forall|k: Seq<char>| #[trigger]
                    c0.contains_key(k) ==> exists|j: int|
                        0 <= j < entries@.len() && #[trigger] entries@[j].0@ == k,
                forall|k: Seq<char>|
                    #[trigger] self.contents().contains_key(k) ==> c0.contains_key(k)
                        && self.contents()[k] == c0[k],
                forall|k: Seq<char>|
                    c0.contains_key(k) && !slot_expired(#[trigger] c0[k], now)
                        ==> self.contents().contains_key(k),
                forall|j: int|
                    0 <= j < i && slot_expired((entries@[j].1@, entries@[j].2, entries@[j].3), now)
                        ==> !self.contents().contains_key(#[trigger] entries@[j].0@),
            decreases entries.len() - i,
        {
            let expired = match entries[i].2 {
                Some(e) => now > e,
                None => false,
            };
            if expired {
                dm_remove(&mut self.map, entries[i].0.as_str());
            }
            i += 1;
        }
        proof {
            assert forall|k: Seq<char>|
                self.contents().contains_key(k) <==> (c0.contains_key(k) && !slot_expired(
                    c0[k],
                    now,
                )) by {
                if c0.contains_key(k) && slot_expired(c0[k], now) {
                    let j = choose|j: int|
                        0 <= j < entries@.len() && #[trigger] entries@[j].0@ == k;
                    assert(c0.contains_pair(entries@[j].0@, (entries@[j].1@, entries@[j].2,
                    entries@[j].3)));
                    assert(!self.contents().contains_key(k));
                }
            }
        }
    }

    /// If the entry count exceeds the configured maximum, removes one
    /// least-recently-used entry; otherwise changes nothing.
    pub fn evict_if_needed(&mut self)
        requires
            old(self).wf(),
        ensures
            final(self).wf(),
            final(self).capacity() == old(self).capacity(),
            old(self).contents().dom().len() <= old(self).capacity() ==> final(self).contents()
                == old(self).contents(),
            old(self).contents().dom().len() > old(self).capacity() ==> (exists|
                victim: Seq<char>,
            |
                #[trigger] least_recently_used(old(self).contents(), victim) && final(self).contents() == old(self).contents().remove(victim)),
    {
        let n = dm_len(&mut self.map);
        if n <= self.max_keys {
            return ;
        }
        let entries = dm_entries(&mut self.map);
        let ghost c0 = self.contents();
        proof {
            if entries@.len() == 0 {
                assert forall|k: Seq<char>| !c0.contains_key(k) by {
                    if c0.contains_key(k) {
                        let j = choose|j: int|
                            0 <= j < entries@.len() && #[trigger] entries@[j].0@ == k;
                    }
                }
                assert(c0.dom() =~= Set::<Seq<char>>::empty());
            }
        }
        let mut best: usize = 0;
        let mut j: usize = 1;
        while j < entries.len()
            invariant
                1 <= j <= entries.len(),
                best < j,
                forall|t: int| 0 <= t < j ==> entries@[best as int].3 <= #[trigger] entries@[t].3,
            decreases entries.len() - j,
        {
            if entries[j].3 < entries[best].3 {
                best = j;
            }
            j += 1;
        }
        let ghost victim = entries@[best as int].0@;
        proof {
            assert(c0.contains_pair(entries@[best as int].0@, (entries@[best as int].1@,
            entries@[best as int].2, entries@[best as int].3)));
            assert forall|k2: Seq<char>| #[trigger] c0.contains_key(k2) implies c0[victim].2
                <= c0[k2].2 by {
                let t = choose|t: int| 0 <= t < entries@.len() && #[trigger] entries@[t].0@ == k2;
                assert(c0.contains_pair(entries@[t].0@, (entries@[t].1@, entries@[t].2,
                entries@[t].3)));
            }
            assert(least_recently_used(c0, victim));
        }
        dm_remove(&mut self.map, entries[best].0.as_str());
    }

    /// Inserts or overwrites `key` with the given value and optional TTL in
    /// seconds, marks it last accessed at `now`, then evicts one
    /// least-recently-used entry if the store has grown past its maximum.
    /// A store within its bound stays within its bound.
    ///
    /// Durability is the caller's charge: the corresponding WAL record must
    /// be appended durably before this mutation is applied.
    pub fn set(&mut self, key: String, value: String, ttl: Option<u64>, now: u64)
        requires
            old(self).wf(),
        ensures
            final(self).wf(),
            final(self).capacity() == old(self).capacity(),
            ({
                let updated = old(self).contents().insert(
                    key@,
                    (value@, spec_expiry(ttl, now), now),
                );
                &&& updated.dom().len() <= old(self).capacity() ==> final(self).contents()
                    == updated
                &&& updated.dom().len() > old(self).capacity() ==> (exists|victim: Seq<char>|
                    #[trigger] least_recently_used(updated, victim) && final(self).contents()
                        == updated.remove(victim))
                &&& old(self).contents().dom().len() <= old(self).capacity() ==> final(self).contents().dom().len() <= old(self).capacity()
            }),
    {
        let ghost c0 = self.contents();
        self.set_internal(key, value, ttl, now);
        let ghost updated = self.contents();
        self.evict_if_needed();
        proof {
            broadcast use vstd::set::group_set_axioms;

            if c0.dom().len() <= self.capacity() {
                if updated.dom().len() > self.capacity() {
                    let victim = choose|victim: Seq<char>|
                        #[trigger] least_recently_used(updated, victim) && final(self).contents()
                            == updated.remove(victim);
                    assert(updated.dom().remove(victim).len() == updated.dom().len() - 1);
                }
            }
        }
    }

    /// Copies the full mapping out of the store as a list of records, one
    /// per key: key, value, optional expiration, last-access time. The keys
    /// listed are exactly the store's keys, each once; the order is
    /// unspecified.
    pub fn to_hashmap(&mut self) -> (r: Vec<(String, String, Option<u64>, u64)>)
        requires
            old(self).wf(),
        ensures
            final(self).wf(),
            final(self).contents() == old(self).contents(),
            final(self).capacity() == old(self).capacity(),
            forall|i: int|
                0 <= i < r@.len() ==> old(self).contents().contains_pair(
                    #[trigger] r@[i].0@,
                    (r@[i].1@, r@[i].2, r@[i].3),
                ),
            forall|i: int, j: int| 0 <= i < j < r@.len() ==> r@[i].0@ != r@[j].0@,
            forall|k: Seq<char>| #[trigger]
                old(self).contents().contains_key(k) ==> exists|i: int|
                    0 <= i < r@.len() && #[trigger] r@[i].0@ == k,
    {
        dm_entries(&mut self.map)
    }

    /// Builds a store that evicts beyond `max_keys` entries from a list of
    /// records as produced by `to_hashmap`. A key listed more than once
    /// keeps its last listed record.
    pub fn from_hashmap(data: Vec<(String, String, Option<u64>, u64)>, max_keys: usize) -> (r:
        Store)
        ensures
            r.wf(),
            r.capacity() == max_keys,
            r.contents() == entries_map(data@),
    {
        let mut store = Store::new(max_keys);
        let mut i: usize = 0;
        while i < data.len()
            invariant
                i <= data.len(),
                store.wf(),
                store.capacity() == max_keys,
                store.contents() == entries_map(data@.subrange(0, i as int)),
            decreases data.len() - i,
        {
            let key = data[i].0.clone();
            let value = data[i].1.clone();
            dm_insert(&mut store.map, key, value, data[i].2, data[i].3);
            proof {
                assert(data@.subrange(0, i + 1 as int).drop_last() =~= data@.subrange(
                    0,
                    i as int,
                ));
            }
            i += 1;
        }
        proof {
            assert(data@.subrange(0, data@.len() as int) =~= data@);
        }
        store
    }
}


/// The mapping described by a list of records: each record inserts its key,
/// in order, so a repeated key keeps its last record.
pub open spec fn entries_map(s: Seq<(String, String, Option<u64>, u64)>) -> Map<
    Seq<char>,
    SlotView,
>
    decreases s.len(),
{
    if s.len() == 0 {
        Map::empty()
    } else {
        entries_map(s.drop_last()).insert(s.last().0@, (s.last().1@, s.last().2, s.last().3))
    }
}

/// A record whose key recurs nowhere later in the list decides that key's
/// slot in the mapping the list describes.
proof fn lemma_entries_map_at(es: Seq<(String, String, Option<u64>, u64)>, i: int)
    requires
        0 <= i < es.len(),
        forall|j: int| i < j < es.len() ==> (#[trigger] es[j]).0@ != es[i].0@,
    ensures
        entries_map(es).contains_key(es[i].0@),
        entries_map(es)[es[i].0@] == (es[i].1@, es[i].2, es[i].3),
    decreases es.len(),
{
    if i == es.len() - 1 {
    } else {
        assert(es[es.len() - 1].0@ != es[i].0@);
        assert(es.drop_last()[i] == es[i]);
        assert forall|j: int| i < j < es.drop_last().len() implies (#[trigger] es.drop_last()[j]).0@
            != es.drop_last()[i].0@ by {
            assert(es.drop_last()[j] == es[j]);
        }
        lemma_entries_map_at(es.drop_last(), i);
    }
}

/// Every key of the mapping a record list describes is some record's key.
proof fn lemma_entries_map_dom(es: Seq<(String, String, Option<u64>, u64)>)
    ensures
        forall|k: Seq<char>| #[trigger]
            entries_map(es).contains_key(k) ==> exists|i: int|
                0 <= i < es.len() && (#[trigger] es[i]).0@ == k,
    decreases es.len(),
{
    if es.len() == 0 {
    } else {
        lemma_entries_map_dom(es.drop_last());
        assert forall|k: Seq<char>| #[trigger] entries_map(es).contains_key(k) implies exists|
            i: int,
        |
            0 <= i < es.len() && (#[trigger] es[i]).0@ == k by {
            if k == es.last().0@ {
                assert(es[es.len() - 1].0@ == k);
            } else {
                assert(entries_map(es.drop_last()).contains_key(k));
                let i = choose|i: int|
                    0 <= i < es.drop_last().len() && (#[trigger] es.drop_last()[i]).0@ == k;
                assert(es[i].0@ == k);
            }
        }
    }
}

/// A record list whose keys are pairwise distinct, each of whose records
/// is a pair of `c`, and whose keys cover `c`, describes exactly `c`.
pub proof fn lemma_entries_map_is_contents(
    es: Seq<(String, String, Option<u64>, u64)>,
    c: Map<Seq<char>, SlotView>,
)
    requires
        forall|i: int|
            0 <= i < es.len() ==> c.contains_pair((#[trigger] es[i]).0@, (es[i].1@, es[i].2,
            es[i].3)),
        forall|i: int, j: int| 0 <= i < j < es.len() ==> (#[trigger] es[i]).0@ != (
        #[trigger] es[j]).0@,
        forall|k: Seq<char>| #[trigger]
            c.contains_key(k) ==> exists|i: int| 0 <= i < es.len() && (#[trigger] es[i]).0@ == k,
    ensures
        entries_map(es) == c,
{
    lemma_entries_map_dom(es);
    assert forall|k: Seq<char>| #[trigger] c.contains_key(k) implies entries_map(es).contains_key(
        k,
    ) && entries_map(es)[k] == c[k] by {
        let i = choose|i: int| 0 <= i < es.len() && (#[trigger] es[i]).0@ == k;
        lemma_entries_map_at(es, i);
    }
    assert forall|k: Seq<char>| #[trigger] entries_map(es).contains_key(k) implies c.contains_key(
        k,
    ) by {
        let i = choose|i: int| 0 <= i < es.len() && (#[trigger] es[i]).0@ == k;
        assert(c.contains_pair(es[i].0@, (es[i].1@, es[i].2, es[i].3)));
    }
    assert(entries_map(es) =~= c);
}

/// Law: a key stored with no TTL never expires — a read at any time
/// observes the stored value.
pub proof fn lemma_set_no_ttl_then_get(
    c: Map<Seq<char>, SlotView>,
    key: Seq<char>,
    value: Seq<char>,
    now: u64,
    later: u64,
)
    ensures
        spec_lookup(c.insert(key, (value, spec_expiry(None, now), now)), key, later) == Some(
            value,
        ),
{
}

/// Law: storing one key does not disturb what a read of any other key
/// observes.
pub proof fn lemma_set_frames_other_keys(
    c: Map<Seq<char>, SlotView>,
    key: Seq<char>,
    slot: SlotView,
    other: Seq<char>,
    now: u64,
)
    requires
        other != key,
    ensures
        spec_lookup(c.insert(key, slot), other, now) == spec_lookup(c, other, now),
{
}

/// Law: an entry stored with a TTL of zero seconds is expired at every
/// strictly later time, so a read then observes nothing.
pub proof fn lemma_zero_ttl_expires(
    c: Map<Seq<char>, SlotView>,
    key: Seq<char>,
    value: Seq<char>,
    now: u64,
    later: u64,
)
    requires
        later > now,
    ensures
        spec_lookup(c.insert(key, (value, spec_expiry(Some(0), now), now)), key, later) is None,
{
}

/// The mapping after storing a list of key-value pairs with no TTL, each
/// last accessed at `now`, in list order.
pub open spec fn apply_sets(
    c: Map<Seq<char>, SlotView>,
    ops: Seq<(Seq<char>, Seq<char>)>,
    now: u64,
) -> Map<Seq<char>, SlotView>
    decreases ops.len(),
{
    if ops.len() == 0 {
        c
    } else {
        apply_sets(c, ops.drop_last(), now).insert(
            ops.last().0,
            (ops.last().1, spec_expiry(None, now), now),
        )
    }
}

/// Law: after storing values under pairwise distinct keys, every one of
/// those keys reads back exactly the value stored under it — none of the
/// writes is lost to another.
pub proof fn lemma_distinct_sets_all_visible(
    c: Map<Seq<char>, SlotView>,
    ops: Seq<(Seq<char>, Seq<char>)>,
    now: u64,
    later: u64,
    i: int,
)
    requires
        forall|p: int, q: int| 0 <= p < q < ops.len() ==> (#[trigger] ops[p]).0 != (
        #[trigger] ops[q]).0,
        0 <= i < ops.len(),
    ensures
        spec_lookup(apply_sets(c, ops, now), ops[i].0, later) == Some(ops[i].1),
    decreases ops.len(),
{
    if i == ops.len() - 1 {
        lemma_set_no_ttl_then_get(
            apply_sets(c, ops.drop_last(), now),
            ops[i].0,
            ops[i].1,
            now,
            later,
        );
    } else {
        lemma_distinct_sets_all_visible(c, ops.drop_last(), now, later, i);
        lemma_set_frames_other_keys(
            apply_sets(c, ops.drop_last(), now),
            ops.last().0,
            (ops.last().1, spec_expiry(None, now), now),
            ops[i].0,
            later,
        );
    }
}

} // verus!

