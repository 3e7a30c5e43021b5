//! The cache store: a mapping from key to time-stamped rows, with lookup,
//! freshness by age, unconditional replacement, and removal of expired entries.
//!
//! Instants and durations are counts of one unit of a monotonic clock, chosen
//! by the caller.

use std::sync::Arc;
use vstd::prelude::*;

verus! {

/// The rows cached under one key, and the instant at which they were stored.
pub struct CachedResult<T> {
    pub payload: Arc<Vec<T>>,
    pub created_at: u64,
}

/// What a cached result holds, as a mathematical value.
pub struct Snapshot<T> {
    pub payload: Seq<T>,
    pub created_at: u64,
}

impl<T> View for CachedResult<T> {
    type V = Snapshot<T>;

    open spec fn view(&self) -> Snapshot<T> {
        Snapshot { payload: self.payload@, created_at: self.created_at }
    }
}

/// The snapshot of rows stored at an instant.
pub open spec fn snapshot<T>(payload: Seq<T>, created_at: u64) -> Snapshot<T> {
    Snapshot { payload, created_at }
}

/// The age at `now` of something created at `created_at`: zero where the
/// clock reads earlier than the creation.
pub open spec fn age(created_at: u64, now: u64) -> nat {
    if now >= created_at {
        (now - created_at) as nat
    } else {
        0
    }
}

/// Whether an entry is younger than `ttl` at `now`.
pub open spec fn is_fresh<T>(entry: Snapshot<T>, now: u64, ttl: u64) -> bool {
    age(entry.created_at, now) < ttl
}

/// The rows that a read of `key` at `now` is served from the cache: those of
/// the entry under `key`, where there is one and it is fresh.
pub open spec fn fresh_payload<T>(
    entries: Map<Seq<char>, Snapshot<T>>,
    key: Seq<char>,
    now: u64,
    ttl: u64,
) -> Option<Seq<T>> {
    if entries.contains_key(key) && is_fresh(entries[key], now, ttl) {
        Some(entries[key].payload)
    } else {
        None
    }
}

/// The entries that are left when every one of age `ttl` or more is removed.
pub open spec fn swept<T>(entries: Map<Seq<char>, Snapshot<T>>, now: u64, ttl: u64) -> Map<
    Seq<char>,
    Snapshot<T>,
> {
    Map::new(
        |key: Seq<char>| entries.contains_key(key) && is_fresh(entries[key], now, ttl),
        |key: Seq<char>| entries[key],
    )
}

/// One key with its cached result.
struct Slot<T> {
    key: String,
    result: CachedResult<T>,
}

spec fn keys_distinct<T>(slots: Seq<Slot<T>>) -> bool {
    forall|i: int, j: int| 0 <= i < j < slots.len() ==> slots[i].key@ != slots[j].key@
}

spec fn has_key<T>(slots: Seq<Slot<T>>, key: Seq<char>) -> bool {
    exists|i: int| 0 <= i < slots.len() && (#[trigger] slots[i]).key@ == key
}

spec fn slot_of<T>(slots: Seq<Slot<T>>, key: Seq<char>) -> int {
    choose|i: int| 0 <= i < slots.len() && (#[trigger] slots[i]).key@ == key
}

spec fn contents<T>(slots: Seq<Slot<T>>) -> Map<Seq<char>, Snapshot<T>> {
    Map::new(|key: Seq<char>| has_key(slots, key), |key: Seq<char>| slots[slot_of(slots, key)].result@)
}

/// With distinct keys, the mapping holds each slot's result under its key.
proof fn lemma_slot_in_contents<T>(slots: Seq<Slot<T>>, i: int)
    requires
        keys_distinct(slots),
        0 <= i < slots.len(),
    ensures
        contents(slots).contains_key(slots[i].key@),
        contents(slots)[slots[i].key@] == slots[i].result@,
{
    let key = slots[i].key@;
    assert(has_key(slots, key));
    let j = slot_of(slots, key);
    assert(0 <= j < slots.len() && slots[j].key@ == key);
    assert(j == i);
}

/// Taking a slot out removes its key from the mapping and nothing else.
proof fn lemma_remove_slot<T>(slots: Seq<Slot<T>>, i: int)
    requires
        keys_distinct(slots),
        0 <= i < slots.len(),
    ensures
        keys_distinct(slots.remove(i)),
        contents(slots.remove(i)) == contents(slots).remove(slots[i].key@),
{
    let rest = slots.remove(i);
    let gone = slots[i].key@;
    assert(keys_distinct(rest)) by {
        assert forall|a: int, b: int| 0 <= a < b < rest.len() implies rest[a].key@
            != rest[b].key@ by {
            let a0 = if a < i { a } else { a + 1 };
            let b0 = if b < i { b } else { b + 1 };
            assert(rest[a] == slots[a0] && rest[b] == slots[b0]);
        }
    }
    assert forall|key: Seq<char>| contents(rest).contains_key(key) implies contents(
        slots,
    ).remove(gone).contains_key(key) && contents(slots).remove(gone)[key] == contents(
        rest,
    )[key] by {
        let j = slot_of(rest, key);
        assert(0 <= j < rest.len() && rest[j].key@ == key);
        let j0 = if j < i { j } else { j + 1 };
        assert(rest[j] == slots[j0]);
        lemma_slot_in_contents(slots, j0);
        lemma_slot_in_contents(rest, j);
    }
    assert forall|key: Seq<char>|
        contents(slots).remove(gone).contains_key(key) implies contents(rest).contains_key(
        key,
    ) by {
        let j0 = slot_of(slots, key);
        assert(0 <= j0 < slots.len() && slots[j0].key@ == key);
        assert(j0 != i);
        let j = if j0 < i { j0 } else { j0 - 1 };
        assert(rest[j] == slots[j0]);
        lemma_slot_in_contents(rest, j);
    }
    assert(contents(rest) =~= contents(slots).remove(gone));
}

/// Adding a slot under a key that is not held adds that key to the mapping
/// and nothing else.
proof fn lemma_push_slot<T>(slots: Seq<Slot<T>>, slot: Slot<T>)
    requires
        keys_distinct(slots),
        !contents(slots).contains_key(slot.key@),
    ensures
        keys_distinct(slots.push(slot)),
        contents(slots.push(slot)) == contents(slots).insert(slot.key@, slot.result@),
{
    let more = slots.push(slot);
    let n = slots.len() as int;
    assert(keys_distinct(more)) by {
        assert forall|a: int, b: int| 0 <= a < b < more.len() implies more[a].key@
            != more[b].key@ by {
            assert(more[a] == slots[a]);
            if b == n {
                lemma_slot_in_contents(slots, a);
            } else {
                assert(more[b] == slots[b]);
            }
        }
    }
    assert forall|key: Seq<char>| contents(more).contains_key(key) implies contents(
        slots,
    ).insert(slot.key@, slot.result@).contains_key(key) && contents(slots).insert(
        slot.key@,
        slot.result@,
    )[key] == contents(more)[key] by {
        let j = slot_of(more, key);
        assert(0 <= j < more.len() && more[j].key@ == key);
        lemma_slot_in_contents(more, j);
        if j < n {
            assert(more[j] == slots[j]);
            lemma_slot_in_contents(slots, j);
        }
    }
    assert forall|key: Seq<char>|
        contents(slots).insert(slot.key@, slot.result@).contains_key(
            key,
        ) implies contents(more).contains_key(key) by {
        if key == slot.key@ {
            assert(more[n] == slot);
            lemma_slot_in_contents(more, n);
        } else {
            let j = slot_of(slots, key);
            assert(0 <= j < n && slots[j].key@ == key);
            assert(more[j] == slots[j]);
            lemma_slot_in_contents(more, j);
        }
    }
    assert(contents(more) =~= contents(slots).insert(slot.key@, slot.result@));
}

/// `Arc::clone`: hands out a second handle on the same allocation, so what it
/// points to is the very value that the first handle points to.
#[verifier::external_body]
pub(crate) fn share<T>(rows: &Arc<Vec<T>>) -> (shared: Arc<Vec<T>>)
    ensures
        shared == *rows,
{
    Arc::clone(rows)
}

/// The age at `now` of something created at `created_at`.
pub fn age_at(created_at: u64, now: u64) -> (elapsed: u64)
    ensures
        elapsed == age(created_at, now),
{
    if now >= created_at {
        now - created_at
    } else {
        0
    }
}

/// The place of `key` among the slots, if it is held.
fn position<T>(slots: &Vec<Slot<T>>, key: &String) -> (found: Option<usize>)
    requires
        keys_distinct(slots@),
    ensures
        (match found {
            Some(i) => i < slots@.len() && slots@[i as int].key@ == key@ && contents(
                slots@,
            ).contains_key(key@) && contents(slots@)[key@] == slots@[i as int].result@,
            None => !contents(slots@).contains_key(key@),
        }),
{
    let mut i: usize = 0;
    while i < slots.len()
        invariant
            keys_distinct(slots@),
            i <= slots@.len(),
            forall|j: int| 0 <= j < i ==> (#[trigger] slots@[j]).key@ != key@,
        decreases slots@.len() - i,
    {
        if slots[i].key == *key {
            proof {
                lemma_slot_in_contents(slots@, i as int);
            }
            return Some(i);
        }
        i += 1;
    }
    None
}

/// A mapping from key to cached result. No key is held twice.
pub struct CacheStore<T> {
    slots: Vec<Slot<T>>,
}

impl<T> View for CacheStore<T> {
    type V = Map<Seq<char>, Snapshot<T>>;

    closed spec fn view(&self) -> Map<Seq<char>, Snapshot<T>> {
        contents(self.slots@)
    }
}

impl<T> CacheStore<T> {
    #[verifier::type_invariant]
    spec fn keys_are_distinct(self) -> bool {
        keys_distinct(self.slots@)
    }

    /// A store without entries.
    pub fn new() -> (store: Self)
        ensures
            store@ == Map::<Seq<char>, Snapshot<T>>::empty(),
    {
        let store = CacheStore { slots: Vec::new() };
        assert(store@ =~= Map::<Seq<char>, Snapshot<T>>::empty());
        store
    }

    /// The entry stored under `key`, whatever its age.
    pub fn lookup(&self, key: &String) -> (found: Option<&CachedResult<T>>)
        ensures
            (match found {
                Some(entry) => self@.contains_key(key@) && entry@ == self@[key@],
                None => !self@.contains_key(key@),
            }),
    {
        proof {
            use_type_invariant(self);
        }
        match position(&self.slots, key) {
            Some(i) => Some(&self.slots[i].result),
            None => None,
        }
    }

    /// The rows stored under `key`, if there is an entry and its age at `now`
    /// is under `ttl`; nothing otherwise. The store is left as it is.
    pub fn fresh_lookup(&self, key: &String, now: u64, ttl: u64) -> (found: Option<Arc<Vec<T>>>)
        ensures
            (match found {
                Some(rows) => fresh_payload(self@, key@, now, ttl) == Some(rows@),
                None => fresh_payload(self@, key@, now, ttl).is_none(),
            }),
    {
        match self.lookup(key) {
            Some(entry) => {
                if age_at(entry.created_at, now) < ttl {
                    Some(share(&entry.payload))
                } else {
                    None
                }
            },
            None => None,
        }
    }

    /// Stores `payload` under `key` as created at `now`, in place of whatever
    /// was stored under it.
    pub fn insert(&mut self, key: String, payload: Arc<Vec<T>>, now: u64)
        ensures
            final(self)@ == old(self)@.insert(key@, snapshot(payload@, now)),
    {
        proof {
            use_type_invariant(&*self);
        }
        let mut slots: Vec<Slot<T>> = Vec::new();
        std::mem::swap(&mut slots, &mut self.slots);
        match position(&slots, &key) {
            Some(i) => {
                proof {
                    lemma_remove_slot(slots@, i as int);
                }
                let _ = slots.remove(i);
            },
            None => {},
        }
        let ghost rest = slots@;
        let slot = Slot { key, result: CachedResult { payload, created_at: now } };
        proof {
            lemma_push_slot(rest, slot);
        }
        slots.push(slot);
        self.slots = slots;
        assert(self@ =~= old(self)@.insert(key@, snapshot(payload@, now)));
    }

    /// Removes every entry whose age at `now` is `ttl` or more.
    pub fn sweep_expired(&mut self, now: u64, ttl: u64)
        ensures
            final(self)@ == swept(old(self)@, now, ttl),
    {
        proof {
            use_type_invariant(&*self);
        }
        let ghost before = self@;
        let mut slots: Vec<Slot<T>> = Vec::new();
        std::mem::swap(&mut slots, &mut self.slots);
        let mut i: usize = 0;
        while i < slots.len()
            invariant
                keys_distinct(slots@),
                i <= slots@.len(),
                forall|j: int| 0 <= j < i ==> is_fresh((#[trigger] slots@[j]).result@, now, ttl),
                forall|key: Seq<char>| #[trigger]
                    contents(slots@).contains_key(key) ==> before.contains_key(key) && before[key]
                        == contents(slots@)[key],
                forall|key: Seq<char>|
                    before.contains_key(key) && is_fresh(before[key], now, ttl)
                        ==> #[trigger] contents(slots@).contains_key(key),
            decreases slots@.len() - i,
        {
            proof {
                lemma_slot_in_contents(slots@, i as int);
            }
            if age_at(slots[i].result.created_at, now) < ttl {
                i += 1;
            } else {
                let ghost current = contents(slots@);
                let ghost gone = slots@[i as int].key@;
                proof {
                    lemma_remove_slot(slots@, i as int);
                }
                let _ = slots.remove(i);
                proof {
                    assert(contents(slots@) == current.remove(gone));
                    assert forall|key: Seq<char>| #[trigger]
                        contents(slots@).contains_key(key) implies before.contains_key(key)
                        && before[key] == contents(slots@)[key] by {
                        assert(current.contains_key(key));
                    }
                    assert forall|key: Seq<char>|
                        before.contains_key(key) && is_fresh(
                            before[key],
                            now,
                            ttl,
                        ) implies #[trigger] contents(slots@).contains_key(key) by {
                        assert(current.contains_key(key));
                        assert(key != gone);
                    }
                }
            }
        }
        proof {
            assert forall|key: Seq<char>| contents(slots@).contains_key(key) implies is_fresh(
                before[key],
                now,
                ttl,
            ) by {
                let j = slot_of(slots@, key);
                assert(0 <= j < slots@.len() && slots@[j].key@ == key);
                lemma_slot_in_contents(slots@, j);
            }
            assert(contents(slots@) =~= swept(before, now, ttl));
        }
        self.slots = slots;
    }
}

/// The rows, where they are to be served; nothing, where they are not.
pub open spec fn served<T>(payload: Seq<T>, fresh: bool) -> Option<Seq<T>> {
    if fresh {
        Some(payload)
    } else {
        None
    }
}

/// Freshness: after rows are stored under a key at `created_at`, a read of
/// that key at `now` returns those rows exactly while their age is under
/// `ttl`, and nothing from then on. For a clock that has not gone back, the
/// age is the difference of the two instants.
pub proof fn freshness_law<T>(
    entries: Map<Seq<char>, Snapshot<T>>,
    key: Seq<char>,
    payload: Seq<T>,
    created_at: u64,
    now: u64,
    ttl: u64,
)
    ensures
        fresh_payload(entries.insert(key, snapshot(payload, created_at)), key, now, ttl) == served(
            payload,
            age(created_at, now) < ttl,
        ),
        now >= created_at ==> age(created_at, now) == now - created_at,
        now >= created_at ==> fresh_payload(
            swept(entries.insert(key, snapshot(payload, created_at)), created_at, ttl),
            key,
            now,
            ttl,
        ) == served(payload, now - created_at < ttl),
{
}

/// Sweeping leaves only fresh entries: whatever was stored before, every entry
/// that is left after a sweep at `now` has an age under `ttl`, and is an entry
/// that was there before.
pub proof fn sweep_leaves_only_fresh<T>(
    entries: Map<Seq<char>, Snapshot<T>>,
    key: Seq<char>,
    entry: Snapshot<T>,
    now: u64,
    ttl: u64,
)
    ensures
        forall|k: Seq<char>| #[trigger]
            swept(entries, now, ttl).contains_key(k) ==> entries.contains_key(k) && swept(
                entries,
                now,
                ttl,
            )[k] == entries[k] && age(entries[k].created_at, now) < ttl,
        forall|k: Seq<char>| #[trigger]
            swept(entries.insert(key, entry), now, ttl).contains_key(k) ==> age(
                swept(entries.insert(key, entry), now, ttl)[k].created_at,
                now,
            ) < ttl,
{
}

/// Reading again: with nothing stored in between, a second read of a key at
/// a later instant that returns rows returns the rows of the first; two reads
/// at one instant return the same.
pub proof fn reread_is_stable<T>(
    entries: Map<Seq<char>, Snapshot<T>>,
    key: Seq<char>,
    first: u64,
    second: u64,
    ttl: u64,
)
    requires
        first <= second,
    ensures
        fresh_payload(entries, key, second, ttl).is_some() ==> fresh_payload(
            entries,
            key,
            first,
            ttl,
        ) == fresh_payload(entries, key, second, ttl),
        first == second ==> fresh_payload(entries, key, first, ttl) == fresh_payload(
            entries,
            key,
            second,
            ttl,
        ),
{
}

/// A sweep changes no later read: what a key's read returns at `now` is the
/// same whether or not the entries were swept at an instant up to `now`.
pub proof fn sweep_keeps_reads<T>(
    entries: Map<Seq<char>, Snapshot<T>>,
    key: Seq<char>,
    swept_at: u64,
    now: u64,
    ttl: u64,
)
    requires
        swept_at <= now,
    ensures
        fresh_payload(swept(entries, swept_at, ttl), key, now, ttl) == fresh_payload(
            entries,
            key,
            now,
            ttl,
        ),
{
}

} // verus!
