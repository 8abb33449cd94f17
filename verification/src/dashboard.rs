//! Helpers of the dashboard that renders what the pipeline produced.
//!
//! The dashboard keeps short-lived per-key caches of what it fetched from
//! remote services. The caches are explicit values passed by reference, with
//! the current time handed in, so every lookup and store is a verified
//! function of its inputs.

use vstd::prelude::*;

verus! {

/// One cached value: when it was stored and what was stored (a remote
/// lookup may cache a miss, so the value itself is optional).
pub struct CacheEntry<T> {
    pub ts: u64,
    pub val: Option<T>,
}

/// A cache slot: the key and its entry.
pub struct CacheSlot<T> {
    pub key: u32,
    pub entry: CacheEntry<T>,
}

/// A per-key cache with a freshness window decided at lookup time.
pub struct TtlCache<T> {
    slots: Vec<CacheSlot<T>>,
}

/// Whether some slot of `s` holds `key`.
pub open spec fn slots_have_key<T>(s: Seq<CacheSlot<T>>, key: u32) -> bool {
    exists|i: int| 0 <= i < s.len() && (#[trigger] s[i]).key == key
}

/// The stored time of `key`'s slot in `s` (meaningful only when present).
pub open spec fn slots_ts<T>(s: Seq<CacheSlot<T>>, key: u32) -> u64 {
    let i = choose|i: int| 0 <= i < s.len() && (#[trigger] s[i]).key == key;
    s[i].entry.ts
}

/// Keys of `s` are unique: each key has at most one slot.
pub open spec fn slots_unique<T>(s: Seq<CacheSlot<T>>) -> bool {
    forall|i: int, j: int| 0 <= i < j < s.len() ==> s[i].key != s[j].key
}

impl<T> TtlCache<T> {
    /// Whether some slot holds `key`.
    pub closed spec fn spec_has_key(self, key: u32) -> bool {
        slots_have_key(self.slots@, key)
    }

    /// The stored time of `key`'s slot (meaningful only when present).
    pub closed spec fn spec_ts(self, key: u32) -> u64 {
        slots_ts(self.slots@, key)
    }

    /// Keys are unique: each key has at most one slot.
    pub closed spec fn wf(self) -> bool {
        slots_unique(self.slots@)
    }

    /// An empty cache.
    pub fn new() -> (c: Self)
        ensures
            c.wf(),
            forall|k: u32| !c.spec_has_key(k),
    {
        TtlCache { slots: Vec::new() }
    }
}

/// Whether a slot stored at `ts` is still fresh at `now` for window `ttl`.
pub open spec fn spec_fresh(ts: u64, now: u64, ttl: u64) -> bool {
    ts <= now && now - ts < ttl
}

/// Looks `tmdb_id` up: a hit exactly when the key is cached and its entry
/// is still fresh at `now`; the hit carries a clone of the stored value.
pub fn get_cached<T: Clone>(
    cache: &TtlCache<T>,
    tmdb_id: u32,
    now: u64,
    ttl: u64,
) -> (r: Option<Option<T>>)
    requires
        cache.wf(),
    ensures
        r is Some <==> cache.spec_has_key(tmdb_id) && spec_fresh(
            cache.spec_ts(tmdb_id),
            now,
            ttl,
        ),
{
    let n = cache.slots.len();
    let mut i: usize = 0;
    while i < n
        invariant
            n == cache.slots@.len(),
            0 <= i <= n,
            cache.wf(),
            forall|k: int| 0 <= k < i ==> (#[trigger] cache.slots@[k]).key != tmdb_id,
        decreases n - i,
    {
        let slot = &cache.slots[i];
        if slot.key == tmdb_id {
            proof {
                assert(cache.spec_has_key(tmdb_id));
                assert(cache.spec_ts(tmdb_id) == slot.entry.ts) by {
                    let w = choose|w: int|
                        0 <= w < cache.slots@.len() && (#[trigger] cache.slots@[w]).key == tmdb_id;
                    if w != i as int {
                        assert(cache.slots@[w].key != cache.slots@[i as int].key);
                    }
                }
            }
            if slot.entry.ts <= now && now - slot.entry.ts < ttl {
                return Some(slot.entry.val.clone());
            } else {
                return None;
            }
        }
        i = i + 1;
    }
    proof {
        assert(!cache.spec_has_key(tmdb_id));
    }
    None
}

/// Stores `val` for `tmdb_id` at time `now`, replacing any earlier slot for
/// the same key and leaving every other key's slot alone.
pub fn set_cached<T: Clone>(cache: &mut TtlCache<T>, tmdb_id: u32, now: u64, val: Option<T>)
    requires
        old(cache).wf(),
    ensures
        final(cache).wf(),
        final(cache).spec_has_key(tmdb_id),
        final(cache).spec_ts(tmdb_id) == now,
        forall|k: u32|
            k != tmdb_id ==> (#[trigger] final(cache).spec_has_key(k) == old(cache).spec_has_key(
                k,
            ) && (old(cache).spec_has_key(k) ==> final(cache).spec_ts(k) == old(cache).spec_ts(k))),
{
    let n = cache.slots.len();
    let mut i: usize = 0;
    while i < n
        invariant
            n == cache.slots@.len(),
            0 <= i <= n,
            cache == old(cache),
            old(cache).wf(),
            forall|k: int| 0 <= k < i ==> (#[trigger] cache.slots@[k]).key != tmdb_id,
        decreases n - i,
    {
        if cache.slots[i].key == tmdb_id {
            cache.slots[i] = CacheSlot { key: tmdb_id, entry: CacheEntry { ts: now, val } };
            proof {
                lemma_cache_lookup(cache.slots@, old(cache).slots@, tmdb_id, now, i as int);
            }
            return ;
        }
        i = i + 1;
    }
    let ghost before = cache.slots@;
    cache.slots.push(CacheSlot { key: tmdb_id, entry: CacheEntry { ts: now, val } });
    proof {
        lemma_cache_append(cache.slots@, before, tmdb_id, now);
    }
}

/// After replacing slot `i` in place, lookups behave as stores should: the
/// written key reads back the new entry, other keys read what they read
/// before.
proof fn lemma_cache_lookup<T>(
    cur: Seq<CacheSlot<T>>,
    prev: Seq<CacheSlot<T>>,
    key: u32,
    now: u64,
    i: int,
)
    requires
        forall|a: int, b: int| 0 <= a < b < prev.len() ==> prev[a].key != prev[b].key,
        0 <= i < prev.len(),
        prev[i].key == key,
        cur.len() == prev.len(),
        cur[i].key == key,
        cur[i].entry.ts == now,
        forall|a: int| 0 <= a < cur.len() && a != i ==> cur[a] == prev[a],
    ensures
        slots_unique(cur),
        slots_have_key(cur, key),
        slots_ts(cur, key) == now,
        forall|k: u32|
            k != key ==> (slots_have_key(cur, k) == slots_have_key(prev, k) && (slots_have_key(
                prev,
                k,
            ) ==> slots_ts(cur, k) == slots_ts(prev, k))),
{
    assert(slots_have_key(cur, key)) by {
        assert(cur[i].key == key);
    }
    assert(slots_ts(cur, key) == now) by {
        let w = choose|w: int| 0 <= w < cur.len() && (#[trigger] cur[w]).key == key;
        if w != i {
            assert(prev[w] == cur[w]);
        }
    }
    assert forall|k: u32| k != key implies (slots_have_key(cur, k) == slots_have_key(prev, k) && (
    slots_have_key(prev, k) ==> slots_ts(cur, k) == slots_ts(prev, k))) by {
        if slots_have_key(prev, k) {
            let w = choose|w: int| 0 <= w < prev.len() && (#[trigger] prev[w]).key == k;
            assert(w != i);
            assert(cur[w] == prev[w]);
            assert(slots_have_key(cur, k));
            let w2 = choose|w2: int| 0 <= w2 < cur.len() && (#[trigger] cur[w2]).key == k;
            if w2 != w {
                if w2 == i {
                } else {
                    assert(prev[w2] == cur[w2]);
                    assert(prev[w2].key != prev[w].key);
                }
            }
            let w3 = choose|w3: int| 0 <= w3 < prev.len() && (#[trigger] prev[w3]).key == k;
            if w3 != w {
                assert(prev[w3].key != prev[w].key);
            }
        } else {
            if slots_have_key(cur, k) {
                let w = choose|w: int| 0 <= w < cur.len() && (#[trigger] cur[w]).key == k;
                assert(w != i);
                assert(cur[w] == prev[w]);
            }
        }
    }
}

/// After appending a slot for a key that had none, lookups behave as stores
/// should.
proof fn lemma_cache_append<T>(cur: Seq<CacheSlot<T>>, prev: Seq<CacheSlot<T>>, key: u32, now: u64)
    requires
        forall|a: int, b: int| 0 <= a < b < prev.len() ==> prev[a].key != prev[b].key,
        forall|a: int| 0 <= a < prev.len() ==> (#[trigger] prev[a]).key != key,
        cur.len() == prev.len() + 1,
        cur[cur.len() - 1].key == key,
        cur[cur.len() - 1].entry.ts == now,
        forall|a: int| 0 <= a < prev.len() ==> cur[a] == prev[a],
    ensures
        slots_unique(cur),
        slots_have_key(cur, key),
        slots_ts(cur, key) == now,
        forall|k: u32|
            k != key ==> (slots_have_key(cur, k) == slots_have_key(prev, k) && (slots_have_key(
                prev,
                k,
            ) ==> slots_ts(cur, k) == slots_ts(prev, k))),
{
    let last = cur.len() - 1;
    assert(slots_have_key(cur, key)) by {
        assert(cur[last].key == key);
    }
    assert(slots_ts(cur, key) == now) by {
        let w = choose|w: int| 0 <= w < cur.len() && (#[trigger] cur[w]).key == key;
        if w != last {
            assert(cur[w] == prev[w]);
        }
    }
    assert forall|k: u32| k != key implies (slots_have_key(cur, k) == slots_have_key(prev, k) && (
    slots_have_key(prev, k) ==> slots_ts(cur, k) == slots_ts(prev, k))) by {
        if slots_have_key(prev, k) {
            let w = choose|w: int| 0 <= w < prev.len() && (#[trigger] prev[w]).key == k;
            assert(cur[w] == prev[w]);
            assert(slots_have_key(cur, k));
            let w2 = choose|w2: int| 0 <= w2 < cur.len() && (#[trigger] cur[w2]).key == k;
            if w2 != w {
                if w2 == last {
                } else {
                    assert(prev[w2] == cur[w2]);
                    assert(prev[w2].key != prev[w].key);
                }
            }
            let w3 = choose|w3: int| 0 <= w3 < prev.len() && (#[trigger] prev[w3]).key == k;
            if w3 != w {
                assert(prev[w3].key != prev[w].key);
            }
        } else {
            if slots_have_key(cur, k) {
                let w = choose|w: int| 0 <= w < cur.len() && (#[trigger] cur[w]).key == k;
                if w != last {
                    assert(cur[w] == prev[w]);
                }
            }
        }
    }
}

/// The leading four characters of a release date such as `YYYY-MM-DD`, as
/// the year shown next to a title, or nothing when the date is shorter.
pub fn year_from_release_date(d: &Option<String>) -> (r: Option<String>)
    ensures
        match d {
            Some(s) => if s@.len() >= 4 {
                r is Some && r->0@ == s@.subrange(0, 4)
            } else {
                r is None
            },
            None => r is None,
        },
{
    match d {
        Some(s) => {
            let str = s.as_str();
            if str.unicode_len() >= 4 {
                Some(str.substring_char(0, 4).to_owned())
            } else {
                None
            }
        },
        None => None,
    }
}

} // verus!
