//! The bounded response cache: at most `CACHE_SIZE` entries and
//! `MAX_CACHE_BYTES` accounted bytes, least recently used entries evicted
//! first, expired entries dropped when they are next looked up.
use lru::LruCache;
use std::collections::HashMap;
use vstd::prelude::*;

use crate::clock::unix_now;
use crate::limits::{CACHE_SIZE, MAX_CACHE_BYTES, MAX_ENTRY_SIZE};
use crate::recency::{
    lemma_without_contains, lru_clear, lru_keys, lru_len, lru_pop, lru_pop_lru, lru_promote,
    lru_put, lru_unbounded, without,
};
use crate::response::{capped_size, entry_size, CachedResponse, ResponseView};

verus! {

broadcast use vstd::std_specs::hash::group_hash_axioms;

/// The state of a cache as plain values.
pub struct CacheView {
    /// The cached keys, least recently used first.
    pub order: Seq<u64>,
    pub entries: Map<u64, ResponseView>,
    /// The running total of accounted bytes.
    pub total: nat,
}

/// The summed accounted sizes of the entries of `order`.
pub open spec fn sum_sizes(order: Seq<u64>, entries: Map<u64, ResponseView>) -> nat
    decreases order.len(),
{
    if order.len() == 0 {
        0
    } else {
        sum_sizes(order.drop_last(), entries) + entry_size(entries[order.last()])
    }
}

/// The invariant of every cache state: each key listed once, the list and the
/// map hold the same keys, both bounds hold, no entry is over the per-entry
/// limit, and the running total is the sum of the entries' sizes.
pub open spec fn cache_wf(v: CacheView) -> bool {
    &&& v.order.no_duplicates()
    &&& forall|k: u64| #[trigger] v.order.contains(k) <==> v.entries.contains_key(k)
    &&& v.order.len() <= CACHE_SIZE
    &&& v.total == sum_sizes(v.order, v.entries)
    &&& v.total <= MAX_CACHE_BYTES
    &&& forall|k: u64| #[trigger]
        v.entries.contains_key(k) ==> entry_size(v.entries[k]) <= MAX_ENTRY_SIZE
}

pub open spec fn empty_cache() -> CacheView {
    CacheView { order: Seq::empty(), entries: Map::empty(), total: 0 }
}

/// `v` without its least recently used entry.
pub open spec fn evict_lru(v: CacheView) -> CacheView {
    let k = v.order[0];
    CacheView {
        order: v.order.drop_first(),
        entries: v.entries.remove(k),
        total: (v.total - entry_size(v.entries[k])) as nat,
    }
}

/// `v` without the entry of `k`.
pub open spec fn remove_key(v: CacheView, k: u64) -> CacheView {
    CacheView {
        order: without(v.order, k),
        entries: v.entries.remove(k),
        total: (v.total - entry_size(v.entries[k])) as nat,
    }
}

/// `v` after evicting least recently used entries for as long as the budget
/// cannot take `need` more bytes and some entry is left.
pub open spec fn evict_for(v: CacheView, need: nat) -> CacheView
    decreases v.order.len(),
{
    if v.total + need > MAX_CACHE_BYTES && v.order.len() > 0 {
        evict_for(evict_lru(v), need)
    } else {
        v
    }
}

/// The state after storing `e` under `key`. An entry over the per-entry limit
/// changes nothing. Otherwise entries are evicted for its size, an older
/// entry of `key` is replaced (its size debited), or, when the cache is
/// full, the least recently used entry leaves; `key` becomes the most
/// recently used.
pub open spec fn spec_put(v: CacheView, key: u64, e: ResponseView) -> CacheView {
    let size = entry_size(e);
    if size > MAX_ENTRY_SIZE {
        v
    } else {
        let w = evict_for(v, size);
        let x = if w.entries.contains_key(key) {
            remove_key(w, key)
        } else if w.order.len() >= CACHE_SIZE {
            evict_lru(w)
        } else {
            w
        };
        CacheView {
            order: x.order.push(key),
            entries: x.entries.insert(key, e),
            total: x.total + size,
        }
    }
}

/// The state after looking up `key` at time `now`, and what the lookup
/// returns: a live entry is returned and becomes the most recently used; an
/// expired one is removed and nothing is returned.
pub open spec fn spec_get(v: CacheView, key: u64, now: u64) -> (CacheView, Option<ResponseView>) {
    if !v.entries.contains_key(key) {
        (v, None)
    } else if v.entries[key].expires > now {
        (
            CacheView {
                order: without(v.order, key).push(key),
                entries: v.entries,
                total: v.total,
            },
            Some(v.entries[key]),
        )
    } else {
        (remove_key(v, key), None)
    }
}

proof fn lemma_sum_frame(s: Seq<u64>, m: Map<u64, ResponseView>, k: u64, e: ResponseView)
    requires
        !s.contains(k),
    ensures
        sum_sizes(s, m.insert(k, e)) == sum_sizes(s, m),
        sum_sizes(s, m.remove(k)) == sum_sizes(s, m),
    decreases s.len(),
{
    if s.len() > 0 {
        let d = s.drop_last();
        assert(!d.contains(k)) by {
            if d.contains(k) {
                let j = choose|j: int| 0 <= j < d.len() && d[j] == k;
                assert(s[j] == k);
            }
        }
        assert(s.last() != k) by {
            assert(s[s.len() - 1] == s.last());
        }
        lemma_sum_frame(d, m, k, e);
    }
}

proof fn lemma_sum_without(s: Seq<u64>, m: Map<u64, ResponseView>, k: u64)
    requires
        s.no_duplicates(),
        s.contains(k),
    ensures
        sum_sizes(without(s, k), m) + entry_size(m[k]) == sum_sizes(s, m),
    decreases s.len(),
{
    let d = s.drop_last();
    assert(d.no_duplicates()) by {
        assert forall|i: int, j: int| 0 <= i < d.len() && 0 <= j < d.len() && i != j implies d[i]
            != d[j] by {
            assert(s[i] == d[i] && s[j] == d[j]);
        }
    }
    if s.last() == k {
        assert(!d.contains(k)) by {
            if d.contains(k) {
                let j = choose|j: int| 0 <= j < d.len() && d[j] == k;
                assert(s[j] == s[s.len() - 1]);
            }
        }
        lemma_without_contains(d, k);
    } else {
        assert(d.contains(k)) by {
            let j = choose|j: int| 0 <= j < s.len() && s[j] == k;
            assert(j != s.len() - 1);
            assert(d[j] == k);
        }
        lemma_sum_without(d, m, k);
        let w = without(d, k);
        assert(without(s, k) == w.push(s.last()));
        assert(w.push(s.last()).drop_last() =~= w);
    }
}

proof fn lemma_sum_drop_first(s: Seq<u64>, m: Map<u64, ResponseView>)
    requires
        s.len() > 0,
    ensures
        sum_sizes(s, m) == entry_size(m[s[0]]) + sum_sizes(s.drop_first(), m),
    decreases s.len(),
{
    if s.len() > 1 {
        let d = s.drop_last();
        lemma_sum_drop_first(d, m);
        assert(d.drop_first() =~= s.drop_first().drop_last());
        assert(s.drop_first().last() == s.last());
        assert(d[0] == s[0]);
        assert(sum_sizes(s.drop_first(), m) == sum_sizes(d.drop_first(), m) + entry_size(
            m[s.last()],
        ));
    } else {
        assert(s.drop_first().len() == 0);
        assert(s.drop_last().len() == 0);
        assert(s.last() == s[0]);
        assert(sum_sizes(s.drop_last(), m) == 0);
    }
}

proof fn lemma_sum_push(s: Seq<u64>, m: Map<u64, ResponseView>, k: u64)
    ensures
        sum_sizes(s.push(k), m) == sum_sizes(s, m) + entry_size(m[k]),
{
    assert(s.push(k).drop_last() =~= s);
}

proof fn lemma_remove_key_wf(v: CacheView, k: u64)
    requires
        cache_wf(v),
        v.entries.contains_key(k),
    ensures
        cache_wf(remove_key(v, k)),
        remove_key(v, k).total + entry_size(v.entries[k]) == v.total,
        remove_key(v, k).order.len() + 1 == v.order.len(),
{
    let r = remove_key(v, k);
    lemma_without_contains(v.order, k);
    lemma_sum_without(v.order, v.entries, k);
    lemma_sum_frame(without(v.order, k), v.entries, k, v.entries[k]);
}

proof fn lemma_evict_lru_wf(v: CacheView)
    requires
        cache_wf(v),
        v.order.len() > 0,
    ensures
        cache_wf(evict_lru(v)),
        evict_lru(v).total + entry_size(v.entries[v.order[0]]) == v.total,
        evict_lru(v).order.len() + 1 == v.order.len(),
{
    let k = v.order[0];
    let r = evict_lru(v);
    assert(v.order.contains(k));
    lemma_sum_drop_first(v.order, v.entries);
    let d = v.order.drop_first();
    assert(!d.contains(k)) by {
        if d.contains(k) {
            let j = choose|j: int| 0 <= j < d.len() && d[j] == k;
            assert(v.order[j + 1] == v.order[0]);
        }
    }
    lemma_sum_frame(d, v.entries, k, v.entries[k]);
    assert forall|x: u64| #[trigger] d.contains(x) <==> r.entries.contains_key(x) by {
        if d.contains(x) {
            let j = choose|j: int| 0 <= j < d.len() && d[j] == x;
            assert(v.order[j + 1] == x);
        }
        if v.order.contains(x) && x != k {
            let j = choose|j: int| 0 <= j < v.order.len() && v.order[j] == x;
            assert(j != 0);
            assert(d[j - 1] == x);
        }
    }
    assert(d.no_duplicates()) by {
        assert forall|i: int, j: int| 0 <= i < d.len() && 0 <= j < d.len() && i != j implies d[i]
            != d[j] by {
            assert(v.order[i + 1] == d[i] && v.order[j + 1] == d[j]);
        }
    }
}

proof fn lemma_evict_for_wf(v: CacheView, need: nat)
    requires
        cache_wf(v),
    ensures
        cache_wf(evict_for(v, need)),
        evict_for(v, need).total + need <= MAX_CACHE_BYTES || evict_for(v, need).order.len() == 0,
        evict_for(v, need).total <= v.total,
        forall|k: u64| #[trigger]
            evict_for(v, need).entries.contains_key(k) ==> v.entries.contains_key(k)
                && evict_for(v, need).entries[k] == v.entries[k],
    decreases v.order.len(),
{
    if v.total + need > MAX_CACHE_BYTES && v.order.len() > 0 {
        lemma_evict_lru_wf(v);
        lemma_evict_for_wf(evict_lru(v), need);
    }
}

proof fn lemma_empty_order(v: CacheView)
    requires
        cache_wf(v),
        v.order.len() == 0,
    ensures
        v.total == 0,
        v.entries =~= Map::<u64, ResponseView>::empty(),
{
    assert forall|k: u64| !v.entries.contains_key(k) by {
        assert(!v.order.contains(k));
    }
}

/// Storing an entry keeps every invariant of the cache: whatever was stored
/// before, the running total stays within `MAX_CACHE_BYTES`, the count within
/// `CACHE_SIZE`, and the total equals the sum of the entries' sizes.
pub proof fn lemma_put_keeps_budget(v: CacheView, key: u64, e: ResponseView)
    requires
        cache_wf(v),
    ensures
        cache_wf(spec_put(v, key, e)),
        spec_put(v, key, e).total <= MAX_CACHE_BYTES,
        spec_put(v, key, e).order.len() <= CACHE_SIZE,
        entry_size(e) > MAX_ENTRY_SIZE ==> spec_put(v, key, e) == v,
{
    let size = entry_size(e);
    if size <= MAX_ENTRY_SIZE {
        let w = evict_for(v, size);
        lemma_evict_for_wf(v, size);
        if w.order.len() == 0 {
            lemma_empty_order(w);
        }
        let x = if w.entries.contains_key(key) {
            lemma_remove_key_wf(w, key);
            remove_key(w, key)
        } else if w.order.len() >= CACHE_SIZE {
            lemma_evict_lru_wf(w);
            evict_lru(w)
        } else {
            w
        };
        assert(cache_wf(x));
        assert(!x.entries.contains_key(key));
        assert(x.total + size <= MAX_CACHE_BYTES);
        assert(x.order.len() < CACHE_SIZE);
        let r = spec_put(v, key, e);
        assert(!x.order.contains(key));
        lemma_sum_frame(x.order, x.entries, key, e);
        lemma_sum_push(x.order, x.entries.insert(key, e), key);
        assert forall|k: u64| #[trigger] r.order.contains(k) <==> r.entries.contains_key(k) by {
            if r.order.contains(k) && k != key {
                let j = choose|j: int| 0 <= j < r.order.len() && r.order[j] == k;
                assert(x.order[j] == k);
            }
            if x.order.contains(k) {
                let j = choose|j: int| 0 <= j < x.order.len() && x.order[j] == k;
                assert(r.order[j] == k);
            }
            if k == key {
                assert(r.order[r.order.len() - 1] == key);
            }
        }
        assert forall|i: int, j: int|
            0 <= i < r.order.len() && 0 <= j < r.order.len() && i != j implies r.order[i]
            != r.order[j] by {
            if i < x.order.len() && j < x.order.len() {
            } else if i < x.order.len() {
                assert(x.order.contains(x.order[i]));
            } else if j < x.order.len() {
                assert(x.order.contains(x.order[j]));
            }
        }
    }
}

proof fn lemma_get_wf(v: CacheView, key: u64, now: u64)
    requires
        cache_wf(v),
    ensures
        cache_wf(spec_get(v, key, now).0),
{
    if v.entries.contains_key(key) {
        if v.entries[key].expires > now {
            let s = v.order;
            let w = without(s, key);
            lemma_without_contains(s, key);
            lemma_sum_without(s, v.entries, key);
            lemma_sum_push(w, v.entries, key);
            let r = w.push(key);
            assert forall|k: u64| #[trigger] r.contains(k) <==> v.entries.contains_key(k) by {
                if r.contains(k) && k != key {
                    let j = choose|j: int| 0 <= j < r.len() && r[j] == k;
                    assert(w[j] == k);
                }
                if w.contains(k) {
                    let j = choose|j: int| 0 <= j < w.len() && w[j] == k;
                    assert(r[j] == k);
                }
                if k == key {
                    assert(r[r.len() - 1] == key);
                }
            }
            assert forall|i: int, j: int| 0 <= i < r.len() && 0 <= j < r.len() && i != j implies r[i]
                != r[j] by {
                if i < w.len() && j < w.len() {
                } else if i < w.len() {
                    assert(w.contains(w[i]));
                } else if j < w.len() {
                    assert(w.contains(w[j]));
                }
            }
        } else {
            lemma_remove_key_wf(v, key);
        }
    }
}


/// A bounded, least-recently-used cache of responses keyed by cache key.
/// Each operation leaves the invariant of `cache_wf` intact, so callers that
/// share one cache behind a lock see it hold after every operation.
///
/// The recency list has no capacity of its own: the cache evicts for both
/// bounds itself, so that every eviction is debited from the running total.
pub struct ProxyCache {
    recency: LruCache<u64, ()>,
    entries: HashMap<u64, CachedResponse>,
    total_size: usize,
}

impl View for ProxyCache {
    type V = CacheView;

    closed spec fn view(&self) -> CacheView {
        CacheView {
            order: lru_keys(self.recency),
            entries: self.entries@.map_values(|r: CachedResponse| r@),
            total: self.total_size as nat,
        }
    }
}

impl ProxyCache {
    /// The cache's invariant.
    pub open spec fn wf(&self) -> bool {
        cache_wf(self@)
    }

    /// An empty cache.
    pub fn new() -> (r: ProxyCache)
        ensures
            r.wf(),
            r@ == empty_cache(),
    {
        let r = ProxyCache { recency: lru_unbounded(), entries: HashMap::new(), total_size: 0 };
        assert(r@.entries =~= Map::<u64, ResponseView>::empty());
        r
    }

    /// Whether the cache holds no entry.
    pub fn is_empty(&self) -> (r: bool)
        ensures
            r == (self@.order.len() == 0),
    {
        lru_len(&self.recency) == 0
    }

    /// The number of entries.
    pub fn len(&self) -> (r: usize)
        ensures
            r == self@.order.len(),
    {
        lru_len(&self.recency)
    }

    /// The running total of accounted bytes.
    pub fn total_size(&self) -> (r: usize)
        ensures
            r == self@.total,
    {
        self.total_size
    }

    /// Removes every entry and zeroes the running total.
    pub fn clear(&mut self)
        ensures
            final(self).wf(),
            final(self)@ == empty_cache(),
    {
        lru_clear(&mut self.recency);
        self.entries.clear();
        self.total_size = 0;
        assert(self@.entries =~= Map::<u64, ResponseView>::empty());
    }

    /// The accounted size of an entry.
    fn calculate_entry_size(entry: &CachedResponse) -> (r: usize)
        ensures
            r == capped_size(entry@),
    {
        entry.accounted_size()
    }

    /// Takes the entry of `key` out of the map and the recency list, debiting
    /// its size.
    fn remove_entry(&mut self, key: u64)
        requires
            old(self).wf(),
            old(self)@.entries.contains_key(key),
        ensures
            final(self).wf(),
            final(self)@ == remove_key(old(self)@, key),
    {
        let ghost v = self@;
        proof {
            lemma_remove_key_wf(v, key);
        }
        lru_pop(&mut self.recency, key);
        let removed = self.entries.remove(&key);
        if let Some(gone) = removed {
            let size = Self::calculate_entry_size(&gone);
            self.total_size = self.total_size - size;
        }
        assert(self@.entries =~= v.entries.remove(key));
    }

    /// Evicts the least recently used entry.
    fn evict_oldest(&mut self)
        requires
            old(self).wf(),
            old(self)@.order.len() > 0,
        ensures
            final(self).wf(),
            final(self)@ == evict_lru(old(self)@),
    {
        let ghost v = self@;
        proof {
            lemma_evict_lru_wf(v);
            assert(v.order.contains(v.order[0]));
        }
        let victim = lru_pop_lru(&mut self.recency);
        if let Some(k) = victim {
            let removed = self.entries.remove(&k);
            if let Some(gone) = removed {
                let size = Self::calculate_entry_size(&gone);
                self.total_size = self.total_size - size;
            }
        }
        assert(self@.entries =~= v.entries.remove(v.order[0]));
    }

    /// Looks up `key` at UNIX time `now`: a live entry is returned (and
    /// becomes the most recently used), an expired one is removed.
    pub fn get_at(&mut self, key: u64, now: u64) -> (r: Option<CachedResponse>)
        requires
            old(self).wf(),
        ensures
            final(self).wf(),
            final(self)@ == spec_get(old(self)@, key, now).0,
            match spec_get(old(self)@, key, now).1 {
                Some(e) => r matches Some(c) && c@ == e,
                None => r is None,
            },
    {
        let ghost v = self@;
        proof {
            lemma_get_wf(v, key, now);
        }
        let found = self.entries.get(&key);
        match found {
            None => None,
            Some(entry) => {
                if entry.expires > now {
                    let out = entry.share();
                    lru_promote(&mut self.recency, key);
                    proof {
                        assert(v.order.contains(key));
                    }
                    Some(out)
                } else {
                    self.remove_entry(key);
                    None
                }
            },
        }
    }

    /// Looks up `key` at the current time of the wall clock.
    pub fn get(&mut self, key: u64) -> (r: Option<CachedResponse>)
        requires
            old(self).wf(),
        ensures
            final(self).wf(),
            exists|now: u64|
                {
                    &&& final(self)@ == #[trigger] spec_get(old(self)@, key, now).0
                    &&& match spec_get(old(self)@, key, now).1 {
                        Some(e) => r matches Some(c) && c@ == e,
                        None => r is None,
                    }
                },
    {
        let now = unix_now();
        let r = self.get_at(key, now);
        assert(final(self)@ == spec_get(old(self)@, key, now).0);
        r
    }

    /// Stores `response` under `key`; returns `false`, changing nothing, when
    /// its accounted size is over `MAX_ENTRY_SIZE`.
    pub fn put(&mut self, key: u64, response: CachedResponse) -> (r: bool)
        requires
            old(self).wf(),
        ensures
            final(self).wf(),
            r == (entry_size(response@) <= MAX_ENTRY_SIZE),
            !r ==> final(self)@ == old(self)@,
            final(self)@ == spec_put(old(self)@, key, response@),
    {
        let ghost v = self@;
        let ghost e = response@;
        proof {
            lemma_put_keeps_budget(v, key, e);
        }
        let size = Self::calculate_entry_size(&response);
        if size > MAX_ENTRY_SIZE {
            return false;
        }
        while self.total_size + size > MAX_CACHE_BYTES && lru_len(&self.recency) > 0
            invariant
                self.wf(),
                size == entry_size(e),
                size <= MAX_ENTRY_SIZE,
                evict_for(self@, size as nat) == evict_for(v, size as nat),
            decreases self@.order.len(),
        {
            self.evict_oldest();
        }
        proof {
            lemma_evict_for_wf(v, size as nat);
        }
        if self.entries.contains_key(&key) {
            self.remove_entry(key);
        } else if lru_len(&self.recency) >= CACHE_SIZE {
            self.evict_oldest();
        }
        let ghost x = self@;
        proof {
            assert(!x.entries.contains_key(key));
            assert(!x.order.contains(key));
        }
        self.entries.insert(key, response);
        lru_put(&mut self.recency, key);
        self.total_size = self.total_size + size;
        proof {
            lemma_without_contains(x.order, key);
            assert(self@.entries =~= x.entries.insert(key, e));
        }
        true
    }
}


impl Default for ProxyCache {
    fn default() -> (r: ProxyCache)
        ensures
            r.wf(),
            r@ == empty_cache(),
    {
        ProxyCache::new()
    }
}

/// An entry that was stored is returned by a lookup right after, unchanged,
/// while its expiry time is later than the lookup's time, and never at or
/// after its expiry time.
pub proof fn lemma_put_then_get(v: CacheView, key: u64, e: ResponseView, now: u64)
    requires
        cache_wf(v),
        entry_size(e) <= MAX_ENTRY_SIZE,
    ensures
        e.expires > now ==> spec_get(spec_put(v, key, e), key, now).1 == Some(e),
        e.expires <= now ==> spec_get(spec_put(v, key, e), key, now).1 is None,
        e.expires <= now ==> !spec_get(spec_put(v, key, e), key, now).0.entries.contains_key(key),
{
    let w = spec_put(v, key, e);
    assert(w.entries.contains_key(key) && w.entries[key] == e);
}

/// Storing a new key into a full cache, when the byte budget has room for
/// it, evicts exactly the least recently used key, keeps every other entry,
/// and the new entry can be looked up at once.
pub proof fn lemma_full_cache_evicts_lru(v: CacheView, key: u64, e: ResponseView, now: u64)
    requires
        cache_wf(v),
        v.order.len() == CACHE_SIZE,
        !v.entries.contains_key(key),
        entry_size(e) <= MAX_ENTRY_SIZE,
        v.total + entry_size(e) <= MAX_CACHE_BYTES,
        e.expires > now,
    ensures
        spec_put(v, key, e).order == v.order.drop_first().push(key),
        spec_put(v, key, e).entries == v.entries.remove(v.order[0]).insert(key, e),
        !spec_put(v, key, e).entries.contains_key(v.order[0]),
        spec_put(v, key, e).order.len() == CACHE_SIZE,
        spec_get(spec_put(v, key, e), key, now).1 == Some(e),
{
    assert(v.order.contains(v.order[0]));
    assert(v.order[0] != key);
    lemma_put_then_get(v, key, e, now);
}

/// While the cache needs no eviction, storing under one key leaves the entry
/// of every other key as it was.
pub proof fn lemma_put_keeps_other_entries(v: CacheView, key: u64, e: ResponseView, k: u64)
    requires
        cache_wf(v),
        k != key,
        v.entries.contains_key(k),
        v.order.len() < CACHE_SIZE,
        v.total + entry_size(e) <= MAX_CACHE_BYTES,
    ensures
        spec_put(v, key, e).entries.contains_key(k),
        spec_put(v, key, e).entries[k] == v.entries[k],
{
    if entry_size(e) <= MAX_ENTRY_SIZE {
        let w = spec_put(v, key, e);
        if v.entries.contains_key(key) {
            assert(remove_key(v, key).entries.contains_key(k));
        }
    }
}

/// A lookup of one key leaves the entry of every other key as it was.
pub proof fn lemma_get_keeps_other_entries(v: CacheView, key: u64, now: u64, k: u64)
    requires
        cache_wf(v),
        k != key,
        v.entries.contains_key(k),
    ensures
        spec_get(v, key, now).0.entries.contains_key(k),
        spec_get(v, key, now).0.entries[k] == v.entries[k],
{
}


/// One operation on a cache, as plain values.
pub enum CacheOp {
    /// Store an entry under a key.
    Put(u64, ResponseView),
    /// Look a key up at a UNIX time.
    Get(u64, u64),
}

pub open spec fn op_key(op: CacheOp) -> u64 {
    match op {
        CacheOp::Put(k, _) => k,
        CacheOp::Get(k, _) => k,
    }
}

/// The accounted bytes that an operation may add.
pub open spec fn op_size(op: CacheOp) -> nat {
    match op {
        CacheOp::Put(_, e) => entry_size(e),
        CacheOp::Get(_, _) => 0,
    }
}

pub open spec fn apply_op(v: CacheView, op: CacheOp) -> CacheView {
    match op {
        CacheOp::Put(k, e) => spec_put(v, k, e),
        CacheOp::Get(k, now) => spec_get(v, k, now).0,
    }
}

/// The state after the operations `ops`, in order.
pub open spec fn apply_ops(v: CacheView, ops: Seq<CacheOp>) -> CacheView
    decreases ops.len(),
{
    if ops.len() == 0 {
        v
    } else {
        apply_ops(apply_op(v, ops[0]), ops.drop_first())
    }
}

pub open spec fn ops_size(ops: Seq<CacheOp>) -> nat
    decreases ops.len(),
{
    if ops.len() == 0 {
        0
    } else {
        op_size(ops[0]) + ops_size(ops.drop_first())
    }
}

proof fn lemma_put_growth(v: CacheView, key: u64, e: ResponseView)
    requires
        cache_wf(v),
        v.total + entry_size(e) <= MAX_CACHE_BYTES,
        v.order.len() < CACHE_SIZE,
    ensures
        spec_put(v, key, e).total <= v.total + entry_size(e),
        spec_put(v, key, e).order.len() <= v.order.len() + 1,
{
    if entry_size(e) <= MAX_ENTRY_SIZE && v.entries.contains_key(key) {
        lemma_remove_key_wf(v, key);
    }
}

proof fn lemma_others_keep_entry(w: CacheView, k: u64, e: ResponseView, ops: Seq<CacheOp>)
    requires
        cache_wf(w),
        w.entries.contains_key(k),
        w.entries[k] == e,
        forall|i: int| 0 <= i < ops.len() ==> op_key(#[trigger] ops[i]) != k,
        w.order.len() + ops.len() <= CACHE_SIZE,
        w.total + ops_size(ops) <= MAX_CACHE_BYTES,
    ensures
        cache_wf(apply_ops(w, ops)),
        apply_ops(w, ops).entries.contains_key(k),
        apply_ops(w, ops).entries[k] == e,
    decreases ops.len(),
{
    if ops.len() > 0 {
        let op = ops[0];
        let rest = ops.drop_first();
        assert(op_key(ops[0]) != k);
        assert forall|i: int| 0 <= i < rest.len() implies op_key(#[trigger] rest[i]) != k by {
            assert(rest[i] == ops[i + 1]);
        }
        let w2 = apply_op(w, op);
        match op {
            CacheOp::Put(key, e2) => {
                lemma_put_keeps_budget(w, key, e2);
                if entry_size(e2) <= MAX_ENTRY_SIZE {
                    lemma_put_growth(w, key, e2);
                    lemma_put_keeps_other_entries(w, key, e2, k);
                }
            },
            CacheOp::Get(key, now) => {
                lemma_get_wf(w, key, now);
                lemma_get_keeps_other_entries(w, key, now, k);
                if w.entries.contains_key(key) {
                    lemma_remove_key_wf(w, key);
                    if w.entries[key].expires > now {
                        lemma_without_contains(w.order, key);
                    }
                }
            },
        }
        lemma_others_keep_entry(w2, k, e, rest);
    }
}

/// Interleaving is harmless: a stored entry is still returned unchanged
/// after any operations on other keys, as long as they leave the count and
/// the byte budget room enough that nothing is evicted; and the invariant
/// (running total equal to the summed sizes, both bounds) holds throughout.
pub proof fn lemma_interleaved_ops_keep_entry(v: CacheView, k: u64, e: ResponseView, ops: Seq<CacheOp>, now: u64)
    requires
        cache_wf(v),
        entry_size(e) <= MAX_ENTRY_SIZE,
        e.expires > now,
        forall|i: int| 0 <= i < ops.len() ==> op_key(#[trigger] ops[i]) != k,
        v.order.len() + 1 + ops.len() <= CACHE_SIZE,
        v.total + entry_size(e) + ops_size(ops) <= MAX_CACHE_BYTES,
    ensures
        cache_wf(apply_ops(spec_put(v, k, e), ops)),
        spec_get(apply_ops(spec_put(v, k, e), ops), k, now).1 == Some(e),
{
    lemma_put_keeps_budget(v, k, e);
    lemma_put_growth(v, k, e);
    lemma_others_keep_entry(spec_put(v, k, e), k, e, ops);
}

} // verus!
