//! The recency order of cached keys, kept by the `lru` crate's list.
use lru::LruCache;
use vstd::prelude::*;

verus! {

/// `lru::LruCache`, a hash map threaded on a recency list.
#[verifier::external_type_specification]
#[verifier::external_body]
#[verifier::reject_recursive_types(K)]
#[verifier::reject_recursive_types(V)]
#[verifier::reject_recursive_types(S)]
pub struct ExLruCache<K, V, S>(LruCache<K, V, S>);

/// The keys of a recency list, least recently used first.
pub uninterp spec fn lru_keys(c: LruCache<u64, ()>) -> Seq<u64>;

/// `s` with every occurrence of `k` taken out, the rest in order.
pub open spec fn without(s: Seq<u64>, k: u64) -> Seq<u64>
    decreases s.len(),
{
    if s.len() == 0 {
        s
    } else if s.last() == k {
        without(s.drop_last(), k)
    } else {
        without(s.drop_last(), k).push(s.last())
    }
}

pub proof fn lemma_without_contains(s: Seq<u64>, k: u64)
    ensures
        forall|x: u64| #[trigger] without(s, k).contains(x) <==> (s.contains(x) && x != k),
        s.no_duplicates() ==> without(s, k).no_duplicates(),
        !s.contains(k) ==> without(s, k) == s,
        without(s, k).len() <= s.len(),
        s.no_duplicates() && s.contains(k) ==> without(s, k).len() == s.len() - 1,
    decreases s.len(),
{
    if s.len() > 0 {
        let d = s.drop_last();
        lemma_without_contains(d, k);
        assert(s == d.push(s.last()));
        assert forall|x: u64| #[trigger] without(s, k).contains(x) <==> (s.contains(x) && x != k) by {
            lemma_push_contains(d, s.last(), x);
            if s.last() != k {
                assert(without(s, k) == without(d, k).push(s.last()));
                lemma_push_contains(without(d, k), s.last(), x);
            } else {
                assert(without(s, k) == without(d, k));
            }
        }
        if s.no_duplicates() {
            assert(d.no_duplicates()) by {
                assert forall|i: int, j: int|
                    0 <= i < d.len() && 0 <= j < d.len() && i != j implies d[i] != d[j] by {
                    assert(s[i] == d[i] && s[j] == d[j]);
                }
            }
            if s.last() != k {
                let w = without(d, k);
                assert(!d.contains(s.last())) by {
                    if d.contains(s.last()) {
                        let j = choose|j: int| 0 <= j < d.len() && d[j] == s.last();
                        assert(s[j] == s[s.len() - 1]);
                    }
                }
                assert(!w.contains(s.last()));
                assert forall|i: int, j: int|
                    0 <= i < w.push(s.last()).len() && 0 <= j < w.push(s.last()).len() && i != j
                    implies w.push(s.last())[i] != w.push(s.last())[j] by {
                    if i < w.len() && j < w.len() {
                    } else if i < w.len() {
                        assert(w.contains(w[i]));
                    } else if j < w.len() {
                        assert(w.contains(w[j]));
                    }
                }
            }
        }
        if s.no_duplicates() && s.contains(k) && s.last() != k {
            assert(d.contains(k)) by {
                let j = choose|j: int| 0 <= j < s.len() && s[j] == k;
                assert(j != s.len() - 1);
                assert(d[j] == k);
            }
        }
        if s.no_duplicates() && s.last() == k {
            assert(!d.contains(k)) by {
                if d.contains(k) {
                    let j = choose|j: int| 0 <= j < d.len() && d[j] == k;
                    assert(s[j] == s[s.len() - 1]);
                }
            }
            lemma_without_contains(d, k);
        }
        if !s.contains(k) {
            assert(s.last() != k) by {
                assert(s[s.len() - 1] == s.last());
            }
            assert(!d.contains(k)) by {
                if d.contains(k) {
                    let j = choose|j: int| 0 <= j < d.len() && d[j] == k;
                    assert(s[j] == k);
                }
            }
        }
    }
}

proof fn lemma_push_contains(s: Seq<u64>, v: u64, x: u64)
    ensures
        s.push(v).contains(x) <==> (s.contains(x) || x == v),
{
    if s.contains(x) {
        let j = choose|j: int| 0 <= j < s.len() && s[j] == x;
        assert(s.push(v)[j] == x);
    }
    if x == v {
        assert(s.push(v)[s.len() as int] == x);
    }
    if s.push(v).contains(x) && x != v {
        let j = choose|j: int| 0 <= j < s.push(v).len() && s.push(v)[j] == x;
        assert(s[j] == x);
    }
}

/// Relies on `lru::LruCache::unbounded`: an empty list with no capacity limit.
#[verifier::external_body]
pub(crate) fn lru_unbounded() -> (r: LruCache<u64, ()>)
    ensures
        lru_keys(r) == Seq::<u64>::empty(),
{
    LruCache::unbounded()
}

/// Relies on `lru::LruCache::put`: the key becomes the most recently used one,
/// taken out of its old place if it was listed; below the capacity nothing
/// else leaves.
#[verifier::external_body]
pub(crate) fn lru_put(c: &mut LruCache<u64, ()>, k: u64)
    requires
        lru_keys(*old(c)).len() < usize::MAX,
    ensures
        lru_keys(*final(c)) == without(lru_keys(*old(c)), k).push(k),
{
    c.put(k, ());
}

/// Relies on `lru::LruCache::promote`: a listed key becomes the most recently
/// used one; an unlisted key changes nothing.
#[verifier::external_body]
pub(crate) fn lru_promote(c: &mut LruCache<u64, ()>, k: u64)
    ensures
        lru_keys(*final(c)) == if lru_keys(*old(c)).contains(k) {
            without(lru_keys(*old(c)), k).push(k)
        } else {
            lru_keys(*old(c))
        },
{
    c.promote(&k);
}

/// Relies on `lru::LruCache::pop`: the key leaves the list.
#[verifier::external_body]
pub(crate) fn lru_pop(c: &mut LruCache<u64, ()>, k: u64)
    ensures
        lru_keys(*final(c)) == without(lru_keys(*old(c)), k),
{
    c.pop(&k);
}

/// Relies on `lru::LruCache::pop_lru`: the least recently used key leaves the
/// list and is returned.
#[verifier::external_body]
pub(crate) fn lru_pop_lru(c: &mut LruCache<u64, ()>) -> (r: Option<u64>)
    ensures
        lru_keys(*old(c)).len() == 0 ==> r is None && lru_keys(*final(c)) == lru_keys(*old(c)),
        lru_keys(*old(c)).len() > 0 ==> r == Some(lru_keys(*old(c))[0]) && lru_keys(*final(c))
            == lru_keys(*old(c)).drop_first(),
{
    c.pop_lru().map(|(k, _)| k)
}

/// Relies on `lru::LruCache::clear`: the list becomes empty.
#[verifier::external_body]
pub(crate) fn lru_clear(c: &mut LruCache<u64, ()>)
    ensures
        lru_keys(*final(c)) == Seq::<u64>::empty(),
{
    c.clear();
}

/// Relies on `lru::LruCache::len`: the number of listed keys.
#[verifier::external_body]
pub(crate) fn lru_len(c: &LruCache<u64, ()>) -> (r: usize)
    ensures
        r == lru_keys(*c).len(),
{
    c.len()
}

} // verus!
