//! The bookkeeping of idle upstream connections: per origin, at most
//! `MAX_CONNECTIONS_PER_HOST` of them, none reused once idle for
//! `IDLE_TIMEOUT_MS`. The pool owns a connection while it is idle; the
//! caller owns it from `get_connection` until `return_connection`.
use vstd::prelude::*;

use crate::limits::{IDLE_TIMEOUT_MS, MAX_CONNECTIONS_PER_HOST};
use crate::text::same_text;

verus! {

/// An idle connection and when, in milliseconds, it was last used.
pub struct IdleConnection<C> {
    pub conn: C,
    pub last_used: u64,
}

/// The idle connections of one origin, most recently returned last.
pub struct OriginPool<C> {
    pub host: String,
    pub port: u16,
    pub idle: Vec<IdleConnection<C>>,
}

/// One origin's idle list as plain values.
pub struct OriginView<C> {
    pub host: Seq<char>,
    pub port: u16,
    pub idle: Seq<IdleConnection<C>>,
}

/// A connection idle since `last_used` may still be reused at time `now`.
pub open spec fn is_fresh<C>(c: IdleConnection<C>, now: u64) -> bool {
    now.saturating_sub(c.last_used) < IDLE_TIMEOUT_MS
}

/// The first origin at or after `i` with key `(host, port)`.
pub open spec fn find_origin<C>(v: Seq<OriginView<C>>, host: Seq<char>, port: u16, i: int) -> Option<int>
    decreases v.len() - i,
{
    if i < 0 || i >= v.len() {
        None
    } else if v[i].host == host && v[i].port == port {
        Some(i)
    } else {
        find_origin(v, host, port, i + 1)
    }
}

/// The invariant of a pool: each origin listed once, no idle list over the
/// per-origin bound.
pub open spec fn pool_wf<C>(v: Seq<OriginView<C>>) -> bool {
    &&& forall|i: int, j: int|
        0 <= i < v.len() && 0 <= j < v.len() && i != j ==> !(v[i].host == v[j].host && v[i].port
            == v[j].port)
    &&& forall|i: int| 0 <= i < v.len() ==> (#[trigger] v[i]).idle.len() <= MAX_CONNECTIONS_PER_HOST
}

/// Pops idle connections, newest first, dropping stale ones, until a fresh
/// one comes out: the list left, and that connection if any.
pub open spec fn take_fresh<C>(l: Seq<IdleConnection<C>>, now: u64) -> (Seq<IdleConnection<C>>, Option<C>)
    decreases l.len(),
{
    if l.len() == 0 {
        (l, None)
    } else if is_fresh(l.last(), now) {
        (l.drop_last(), Some(l.last().conn))
    } else {
        take_fresh(l.drop_last(), now)
    }
}

/// The pool after asking for an idle connection to `(host, port)` at `now`.
pub open spec fn spec_take<C>(v: Seq<OriginView<C>>, host: Seq<char>, port: u16, now: u64) -> (Seq<OriginView<C>>, Option<C>) {
    match find_origin(v, host, port, 0) {
        None => (v, None),
        Some(i) => {
            let (rest, got) = take_fresh(v[i].idle, now);
            (v.update(i, OriginView { host: v[i].host, port: v[i].port, idle: rest }), got)
        },
    }
}

/// The pool after handing back `conn` for `(host, port)` at `now`, and
/// whether it was kept: kept while the origin's list is below the bound,
/// dropped otherwise.
pub open spec fn spec_release<C>(v: Seq<OriginView<C>>, host: Seq<char>, port: u16, conn: C, now: u64) -> (Seq<OriginView<C>>, bool) {
    let idle = IdleConnection { conn, last_used: now };
    match find_origin(v, host, port, 0) {
        None => (v.push(OriginView { host, port, idle: seq![idle] }), true),
        Some(i) => if v[i].idle.len() < MAX_CONNECTIONS_PER_HOST {
            (
                v.update(i, OriginView { host: v[i].host, port: v[i].port, idle: v[i].idle.push(idle) }),
                true,
            )
        } else {
            (v, false)
        },
    }
}

/// The fresh connections of `l`, in order.
pub open spec fn fresh_only<C>(l: Seq<IdleConnection<C>>, now: u64) -> Seq<IdleConnection<C>>
    decreases l.len(),
{
    if l.len() == 0 {
        l
    } else if is_fresh(l.last(), now) {
        fresh_only(l.drop_last(), now).push(l.last())
    } else {
        fresh_only(l.drop_last(), now)
    }
}

/// The pool after a sweep at `now`: stale connections dropped, origins left
/// without any removed.
pub open spec fn spec_sweep<C>(v: Seq<OriginView<C>>, now: u64) -> Seq<OriginView<C>>
    decreases v.len(),
{
    if v.len() == 0 {
        v
    } else {
        let o = v.last();
        let kept = fresh_only(o.idle, now);
        if kept.len() == 0 {
            spec_sweep(v.drop_last(), now)
        } else {
            spec_sweep(v.drop_last(), now).push(OriginView { host: o.host, port: o.port, idle: kept })
        }
    }
}

/// The idle connections to upstream origins.
pub struct ConnectionPool<C> {
    pools: Vec<OriginPool<C>>,
}

impl<C> View for OriginPool<C> {
    type V = OriginView<C>;

    open spec fn view(&self) -> OriginView<C> {
        OriginView { host: self.host@, port: self.port, idle: self.idle@ }
    }
}

impl<C> View for ConnectionPool<C> {
    type V = Seq<OriginView<C>>;

    closed spec fn view(&self) -> Seq<OriginView<C>> {
        self.pools@.map_values(|o: OriginPool<C>| o@)
    }
}

impl<C> ConnectionPool<C> {
    pub open spec fn wf(&self) -> bool {
        pool_wf(self@)
    }

    /// An empty pool.
    pub fn new() -> (r: ConnectionPool<C>)
        ensures
            r.wf(),
            r@ == Seq::<OriginView<C>>::empty(),
    {
        let r = ConnectionPool { pools: Vec::new() };
        assert(r@ =~= Seq::<OriginView<C>>::empty());
        r
    }

    fn find(&self, host: &str, port: u16) -> (r: Option<usize>)
        ensures
            match r {
                Some(i) => find_origin(self@, host@, port, 0) == Some(i as int) && i < self@.len(),
                None => find_origin(self@, host@, port, 0) is None,
            },
    {
        let mut i: usize = 0;
        while i < self.pools.len()
            invariant
                0 <= i <= self.pools@.len(),
                self@.len() == self.pools@.len(),
                forall|k: int| 0 <= k < self.pools@.len() ==> #[trigger] self@[k] == self.pools@[k]@,
                find_origin(self@, host@, port, 0) == find_origin(self@, host@, port, i as int),
            decreases self.pools@.len() - i,
        {
            if self.pools[i].port == port && same_text(self.pools[i].host.as_str(), host) {
                return Some(i);
            }
            i += 1;
        }
        None
    }

    /// Pops idle connections to `(host, port)`, newest first, dropping those
    /// idle for `IDLE_TIMEOUT_MS` or longer at time `now` (milliseconds), and
    /// returns the first fresh one, if any.
    pub fn get_connection(&mut self, host: &str, port: u16, now: u64) -> (r: Option<C>)
        requires
            old(self).wf(),
        ensures
            final(self).wf(),
            (final(self)@, r) == spec_take(old(self)@, host@, port, now),
    {
        let ghost v = self@;
        match self.find(host, port) {
            None => None,
            Some(i) => {
                let mut origin = self.pools.remove(i);
                let ghost start = origin.idle@;
                let mut got: Option<C> = None;
                while got.is_none() && origin.idle.len() > 0
                    invariant
                        got is None ==> take_fresh(start, now) == take_fresh(origin.idle@, now),
                        got is Some ==> take_fresh(start, now) == (origin.idle@, got),
                        origin.idle@.len() <= start.len(),
                        origin.host@ == v[i as int].host,
                        origin.port == v[i as int].port,
                        start == v[i as int].idle,
                    decreases origin.idle@.len() + if got is None { 1int } else { 0int },
                {
                    let ghost l = origin.idle@;
                    let candidate = origin.idle.pop();
                    if let Some(c) = candidate {
                        assert(l.drop_last() =~= origin.idle@);
                        if now.saturating_sub(c.last_used) < IDLE_TIMEOUT_MS {
                            got = Some(c.conn);
                        }
                    }
                }
                let ghost rest = origin.idle@;
                self.pools.insert(i, origin);
                proof {
                    assert(self@ =~= v.update(
                        i as int,
                        OriginView { host: v[i as int].host, port: v[i as int].port, idle: rest },
                    ));
                }
                got
            },
        }
    }

    /// Hands back `conn` for `(host, port)` at time `now` (milliseconds): kept
    /// as idle while the origin has fewer than `MAX_CONNECTIONS_PER_HOST` idle
    /// connections, dropped (closed) otherwise. Returns whether it was kept.
    pub fn return_connection(&mut self, host: String, port: u16, conn: C, now: u64) -> (r: bool)
        requires
            old(self).wf(),
        ensures
            final(self).wf(),
            (final(self)@, r) == spec_release(old(self)@, host@, port, conn, now),
    {
        let ghost v = self@;
        proof {
            lemma_release_keeps_bound(v, host@, port, conn, now);
        }
        let idle = IdleConnection { conn, last_used: now };
        match self.find(host.as_str(), port) {
            None => {
                let mut list: Vec<IdleConnection<C>> = Vec::new();
                list.push(idle);
                let ghost hv = host@;
                self.pools.push(OriginPool { host, port, idle: list });
                proof {
                    assert(self@ =~= v.push(OriginView { host: hv, port, idle: seq![IdleConnection { conn, last_used: now }] }));
                }
                true
            },
            Some(i) => {
                if self.pools[i].idle.len() < MAX_CONNECTIONS_PER_HOST {
                    let mut origin = self.pools.remove(i);
                    origin.idle.push(idle);
                    let ghost nv = origin@;
                    self.pools.insert(i, origin);
                    proof {
                        assert(self@ =~= v.update(i as int, nv));
                    }
                    true
                } else {
                    false
                }
            },
        }
    }

    /// Drops every connection idle for `IDLE_TIMEOUT_MS` or longer at time
    /// `now` (milliseconds), and every origin left without idle connections.
    pub fn cleanup_stale_connections(&mut self, now: u64)
        requires
            old(self).wf(),
        ensures
            final(self).wf(),
            final(self)@ == spec_sweep(old(self)@, now),
    {
        let ghost v = self@;
        let mut kept_origins: Vec<OriginPool<C>> = Vec::new();
        let mut pools: Vec<OriginPool<C>> = Vec::new();
        let count = self.pools.len();
        assert(v.len() == count);
        std::mem::swap(&mut pools, &mut self.pools);
        assert(v.subrange(0, 0) =~= Seq::<OriginView<C>>::empty());
        assert(kept_origins@.map_values(|o: OriginPool<C>| o@) =~= Seq::<OriginView<C>>::empty());
        let mut i: usize = 0;
        while pools.len() > 0
            invariant
                i + pools@.len() == v.len(),
                v.len() <= usize::MAX,
                pool_wf(v),
                forall|k: int| 0 <= k < pools@.len() ==> #[trigger] pools@[k]@ == v[i + k],
                kept_origins@.map_values(|o: OriginPool<C>| o@) == spec_sweep(v.subrange(0, i as int), now),
            decreases pools@.len(),
        {
            let mut origin = pools.remove(0);
            let ghost o = origin@;
            assert(o == v[i as int]);
            assert(o.idle.len() <= MAX_CONNECTIONS_PER_HOST);
            let mut kept: Vec<IdleConnection<C>> = Vec::new();
            let mut j: usize = 0;
            assert(o.idle.subrange(0, 0) =~= Seq::<IdleConnection<C>>::empty());
            while origin.idle.len() > 0
                invariant
                    j + origin.idle@.len() == o.idle.len(),
                    forall|k: int| 0 <= k < origin.idle@.len() ==> #[trigger] origin.idle@[k] == o.idle[j + k],
                    kept@ == fresh_only(o.idle.subrange(0, j as int), now),
                    o.idle.len() <= MAX_CONNECTIONS_PER_HOST,
                    origin.host@ == o.host,
                    origin.port == o.port,
                decreases origin.idle@.len(),
            {
                let c = origin.idle.remove(0);
                let ghost next = o.idle.subrange(0, j + 1);
                assert(next.drop_last() =~= o.idle.subrange(0, j as int));
                assert(next.last() == c);
                if now.saturating_sub(c.last_used) < IDLE_TIMEOUT_MS {
                    kept.push(c);
                }
                j += 1;
            }
            assert(o.idle.subrange(0, j as int) =~= o.idle);
            let ghost next = v.subrange(0, i + 1);
            assert(next.drop_last() =~= v.subrange(0, i as int));
            assert(next.last() == o);
            if kept.len() > 0 {
                let ghost before = kept_origins@;
                kept_origins.push(OriginPool { host: origin.host, port: origin.port, idle: kept });
                assert(kept_origins@.map_values(|p: OriginPool<C>| p@) =~= before.map_values(
                    |p: OriginPool<C>| p@,
                ).push(kept_origins@[kept_origins@.len() - 1]@));
            }
            i += 1;
        }
        assert(v.subrange(0, i as int) =~= v);
        self.pools = kept_origins;
        proof {
            lemma_sweep_wf(v, now);
        }
    }

    /// The number of idle connections of each origin.
    pub fn stats(&self) -> (r: Vec<((String, u16), usize)>)
        ensures
            r@.len() == self@.len(),
            forall|i: int|
                0 <= i < r@.len() ==> (#[trigger] r@[i]).0.0@ == self@[i].host && r@[i].0.1
                    == self@[i].port && r@[i].1 == self@[i].idle.len(),
    {
        let mut out: Vec<((String, u16), usize)> = Vec::new();
        let mut i: usize = 0;
        while i < self.pools.len()
            invariant
                0 <= i <= self.pools@.len(),
                self@.len() == self.pools@.len(),
                forall|k: int| 0 <= k < self.pools@.len() ==> #[trigger] self@[k] == self.pools@[k]@,
                out@.len() == i,
                forall|k: int|
                    0 <= k < i ==> (#[trigger] out@[k]).0.0@ == self@[k].host && out@[k].0.1
                        == self@[k].port && out@[k].1 == self@[k].idle.len(),
            decreases self.pools@.len() - i,
        {
            out.push(((self.pools[i].host.clone(), self.pools[i].port), self.pools[i].idle.len()));
            i += 1;
        }
        out
    }
}

/// Handing a connection back never grows an origin's idle list beyond
/// `MAX_CONNECTIONS_PER_HOST`, however often it is done: the pool's
/// invariant holds after every release.
pub proof fn lemma_release_keeps_bound<C>(v: Seq<OriginView<C>>, host: Seq<char>, port: u16, conn: C, now: u64)
    requires
        pool_wf(v),
    ensures
        pool_wf(spec_release(v, host, port, conn, now).0),
        forall|i: int|
            0 <= i < spec_release(v, host, port, conn, now).0.len() ==> (#[trigger] spec_release(
                v,
                host,
                port,
                conn,
                now,
            ).0[i]).idle.len() <= MAX_CONNECTIONS_PER_HOST,
{
    let r = spec_release(v, host, port, conn, now).0;
    match find_origin(v, host, port, 0) {
        None => {
            assert forall|i: int, j: int|
                0 <= i < r.len() && 0 <= j < r.len() && i != j implies !(r[i].host == r[j].host
                && r[i].port == r[j].port) by {
                if i == v.len() as int {
                    lemma_find_origin_none(v, host, port, 0, j);
                } else if j == v.len() as int {
                    lemma_find_origin_none(v, host, port, 0, i);
                }
            }
        },
        Some(k) => {
            lemma_find_origin_some(v, host, port, 0);
            if v[k].idle.len() < MAX_CONNECTIONS_PER_HOST {
                assert forall|a: int, b: int|
                    0 <= a < r.len() && 0 <= b < r.len() && a != b implies !(r[a].host == r[b].host
                    && r[a].port == r[b].port) by {
                    assert(r[a].host == v[a].host && r[a].port == v[a].port);
                    assert(r[b].host == v[b].host && r[b].port == v[b].port);
                }
                assert forall|a: int| 0 <= a < r.len() implies (#[trigger] r[a]).idle.len()
                    <= MAX_CONNECTIONS_PER_HOST by {
                    if a != k {
                        assert(r[a] == v[a]);
                    }
                }
            }
        },
    }
}

proof fn lemma_find_origin_some<C>(v: Seq<OriginView<C>>, host: Seq<char>, port: u16, i: int)
    requires
        find_origin(v, host, port, i) is Some,
    ensures
        i <= find_origin(v, host, port, i)->0 < v.len(),
    decreases v.len() - i,
{
    if 0 <= i < v.len() && !(v[i].host == host && v[i].port == port) {
        lemma_find_origin_some(v, host, port, i + 1);
    }
}

proof fn lemma_find_origin_none<C>(v: Seq<OriginView<C>>, host: Seq<char>, port: u16, i: int, k: int)
    requires
        find_origin(v, host, port, i) is None,
        0 <= i <= k < v.len(),
    ensures
        !(v[k].host == host && v[k].port == port),
    decreases v.len() - i,
{
    if i < k {
        lemma_find_origin_none(v, host, port, i + 1, k);
    }
}

impl<C> Default for ConnectionPool<C> {
    fn default() -> (r: ConnectionPool<C>)
        ensures
            r.wf(),
            r@ == Seq::<OriginView<C>>::empty(),
    {
        ConnectionPool::new()
    }
}

proof fn lemma_fresh_only_len<C>(l: Seq<IdleConnection<C>>, now: u64)
    ensures
        fresh_only(l, now).len() <= l.len(),
    decreases l.len(),
{
    if l.len() > 0 {
        lemma_fresh_only_len(l.drop_last(), now);
    }
}

proof fn lemma_sweep_wf<C>(v: Seq<OriginView<C>>, now: u64)
    requires
        pool_wf(v),
    ensures
        pool_wf(spec_sweep(v, now)),
        forall|j: int|
            0 <= j < spec_sweep(v, now).len() ==> exists|i: int|
                0 <= i < v.len() && (#[trigger] spec_sweep(v, now)[j]).host == v[i].host
                    && spec_sweep(v, now)[j].port == v[i].port,
    decreases v.len(),
{
    if v.len() > 0 {
        let d = v.drop_last();
        assert(pool_wf(d)) by {
            assert forall|i: int| 0 <= i < d.len() implies (#[trigger] d[i]).idle.len()
                <= MAX_CONNECTIONS_PER_HOST by {
                assert(d[i] == v[i]);
            }
            assert forall|i: int, j: int|
                0 <= i < d.len() && 0 <= j < d.len() && i != j implies !(d[i].host == d[j].host
                && d[i].port == d[j].port) by {
                assert(d[i] == v[i] && d[j] == v[j]);
            }
        }
        lemma_sweep_wf(d, now);
        let o = v.last();
        let kept = fresh_only(o.idle, now);
        lemma_fresh_only_len(o.idle, now);
        let w = spec_sweep(d, now);
        assert(o.idle.len() <= MAX_CONNECTIONS_PER_HOST) by {
            assert(v[v.len() - 1] == o);
        }
        assert forall|j: int| 0 <= j < w.len() implies !((#[trigger] w[j]).host == o.host
            && w[j].port == o.port) by {
            let i = choose|i: int| 0 <= i < d.len() && w[j].host == d[i].host && w[j].port == d[i].port;
            assert(d[i] == v[i]);
            assert(v[v.len() - 1] == o);
        }
        assert forall|j: int| 0 <= j < w.len() implies exists|i: int|
            0 <= i < v.len() && (#[trigger] w[j]).host == v[i].host && w[j].port == v[i].port by {
            let i = choose|i: int| 0 <= i < d.len() && w[j].host == d[i].host && w[j].port == d[i].port;
            assert(d[i] == v[i]);
        }
        if kept.len() > 0 {
            let r = w.push(OriginView { host: o.host, port: o.port, idle: kept });
            assert(r[w.len() as int].host == v[v.len() - 1].host);
            assert forall|j: int| 0 <= j < r.len() implies exists|i: int|
                0 <= i < v.len() && (#[trigger] r[j]).host == v[i].host && r[j].port == v[i].port by {
                if j < w.len() {
                    assert(r[j] == w[j]);
                } else {
                    assert(r[j].host == v[v.len() - 1].host && r[j].port == v[v.len() - 1].port);
                }
            }
            assert forall|a: int, b: int|
                0 <= a < r.len() && 0 <= b < r.len() && a != b implies !(r[a].host == r[b].host
                && r[a].port == r[b].port) by {
                if a < w.len() && b < w.len() {
                    assert(r[a] == w[a] && r[b] == w[b]);
                } else if a < w.len() {
                    assert(r[a] == w[a]);
                } else if b < w.len() {
                    assert(r[b] == w[b]);
                }
            }
            assert forall|a: int| 0 <= a < r.len() implies (#[trigger] r[a]).idle.len()
                <= MAX_CONNECTIONS_PER_HOST by {
                if a < w.len() {
                    assert(r[a] == w[a]);
                }
            }
        }
    }
}

} // verus!
