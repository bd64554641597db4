//! Responses kept for replay, and the time-to-live cache that holds them.
use vstd::prelude::*;
use std::collections::HashMap;
use vstd::std_specs::hash::spec_hash_map_iter;
use vstd::std_specs::iter::IteratorSpec;
use crate::request::{Header, HeaderView, HttpVersion, clone_headers};

verus! {

broadcast use vstd::std_specs::hash::group_hash_axioms;

/// A response: status, protocol version, headers as received, whole body.
pub struct ProxyResponse {
    pub status: u16,
    pub version: HttpVersion,
    pub headers: Vec<Header>,
    pub body: Vec<u8>,
}

pub struct ResponseView {
    pub status: u16,
    pub version: HttpVersion,
    pub headers: Seq<HeaderView>,
    pub body: Seq<u8>,
}

impl View for ProxyResponse {
    type V = ResponseView;

    open spec fn view(&self) -> ResponseView {
        ResponseView {
            status: self.status,
            version: self.version,
            headers: self.headers.deep_view(),
            body: self.body@,
        }
    }
}

impl ProxyResponse {
    /// A response with the given status, no headers and an empty body.
    pub fn with_status(status: u16) -> (r: ProxyResponse)
        ensures
            r@ == (ResponseView {
                status,
                version: HttpVersion::Http11,
                headers: Seq::empty(),
                body: Seq::empty(),
            }),
    {
        let r = ProxyResponse {
            status,
            version: HttpVersion::Http11,
            headers: Vec::new(),
            body: Vec::new(),
        };
        assert(r.headers.deep_view() =~= Seq::<HeaderView>::empty());
        r
    }

    /// A copy of this response, field for field.
    pub fn copy(&self) -> (r: ProxyResponse)
        ensures
            r@ == self@,
    {
        let body = self.body.clone();
        assert(body@ =~= self.body@);
        ProxyResponse {
            status: self.status,
            version: self.version,
            headers: clone_headers(&self.headers),
            body,
        }
    }
}

/// A stored response and the instant (in milliseconds) from which it is stale.
pub struct CachedResponse {
    pub response: ProxyResponse,
    pub expiry: u64,
}

pub struct CachedView {
    pub response: ResponseView,
    pub expiry: u64,
}

impl View for CachedResponse {
    type V = CachedView;

    open spec fn view(&self) -> CachedView {
        CachedView { response: self.response@, expiry: self.expiry }
    }
}

/// An entry is fresh at `now` while `now` is before its expiry.
pub open spec fn is_fresh(c: CachedView, now: u64) -> bool {
    now < c.expiry
}

/// What a lookup of `fp` at `now` finds in `m`: the entry, while it is fresh.
pub open spec fn fresh_entry(m: Map<u64, CachedView>, fp: u64, now: u64) -> Option<CachedView> {
    if m.contains_key(fp) && is_fresh(m[fp], now) {
        Some(m[fp])
    } else {
        None
    }
}

/// The entries of `m` that are still fresh at `now`.
pub open spec fn fresh_part(m: Map<u64, CachedView>, now: u64) -> Map<u64, CachedView> {
    m.restrict(m.dom().filter(|k: u64| is_fresh(m[k], now)))
}

/// A response stored at `t0` with time to live `ttl` is found as stored by a
/// lookup at any `t` from `t0` up to but not including `t0 + ttl`, and is not
/// found at or after `t0 + ttl`.
pub proof fn lemma_fresh_within_ttl(
    m: Map<u64, CachedView>,
    fp: u64,
    response: ResponseView,
    t0: u64,
    ttl: u64,
    t: u64,
)
    requires
        t0 + ttl <= u64::MAX,
        t0 <= t,
    ensures
        t < t0 + ttl ==> fresh_entry(
            m.insert(fp, CachedView { response, expiry: (t0 + ttl) as u64 }),
            fp,
            t,
        ) == Some(CachedView { response, expiry: (t0 + ttl) as u64 }),
        t >= t0 + ttl ==> fresh_entry(
            m.insert(fp, CachedView { response, expiry: (t0 + ttl) as u64 }),
            fp,
            t,
        ) is None,
{
}

/// A sweep at any time after an entry's expiry removes it.
pub proof fn lemma_sweep_removes_expired(m: Map<u64, CachedView>, fp: u64, t0: u64, ttl: u64, eps: u64)
    requires
        m.contains_key(fp),
        m[fp].expiry == t0 + ttl,
        eps > 0,
        t0 + ttl + eps <= u64::MAX,
    ensures
        !fresh_part(m, (t0 + ttl + eps) as u64).contains_key(fp),
{
}

/// A fresh entry is left as it is by a store under another fingerprint and by
/// a sweep while it is fresh.
pub proof fn lemma_entry_undisturbed(
    m: Map<u64, CachedView>,
    fp: u64,
    other: u64,
    c: CachedView,
    now: u64,
)
    requires
        other != fp,
        m.contains_key(fp),
        is_fresh(m[fp], now),
    ensures
        m.insert(other, c).contains_key(fp),
        m.insert(other, c)[fp] == m[fp],
        fresh_part(m, now).contains_key(fp),
        fresh_part(m, now)[fp] == m[fp],
{
}

/// A map from request fingerprint to stored response, with expiry by time.
pub struct ResponseCache {
    entries: HashMap<u64, CachedResponse>,
}

impl View for ResponseCache {
    type V = Map<u64, CachedView>;

    closed spec fn view(&self) -> Map<u64, CachedView> {
        self.entries@.map_values(|c: CachedResponse| c@)
    }
}

impl ResponseCache {
    /// An empty cache.
    pub fn new() -> (r: ResponseCache)
        ensures
            r@ == Map::<u64, CachedView>::empty(),
    {
        let r = ResponseCache { entries: HashMap::new() };
        assert(r@ =~= Map::<u64, CachedView>::empty());
        r
    }

    /// The number of entries, fresh or stale.
    pub fn len(&self) -> (r: usize)
        ensures
            r == self@.len(),
    {
        assert(self@.dom() =~= self.entries@.dom());
        self.entries.len()
    }

    /// The entry for `fp` if it is fresh at `now`; stale entries are left in place.
    pub fn lookup(&self, fp: u64, now: u64) -> (r: Option<CachedResponse>)
        ensures
            match r {
                Some(c) => fresh_entry(self@, fp, now) == Some(c@),
                None => fresh_entry(self@, fp, now) is None,
            },
    {
        match self.entries.get(&fp) {
            Some(c) => {
                if now < c.expiry {
                    Some(CachedResponse { response: c.response.copy(), expiry: c.expiry })
                } else {
                    None
                }
            },
            None => None,
        }
    }

    /// Stores `response` under `fp` with expiry `now + ttl`, replacing any entry.
    pub fn insert(&mut self, fp: u64, response: ProxyResponse, ttl: u64, now: u64)
        requires
            now + ttl <= u64::MAX,
        ensures
            final(self)@ == old(self)@.insert(
                fp,
                CachedView { response: response@, expiry: (now + ttl) as u64 },
            ),
    {
        let c = CachedResponse { response, expiry: now + ttl };
        self.entries.insert(fp, c);
        assert(self@ =~= old(self)@.insert(fp, c@));
    }

    /// Removes every entry whose expiry is at or before `now`.
    pub fn sweep(&mut self, now: u64)
        ensures
            final(self)@ == fresh_part(old(self)@, now),
    {
        let ghost m = self.entries@;
        let mut stale: Vec<u64> = Vec::new();
        let ghost full = spec_hash_map_iter(&self.entries).remaining();
        let ghost mut n: int = 0;
        for kv in it: self.entries.iter()
            invariant
                m == self.entries@,
                full == spec_hash_map_iter(&self.entries).remaining(),
                it.seq() == full,
                n == it.index(),
                forall|j: int| 0 <= j < stale.len() ==> m.contains_key(#[trigger] stale@[j]) && !is_fresh(m[stale@[j]]@, now),
                forall|j: int| 0 <= j < n ==> !is_fresh((*full[j].1)@, now) ==> stale@.contains(*full[j].0),
        {
            assert(kv == full[n]);
            let ghost prev = stale@;
            if now >= kv.1.expiry {
                stale.push(*kv.0);
            }
            assert forall|j: int| 0 <= j < n && !is_fresh((*full[j].1)@, now) implies stale@.contains(*full[j].0) by {
                assert(prev.contains(*full[j].0));
                let q = choose|q: int| 0 <= q < prev.len() && prev[q] == *full[j].0;
                assert(stale@[q] == prev[q]);
            }
            assert(!is_fresh((*full[n].1)@, now) ==> stale@[stale@.len() - 1] == *full[n].0);
            proof {
                n = n + 1;
            }
        }
        assert(n == full.len());
        assert forall|k: u64| m.contains_key(k) && !is_fresh(m[k]@, now) implies stale@.contains(k) by {
            assert(full.contains((&k, &m[k])));
            let j = choose|j: int| 0 <= j < full.len() && full[j] == (&k, &m[k]);
        }
        let mut i: usize = 0;
        while i < stale.len()
            invariant
                i <= stale.len(),
                forall|j: int| 0 <= j < stale.len() ==> m.contains_key(#[trigger] stale@[j]) && !is_fresh(m[stale@[j]]@, now),
                forall|k: u64| m.contains_key(k) && !is_fresh(m[k]@, now) ==> stale@.contains(k),
                forall|k: u64| #[trigger] self.entries@.contains_key(k) <==> (m.contains_key(k) && !stale@.take(i as int).contains(k)),
                forall|k: u64| #[trigger] self.entries@.contains_key(k) ==> self.entries@[k] == m[k],
            decreases stale.len() - i,
        {
            self.entries.remove(&stale[i]);
            assert(stale@.take(i + 1) =~= stale@.take(i as int).push(stale@[i as int]));
            assert forall|k: u64| stale@.take(i + 1).contains(k) <==> (stale@.take(i as int).contains(k) || k == stale@[i as int]) by {
                if stale@.take(i as int).contains(k) {
                    let q = choose|q: int| 0 <= q < i && stale@.take(i as int)[q] == k;
                    assert(stale@.take(i + 1)[q] == k);
                }
                if k == stale@[i as int] {
                    assert(stale@.take(i + 1)[i as int] == k);
                }
                if stale@.take(i + 1).contains(k) {
                    let t = stale@.take(i + 1);
                    let q = choose|q: int| 0 <= q < t.len() && #[trigger] t[q] == k;
                    if q < i {
                        assert(stale@.take(i as int)[q] == k);
                    }
                }
            }
            i = i + 1;
        }
        assert(stale@.take(i as int) =~= stale@);
        assert forall|k: u64| stale@.contains(k) implies m.contains_key(k) && !is_fresh(m[k]@, now) by {
            let q = choose|q: int| 0 <= q < stale.len() && stale@[q] == k;
        }
        assert(self.entries@.dom() =~= m.dom().filter(|k: u64| is_fresh(m[k]@, now)));
        assert(self@ =~= fresh_part(old(self)@, now));
    }
}

} // verus!
