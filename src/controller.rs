//! Per-request dispatch: answer from the cache, reject, or forward and store.
use vstd::prelude::*;
use crate::cache::{
    CachedView, ProxyResponse, ResponseCache, ResponseView, fresh_entry, fresh_part, is_fresh,
};
use crate::forward::{
    OutboundRequest, forward_target, is_origin, lemma_strip_origin_has_none,
    prepare_forward, strip_origin,
};
use crate::request::{HeaderView, HttpVersion, ProxyRequest, RequestView, fingerprint, request_fingerprint};

verus! {

/// How long a stored response stays fresh, in milliseconds.
pub const DEFAULT_TTL_MS: u64 = 30000;

/// How often expired entries are swept, in milliseconds.
pub const SWEEP_INTERVAL_MS: u64 = 1000;

/// The status of the answer to a request that cannot be forwarded.
pub const BAD_REQUEST: u16 = 400;

/// What the proxy does with a request.
pub enum Action {
    /// Answer the client with this response; nothing goes upstream.
    Respond(ProxyResponse),
    /// Send `request` upstream; then hand the response to `Controller::complete`
    /// with this fingerprint.
    Forward { fingerprint: u64, request: OutboundRequest },
}

pub enum ActionView {
    Respond(ResponseView),
    Forward { fingerprint: u64, target: Seq<u8>, headers: Seq<HeaderView> },
}

impl View for Action {
    type V = ActionView;

    open spec fn view(&self) -> ActionView {
        match self {
            Action::Respond(r) => ActionView::Respond(r@),
            Action::Forward { fingerprint, request } => ActionView::Forward {
                fingerprint: *fingerprint,
                target: request.target@,
                headers: request.headers.deep_view(),
            },
        }
    }
}

/// The answer to a request without a usable origin directive: 400, empty.
pub open spec fn bad_request() -> ResponseView {
    ResponseView {
        status: 400,
        version: HttpVersion::Http11,
        headers: Seq::empty(),
        body: Seq::empty(),
    }
}

/// The decision for request `r` with fingerprint `fp` at `now`: a request
/// that cannot be forwarded gets 400; one whose entry is fresh gets the
/// stored response; any other is forwarded without its origin directive.
pub open spec fn dispatch(cache: Map<u64, CachedView>, r: RequestView, fp: u64, now: u64) -> ActionView {
    match forward_target(r) {
        Err(_) => ActionView::Respond(bad_request()),
        Ok(t) => match fresh_entry(cache, fp, now) {
            Some(c) => ActionView::Respond(c.response),
            None => ActionView::Forward { fingerprint: fp, target: t, headers: strip_origin(r.headers) },
        },
    }
}

/// The cache once the request is served: unchanged unless it was forwarded,
/// in which case `upstream` is stored with expiry `now + ttl`.
pub open spec fn cache_after(
    cache: Map<u64, CachedView>,
    a: ActionView,
    upstream: ResponseView,
    now: u64,
    ttl: u64,
) -> Map<u64, CachedView> {
    match a {
        ActionView::Respond(_) => cache,
        ActionView::Forward { fingerprint, .. } => cache.insert(
            fingerprint,
            CachedView { response: upstream, expiry: (now + ttl) as u64 },
        ),
    }
}

/// The cache after a run of requests, the i-th at `times[i]`, each answered
/// or forwarded and then completed with `upstream`.
pub open spec fn cache_after_all(
    cache: Map<u64, CachedView>,
    reqs: Seq<RequestView>,
    fps: Seq<u64>,
    times: Seq<u64>,
    upstream: ResponseView,
    ttl: u64,
) -> Map<u64, CachedView>
    decreases reqs.len(),
{
    if reqs.len() == 0 || fps.len() == 0 || times.len() == 0 {
        cache
    } else {
        let before = cache_after_all(
            cache,
            reqs.drop_last(),
            fps.drop_last(),
            times.drop_last(),
            upstream,
            ttl,
        );
        cache_after(
            before,
            dispatch(before, reqs.last(), fps.last(), times.last()),
            upstream,
            times.last(),
            ttl,
        )
    }
}

/// Any number of cache hits on an entry while it is fresh leave the cache,
/// and so the entry's expiry, as it was.
pub proof fn lemma_hits_keep_expiry(
    cache: Map<u64, CachedView>,
    reqs: Seq<RequestView>,
    fp: u64,
    fps: Seq<u64>,
    times: Seq<u64>,
    upstream: ResponseView,
    ttl: u64,
)
    requires
        cache.contains_key(fp),
        reqs.len() == fps.len() == times.len(),
        forall|i: int| 0 <= i < reqs.len() ==> #[trigger] forward_target(reqs[i]) is Ok,
        forall|i: int| 0 <= i < fps.len() ==> #[trigger] fps[i] == fp,
        forall|i: int| 0 <= i < times.len() ==> is_fresh(cache[fp], #[trigger] times[i]),
    ensures
        cache_after_all(cache, reqs, fps, times, upstream, ttl) == cache,
    decreases reqs.len(),
{
    if reqs.len() > 0 {
        let (r0, f0, t0) = (reqs.drop_last(), fps.drop_last(), times.drop_last());
        assert forall|i: int| 0 <= i < r0.len() implies #[trigger] forward_target(r0[i]) is Ok by {
            assert(r0[i] == reqs[i]);
        }
        assert forall|i: int| 0 <= i < f0.len() implies #[trigger] f0[i] == fp by {
            assert(f0[i] == fps[i]);
        }
        assert forall|i: int| 0 <= i < t0.len() implies is_fresh(cache[fp], #[trigger] t0[i]) by {
            assert(t0[i] == times[i]);
        }
        lemma_hits_keep_expiry(cache, r0, fp, f0, t0, upstream, ttl);
        assert(forward_target(reqs[reqs.len() - 1]) is Ok);
        assert(fps[fps.len() - 1] == fp);
        assert(is_fresh(cache[fp], times[times.len() - 1]));
    }
}

/// A request without an origin directive is answered 400 and nothing goes
/// upstream or into the cache, whatever the cache holds.
pub proof fn lemma_missing_origin_rejected(
    cache: Map<u64, CachedView>,
    r: RequestView,
    fp: u64,
    now: u64,
    upstream: ResponseView,
    ttl: u64,
)
    requires
        forall|i: int| 0 <= i < r.headers.len() ==> !is_origin(#[trigger] r.headers[i]),
    ensures
        dispatch(cache, r, fp, now) == ActionView::Respond(bad_request()),
        bad_request().status == BAD_REQUEST,
        cache_after(cache, dispatch(cache, r, fp, now), upstream, now, ttl) == cache,
{
    lemma_no_origin_found(r.headers);
}

proof fn lemma_no_origin_found(hs: Seq<HeaderView>)
    requires
        forall|i: int| 0 <= i < hs.len() ==> !is_origin(#[trigger] hs[i]),
    ensures
        crate::forward::first_origin(hs) is None,
    decreases hs.len(),
{
    if hs.len() > 0 {
        let p = hs.drop_last();
        assert forall|i: int| 0 <= i < p.len() implies !is_origin(#[trigger] p[i]) by {
            assert(p[i] == hs[i]);
        }
        lemma_no_origin_found(p);
        assert(!is_origin(hs[hs.len() - 1]));
    }
}

/// No origin directive is among the headers of a request sent upstream.
pub proof fn lemma_forward_strips_origin(cache: Map<u64, CachedView>, r: RequestView, fp: u64, now: u64)
    ensures
        dispatch(cache, r, fp, now) matches ActionView::Forward { headers, .. } ==> forall|i: int|
            0 <= i < headers.len() ==> !is_origin(#[trigger] headers[i]),
{
    lemma_strip_origin_has_none(r.headers);
}

/// A request forwarded at `t0` and completed with `upstream` is, repeated at
/// any `t` from `t0` up to `t0 + ttl`, answered with `upstream` itself from
/// the cache, with no second trip upstream.
pub proof fn lemma_round_trip(
    cache: Map<u64, CachedView>,
    r: RequestView,
    fp: u64,
    t0: u64,
    ttl: u64,
    upstream: ResponseView,
    t: u64,
)
    requires
        t0 <= t < t0 + ttl,
        t0 + ttl <= u64::MAX,
        dispatch(cache, r, fp, t0) is Forward,
    ensures
        dispatch(cache_after(cache, dispatch(cache, r, fp, t0), upstream, t0, ttl), r, fp, t)
            == ActionView::Respond(upstream),
{
}

/// The shared state of the proxy: the response cache and its time to live.
pub struct Controller {
    cache: ResponseCache,
    ttl: u64,
}

impl Controller {
    /// The cache's entries.
    pub closed spec fn entries(&self) -> Map<u64, CachedView> {
        self.cache@
    }

    /// The time to live given to new entries, in milliseconds.
    pub closed spec fn ttl_ms(&self) -> u64 {
        self.ttl
    }

    /// A controller with an empty cache and the default time to live.
    pub fn new() -> (r: Controller)
        ensures
            r.entries() == Map::<u64, CachedView>::empty(),
            r.ttl_ms() == DEFAULT_TTL_MS,
    {
        Controller { cache: ResponseCache::new(), ttl: DEFAULT_TTL_MS }
    }

    /// A controller with an empty cache and time to live `ttl` milliseconds.
    pub fn with_ttl(ttl: u64) -> (r: Controller)
        ensures
            r.entries() == Map::<u64, CachedView>::empty(),
            r.ttl_ms() == ttl,
    {
        Controller { cache: ResponseCache::new(), ttl }
    }

    /// The time to live given to new entries, in milliseconds.
    pub fn ttl(&self) -> (r: u64)
        ensures
            r == self.ttl_ms(),
    {
        self.ttl
    }

    /// The number of entries in the cache, fresh or stale.
    pub fn cached_count(&self) -> (r: usize)
        ensures
            r == self.entries().len(),
    {
        self.cache.len()
    }

    /// The fresh entry for fingerprint `fp` at `now`, if any.
    pub fn cached(&self, fp: u64, now: u64) -> (r: Option<ProxyResponse>)
        ensures
            match r {
                Some(resp) => fresh_entry(self.entries(), fp, now) matches Some(c) && c.response == resp@,
                None => fresh_entry(self.entries(), fp, now) is None,
            },
    {
        match self.cache.lookup(fp, now) {
            Some(c) => Some(c.response),
            None => None,
        }
    }

    /// Decides what to do with `req`, whose fingerprint is `fp`, at `now`.
    pub fn dispatch(&self, req: &ProxyRequest, fp: u64, now: u64) -> (r: Action)
        ensures
            r@ == dispatch(self.entries(), req@, fp, now),
    {
        match prepare_forward(req) {
            Err(_) => Action::Respond(ProxyResponse::with_status(BAD_REQUEST)),
            Ok(out) => match self.cache.lookup(fp, now) {
                Some(c) => Action::Respond(c.response),
                None => Action::Forward { fingerprint: fp, request: out },
            },
        }
    }

    /// Decides what to do with `req` at `now`: the first half of serving it.
    pub fn process(&self, req: &ProxyRequest, now: u64) -> (r: Action)
        ensures
            r@ == dispatch(self.entries(), req@, request_fingerprint(req@), now),
    {
        let fp = fingerprint(req);
        self.dispatch(req, fp, now)
    }

    /// The second half of serving a forwarded request: stores the upstream
    /// response under `fp` with expiry `now + ttl` and returns it unchanged.
    pub fn complete(&mut self, fp: u64, upstream: ProxyResponse, now: u64) -> (r: ProxyResponse)
        requires
            now + old(self).ttl_ms() <= u64::MAX,
        ensures
            r@ == upstream@,
            final(self).ttl_ms() == old(self).ttl_ms(),
            final(self).entries() == old(self).entries().insert(
                fp,
                CachedView { response: upstream@, expiry: (now + old(self).ttl_ms()) as u64 },
            ),
    {
        let stored = upstream.copy();
        self.cache.insert(fp, stored, self.ttl, now);
        upstream
    }

    /// One pass of the sweeper: drops every entry expired at `now`.
    pub fn clear_expired_cache(&mut self, now: u64)
        ensures
            final(self).ttl_ms() == old(self).ttl_ms(),
            final(self).entries() == fresh_part(old(self).entries(), now),
    {
        self.cache.sweep(now);
    }
}

} // verus!
