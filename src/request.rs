//! The inbound request as the proxy sees it, and its canonical header order.
use vstd::prelude::*;
use vstd::relations::*;
use std::collections::hash_map::DefaultHasher;
use std::hash::Hasher;
use vstd::std_specs::hash::DefaultHasherAdditionalSpecFns;
use crate::order::{header_le_exec, header_leq, lemma_header_order_total};

verus! {

broadcast use vstd::seq_lib::group_to_multiset_ensures;

/// A header as a (name, value) pair of byte strings.
pub type Header = (Vec<u8>, Vec<u8>);

/// The mathematical form of a header.
pub type HeaderView = (Seq<u8>, Seq<u8>);

/// Headers in canonical order: sorted by name, then by value.
pub open spec fn canonical_headers(hs: Seq<HeaderView>) -> Seq<HeaderView> {
    hs.sort_by(header_leq())
}

/// Any two header lists that hold the same pairs, in whatever order, have one
/// canonical form.
pub proof fn lemma_canonical_headers_unique(a: Seq<HeaderView>, b: Seq<HeaderView>)
    requires
        a.to_multiset() == b.to_multiset(),
    ensures
        canonical_headers(a) == canonical_headers(b),
{
    lemma_header_order_total();
    a.lemma_sort_by_ensures(header_leq());
    b.lemma_sort_by_ensures(header_leq());
    vstd::seq_lib::lemma_sorted_unique(canonical_headers(a), canonical_headers(b), header_leq());
}

/// A copy of one header.
pub fn clone_header(h: &Header) -> (r: Header)
    ensures
        r.deep_view() == h.deep_view(),
{
    let name = h.0.clone();
    let value = h.1.clone();
    assert(name@ =~= h.0@);
    assert(value@ =~= h.1@);
    assert(name.deep_view() =~= h.0.deep_view());
    assert(value.deep_view() =~= h.1.deep_view());
    (name, value)
}

/// A copy of `hs`, in the same order.
pub fn clone_headers(hs: &Vec<Header>) -> (r: Vec<Header>)
    ensures
        r.deep_view() == hs.deep_view(),
{
    let mut out: Vec<Header> = Vec::new();
    let mut i: usize = 0;
    while i < hs.len()
        invariant
            i <= hs.len(),
            out.deep_view() == hs.deep_view().take(i as int),
        decreases hs.len() - i,
    {
        let h = clone_header(&hs[i]);
        let ghost prev = out.deep_view();
        out.push(h);
        assert(out.deep_view() =~= prev.push(hs[i as int].deep_view()));
        assert(hs.deep_view().take(i + 1) =~= hs.deep_view().take(i as int).push(hs[i as int].deep_view()));
        i = i + 1;
    }
    assert(hs.deep_view().take(i as int) =~= hs.deep_view());
    out
}

/// A copy of `hs` in canonical order.
pub fn sort_headers(hs: &Vec<Header>) -> (r: Vec<Header>)
    ensures
        r.deep_view() == canonical_headers(hs.deep_view()),
{
    let ghost leq = header_leq();
    proof {
        lemma_header_order_total();
    }
    let mut out: Vec<Header> = Vec::new();
    let mut i: usize = 0;
    while i < hs.len()
        invariant
            i <= hs.len(),
            total_ordering(leq),
            leq == header_leq(),
            sorted_by(out.deep_view(), leq),
            out.deep_view().to_multiset() == hs.deep_view().take(i as int).to_multiset(),
        decreases hs.len() - i,
    {
        let x = clone_header(&hs[i]);
        let mut pos: usize = 0;
        while pos < out.len() && header_le_exec(&out[pos], &x)
            invariant
                pos <= out.len(),
                forall|k: int| 0 <= k < pos ==> leq(out.deep_view()[k], x.deep_view()),
                leq == header_leq(),
            decreases out.len() - pos,
        {
            pos = pos + 1;
        }
        let ghost before = out.deep_view();
        let ghost xv = x.deep_view();
        proof {
            if pos < out.len() {
                assert(!leq(before[pos as int], xv));
                assert(leq(xv, before[pos as int]));
                assert forall|k: int| pos <= k < before.len() implies leq(xv, before[k]) by {
                    if k > pos {
                        assert(leq(before[pos as int], before[k]));
                    }
                }
            }
        }
        out.insert(pos, x);
        assert(out.deep_view() =~= before.insert(pos as int, xv));
        assert(hs.deep_view().take(i + 1) =~= hs.deep_view().take(i as int).push(xv));
        assert(sorted_by(out.deep_view(), leq)) by {
            let s = out.deep_view();
            assert forall|a: int, b: int| 0 <= a < b < s.len() implies #[trigger] leq(s[a], s[b]) by {
                if b < pos {
                } else if a < pos && b == pos {
                } else if a < pos {
                    assert(leq(before[a], before[b - 1]));
                } else if a == pos {
                } else {
                    assert(leq(before[a - 1], before[b - 1]));
                }
            }
        }
        i = i + 1;
    }
    proof {
        assert(hs.deep_view().take(i as int) =~= hs.deep_view());
        hs.deep_view().lemma_sort_by_ensures(leq);
        vstd::seq_lib::lemma_sorted_unique(out.deep_view(), canonical_headers(hs.deep_view()), leq);
    }
    out
}

/// The protocol version of a request or response.
#[derive(Clone, Copy, Debug, PartialEq, Eq, Structural)]
pub enum HttpVersion {
    Http09,
    Http10,
    Http11,
    Http2,
    Http3,
}

/// The byte that stands for a version in a fingerprint.
pub open spec fn version_code(v: HttpVersion) -> u8 {
    match v {
        HttpVersion::Http09 => 0,
        HttpVersion::Http10 => 1,
        HttpVersion::Http11 => 2,
        HttpVersion::Http2 => 3,
        HttpVersion::Http3 => 4,
    }
}

fn version_byte(v: HttpVersion) -> (r: u8)
    ensures
        r == version_code(v),
{
    match v {
        HttpVersion::Http09 => 0,
        HttpVersion::Http10 => 1,
        HttpVersion::Http11 => 2,
        HttpVersion::Http2 => 3,
        HttpVersion::Http3 => 4,
    }
}

/// An inbound request: what identifies it, and what is forwarded. The body
/// is not part of it; it travels beside the request unchanged.
pub struct ProxyRequest {
    /// The method, as its name's bytes.
    pub method: Vec<u8>,
    /// The request target exactly as received.
    pub target: Vec<u8>,
    /// The path and query of the target, where it has one.
    pub path_and_query: Option<Vec<u8>>,
    pub version: HttpVersion,
    /// Header names (lower case) and values, in the order received.
    pub headers: Vec<Header>,
}

pub struct RequestView {
    pub method: Seq<u8>,
    pub target: Seq<u8>,
    pub path_and_query: Option<Seq<u8>>,
    pub version: HttpVersion,
    pub headers: Seq<HeaderView>,
}

impl View for ProxyRequest {
    type V = RequestView;

    open spec fn view(&self) -> RequestView {
        RequestView {
            method: self.method@,
            target: self.target@,
            path_and_query: match self.path_and_query {
                Some(p) => Some(p@),
                None => None,
            },
            version: self.version,
            headers: self.headers.deep_view(),
        }
    }
}

/// `n` as eight bytes, least significant first.
pub open spec fn le_bytes(n: u64) -> Seq<u8> {
    Seq::new(8, |i: int| ((n >> ((8 * i) as u64)) & 0xff) as u8)
}

/// `b` preceded by its length, so that consecutive fields cannot run together.
pub open spec fn frame(b: Seq<u8>) -> Seq<u8> {
    le_bytes(b.len() as u64) + b
}

/// Each header framed as name then value, in order.
pub open spec fn frame_headers(hs: Seq<HeaderView>) -> Seq<u8>
    decreases hs.len(),
{
    if hs.len() == 0 {
        Seq::empty()
    } else {
        frame_headers(hs.drop_last()) + frame(hs.last().0) + frame(hs.last().1)
    }
}

/// The bytes that identify a request for caching: method, target, version
/// and the headers in canonical order.
pub open spec fn fingerprint_input(r: RequestView) -> Seq<u8> {
    frame(r.method) + frame(r.target) + seq![version_code(r.version)] + frame_headers(
        canonical_headers(r.headers),
    )
}

/// The cache key of a request: the default hasher applied to its identifying bytes.
pub open spec fn request_fingerprint(r: RequestView) -> u64 {
    DefaultHasher::spec_finish(seq![fingerprint_input(r)])
}

/// Requests with equal method, target and version, and headers that are the
/// same pairs in any order, have the same fingerprint.
pub proof fn lemma_fingerprint_deterministic(a: RequestView, b: RequestView)
    requires
        a.method == b.method,
        a.target == b.target,
        a.version == b.version,
        a.headers.to_multiset() == b.headers.to_multiset(),
    ensures
        request_fingerprint(a) == request_fingerprint(b),
{
    lemma_canonical_headers_unique(a.headers, b.headers);
}

/// Every length in the request fits in the eight bytes that frame it.
pub open spec fn lengths_fit(r: RequestView) -> bool {
    &&& r.method.len() <= u64::MAX
    &&& r.target.len() <= u64::MAX
    &&& forall|i: int|
        0 <= i < r.headers.len() ==> (#[trigger] r.headers[i]).0.len() <= u64::MAX
            && r.headers[i].1.len() <= u64::MAX
}

proof fn lemma_le_bytes_injective(n: u64, m: u64)
    requires
        le_bytes(n) == le_bytes(m),
    ensures
        n == m,
{
    assert(le_bytes(n)[0] == le_bytes(m)[0]);
    assert(le_bytes(n)[0] == ((n >> 0u64) & 0xff) as u8 && le_bytes(m)[0] == ((m >> 0u64) & 0xff) as u8);
    assert(le_bytes(n)[1] == le_bytes(m)[1]);
    assert(le_bytes(n)[1] == ((n >> 8u64) & 0xff) as u8 && le_bytes(m)[1] == ((m >> 8u64) & 0xff) as u8);
    assert(le_bytes(n)[2] == le_bytes(m)[2]);
    assert(le_bytes(n)[2] == ((n >> 16u64) & 0xff) as u8 && le_bytes(m)[2] == ((m >> 16u64) & 0xff) as u8);
    assert(le_bytes(n)[3] == le_bytes(m)[3]);
    assert(le_bytes(n)[3] == ((n >> 24u64) & 0xff) as u8 && le_bytes(m)[3] == ((m >> 24u64) & 0xff) as u8);
    assert(le_bytes(n)[4] == le_bytes(m)[4]);
    assert(le_bytes(n)[4] == ((n >> 32u64) & 0xff) as u8 && le_bytes(m)[4] == ((m >> 32u64) & 0xff) as u8);
    assert(le_bytes(n)[5] == le_bytes(m)[5]);
    assert(le_bytes(n)[5] == ((n >> 40u64) & 0xff) as u8 && le_bytes(m)[5] == ((m >> 40u64) & 0xff) as u8);
    assert(le_bytes(n)[6] == le_bytes(m)[6]);
    assert(le_bytes(n)[6] == ((n >> 48u64) & 0xff) as u8 && le_bytes(m)[6] == ((m >> 48u64) & 0xff) as u8);
    assert(le_bytes(n)[7] == le_bytes(m)[7]);
    assert(le_bytes(n)[7] == ((n >> 56u64) & 0xff) as u8 && le_bytes(m)[7] == ((m >> 56u64) & 0xff) as u8);
    assert(((n >> 0u64) & 0xff) as u8 == ((m >> 0u64) & 0xff) as u8 && ((n >> 8u64) & 0xff) as u8
        == ((m >> 8u64) & 0xff) as u8 && ((n >> 16u64) & 0xff) as u8 == ((m >> 16u64) & 0xff) as u8
        && ((n >> 24u64) & 0xff) as u8 == ((m >> 24u64) & 0xff) as u8 && ((n >> 32u64) & 0xff) as u8
        == ((m >> 32u64) & 0xff) as u8 && ((n >> 40u64) & 0xff) as u8 == ((m >> 40u64) & 0xff) as u8
        && ((n >> 48u64) & 0xff) as u8 == ((m >> 48u64) & 0xff) as u8 && ((n >> 56u64) & 0xff) as u8
        == ((m >> 56u64) & 0xff) as u8 ==> n == m) by (bit_vector);
}

proof fn lemma_frame_split(x: Seq<u8>, r1: Seq<u8>, y: Seq<u8>, r2: Seq<u8>)
    requires
        x.len() <= u64::MAX,
        y.len() <= u64::MAX,
        frame(x) + r1 == frame(y) + r2,
    ensures
        x == y,
        r1 == r2,
{
    let s = frame(x) + r1;
    assert(s.take(8) =~= le_bytes(x.len() as u64));
    assert((frame(y) + r2).take(8) =~= le_bytes(y.len() as u64));
    lemma_le_bytes_injective(x.len() as u64, y.len() as u64);
    assert(s.subrange(8, 8 + x.len() as int) =~= x);
    assert((frame(y) + r2).subrange(8, 8 + y.len() as int) =~= y);
    assert(s.skip(8 + x.len() as int) =~= r1);
    assert((frame(y) + r2).skip(8 + y.len() as int) =~= r2);
}

proof fn lemma_frame_headers_front(hs: Seq<HeaderView>)
    requires
        hs.len() > 0,
    ensures
        frame_headers(hs) == frame(hs[0].0) + frame(hs[0].1) + frame_headers(hs.drop_first()),
    decreases hs.len(),
{
    if hs.len() == 1 {
        assert(hs.drop_last() =~= Seq::<HeaderView>::empty());
        assert(hs.drop_first() =~= Seq::<HeaderView>::empty());
        assert(frame_headers(hs.drop_last()) =~= Seq::<u8>::empty());
        assert(frame_headers(hs.drop_first()) =~= Seq::<u8>::empty());
        assert(hs.last() == hs[0]);
        assert(frame_headers(hs) =~= frame(hs[0].0) + frame(hs[0].1));
    } else {
        lemma_frame_headers_front(hs.drop_last());
        assert(hs.drop_last().drop_first() =~= hs.drop_first().drop_last());
        assert(hs.drop_first().last() == hs.last());
        assert(hs.drop_last()[0] == hs[0]);
        assert(frame_headers(hs) =~= frame(hs[0].0) + frame(hs[0].1) + frame_headers(
            hs.drop_first(),
        ));
    }
}

proof fn lemma_frame_headers_injective(a: Seq<HeaderView>, b: Seq<HeaderView>, ra: Seq<u8>, rb: Seq<u8>)
    requires
        forall|i: int| 0 <= i < a.len() ==> (#[trigger] a[i]).0.len() <= u64::MAX && a[i].1.len() <= u64::MAX,
        forall|i: int| 0 <= i < b.len() ==> (#[trigger] b[i]).0.len() <= u64::MAX && b[i].1.len() <= u64::MAX,
        frame_headers(a) + ra == frame_headers(b) + rb,
        ra.len() == rb.len(),
    ensures
        a == b,
    decreases a.len(),
{
    if a.len() == 0 && b.len() == 0 {
    } else if a.len() == 0 {
        lemma_frame_headers_front(b);
        assert(frame_headers(a) =~= Seq::<u8>::empty());
        assert((frame_headers(a) + ra).len() < (frame_headers(b) + rb).len());
    } else if b.len() == 0 {
        lemma_frame_headers_front(a);
        assert(frame_headers(b) =~= Seq::<u8>::empty());
        assert((frame_headers(b) + rb).len() < (frame_headers(a) + ra).len());
    } else {
        lemma_frame_headers_front(a);
        lemma_frame_headers_front(b);
        let (ta, tb) = (a.drop_first(), b.drop_first());
        assert(frame_headers(a) + ra =~= frame(a[0].0) + (frame(a[0].1) + frame_headers(ta) + ra));
        assert(frame_headers(b) + rb =~= frame(b[0].0) + (frame(b[0].1) + frame_headers(tb) + rb));
        lemma_frame_split(a[0].0, frame(a[0].1) + frame_headers(ta) + ra, b[0].0, frame(b[0].1) + frame_headers(tb) + rb);
        assert(frame(a[0].1) + frame_headers(ta) + ra =~= frame(a[0].1) + (frame_headers(ta) + ra));
        assert(frame(b[0].1) + frame_headers(tb) + rb =~= frame(b[0].1) + (frame_headers(tb) + rb));
        lemma_frame_split(a[0].1, frame_headers(ta) + ra, b[0].1, frame_headers(tb) + rb);
        assert forall|i: int| 0 <= i < ta.len() implies (#[trigger] ta[i]).0.len() <= u64::MAX && ta[i].1.len() <= u64::MAX by {
            assert(ta[i] == a[i + 1]);
        }
        assert forall|i: int| 0 <= i < tb.len() implies (#[trigger] tb[i]).0.len() <= u64::MAX && tb[i].1.len() <= u64::MAX by {
            assert(tb[i] == b[i + 1]);
        }
        lemma_frame_headers_injective(ta, tb, ra, rb);
        assert(a =~= seq![a[0]] + ta);
        assert(b =~= seq![b[0]] + tb);
    }
}

/// The identifying bytes tell requests apart: two requests with the same
/// bytes have the same method, target and version, and the same headers up
/// to order.
pub proof fn lemma_fingerprint_input_injective(a: RequestView, b: RequestView)
    requires
        lengths_fit(a),
        lengths_fit(b),
        fingerprint_input(a) == fingerprint_input(b),
    ensures
        a.method == b.method,
        a.target == b.target,
        a.version == b.version,
        a.headers.to_multiset() == b.headers.to_multiset(),
{
    let (ha, hb) = (canonical_headers(a.headers), canonical_headers(b.headers));
    let (va, vb) = (seq![version_code(a.version)], seq![version_code(b.version)]);
    assert(fingerprint_input(a) =~= frame(a.method) + (frame(a.target) + va + frame_headers(ha)));
    assert(fingerprint_input(b) =~= frame(b.method) + (frame(b.target) + vb + frame_headers(hb)));
    lemma_frame_split(a.method, frame(a.target) + va + frame_headers(ha), b.method, frame(b.target) + vb + frame_headers(hb));
    assert(frame(a.target) + va + frame_headers(ha) =~= frame(a.target) + (va + frame_headers(ha)));
    assert(frame(b.target) + vb + frame_headers(hb) =~= frame(b.target) + (vb + frame_headers(hb)));
    lemma_frame_split(a.target, va + frame_headers(ha), b.target, vb + frame_headers(hb));
    assert((va + frame_headers(ha))[0] == (vb + frame_headers(hb))[0]);
    assert((va + frame_headers(ha)).skip(1) =~= frame_headers(ha));
    assert((vb + frame_headers(hb)).skip(1) =~= frame_headers(hb));
    lemma_header_order_total();
    a.headers.lemma_sort_by_ensures(header_leq());
    b.headers.lemma_sort_by_ensures(header_leq());
    assert forall|i: int| 0 <= i < ha.len() implies (#[trigger] ha[i]).0.len() <= u64::MAX && ha[i].1.len() <= u64::MAX by {
        assert(ha.contains(ha[i]));
        assert(a.headers.contains(ha[i]));
    }
    assert forall|i: int| 0 <= i < hb.len() implies (#[trigger] hb[i]).0.len() <= u64::MAX && hb[i].1.len() <= u64::MAX by {
        assert(hb.contains(hb[i]));
        assert(b.headers.contains(hb[i]));
    }
    assert(frame_headers(ha) + Seq::<u8>::empty() =~= frame_headers(hb) + Seq::<u8>::empty());
    lemma_frame_headers_injective(ha, hb, Seq::empty(), Seq::empty());
}

fn push_frame(out: &mut Vec<u8>, b: &[u8])
    ensures
        final(out)@ == old(out)@ + frame(b@),
{
    let n: u64 = b.len() as u64;
    let mut k: u64 = 0;
    while k < 8
        invariant
            k <= 8,
            n == b@.len() as u64,
            out@.len() == old(out)@.len() + k,
            out@.subrange(0, old(out)@.len() as int) == old(out)@,
            forall|j: int| 0 <= j < k ==> out@[old(out)@.len() + j] == le_bytes(n)[j],
        decreases 8 - k,
    {
        out.push(((n >> (8 * k)) & 0xff) as u8);
        k = k + 1;
    }
    let mut i: usize = 0;
    while i < b.len()
        invariant
            i <= b.len(),
            out@ == old(out)@ + le_bytes(n) + b@.take(i as int),
        decreases b.len() - i,
    {
        out.push(b[i]);
        assert(b@.take(i + 1) =~= b@.take(i as int).push(b[i as int]));
        i = i + 1;
    }
    assert(b@.take(i as int) =~= b@);
}

/// The identifying bytes of `req`.
pub fn fingerprint_bytes(req: &ProxyRequest) -> (r: Vec<u8>)
    ensures
        r@ == fingerprint_input(req@),
{
    let mut out: Vec<u8> = Vec::new();
    push_frame(&mut out, req.method.as_slice());
    push_frame(&mut out, req.target.as_slice());
    out.push(version_byte(req.version));
    let hs = sort_headers(&req.headers);
    let ghost start = out@;
    let mut i: usize = 0;
    while i < hs.len()
        invariant
            i <= hs.len(),
            out@ == start + frame_headers(hs.deep_view().take(i as int)),
        decreases hs.len() - i,
    {
        let ghost prev = hs.deep_view().take(i as int);
        assert(hs.deep_view().take(i + 1).drop_last() =~= prev);
        assert(hs[i as int].0.deep_view() =~= hs[i as int].0@);
        assert(hs[i as int].1.deep_view() =~= hs[i as int].1@);
        push_frame(&mut out, hs[i].0.as_slice());
        push_frame(&mut out, hs[i].1.as_slice());
        i = i + 1;
    }
    assert(hs.deep_view().take(i as int) =~= hs.deep_view());
    assert(out@ =~= fingerprint_input(req@));
    out
}

/// The cache key of `req`.
pub fn fingerprint(req: &ProxyRequest) -> (r: u64)
    ensures
        r == request_fingerprint(req@),
{
    let bytes = fingerprint_bytes(req);
    let mut hasher = DefaultHasher::new();
    hasher.write(bytes.as_slice());
    assert(hasher@ =~= seq![fingerprint_input(req@)]);
    hasher.finish()
}

} // verus!
