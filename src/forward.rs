//! The forwarding rule: the origin directive names the upstream, is taken out
//! of the request, and with the request's path and query makes the outbound URI.
use vstd::prelude::*;
use hyper::Uri;
use hyper::http::uri::InvalidUri;
use crate::request::{Header, HeaderView, ProxyRequest, RequestView, clone_header};

verus! {

/// hyper's parsed URI, carried to the upstream request as it is.
#[verifier::external_type_specification]
#[verifier::external_body]
pub struct ExUri(Uri);

/// The error of hyper's URI parser; only its presence is used.
#[verifier::external_type_specification]
#[verifier::external_body]
pub struct ExInvalidUri(InvalidUri);

/// Whether hyper's URI parser accepts these bytes.
pub uninterp spec fn uri_parses(text: Seq<u8>) -> bool;

/// Relies on `TryFrom<&[u8]> for hyper::Uri` (the `http` crate's parser): it
/// returns `Ok` exactly on the byte strings its URI grammar accepts, which
/// depends on the bytes alone, and it does not panic.
#[verifier::external_body]
fn parse_uri(text: &[u8]) -> (r: Result<Uri, InvalidUri>)
    ensures
        r is Ok <==> uri_parses(text@),
{
    Uri::try_from(text)
}

/// Why a request cannot be forwarded; either way the client gets 400.
#[derive(Clone, Copy, Debug, PartialEq, Eq, Structural)]
pub enum ForwardError {
    /// The request has no origin directive.
    OriginMissing,
    /// The origin directive does not make a valid outbound URI.
    OriginUnparsable,
}

/// A request ready to go upstream. Method, version and body are those of the
/// inbound request, unchanged.
pub struct OutboundRequest {
    /// The outbound URI, parsed from `target`.
    pub uri: Uri,
    /// The text of the outbound URI.
    pub target: Vec<u8>,
    /// The inbound headers, in order, without the origin directive.
    pub headers: Vec<Header>,
}

/// The header name of the origin directive, `origin` (header names are lower case).
pub open spec fn origin_name() -> Seq<u8> {
    seq![111u8, 114u8, 105u8, 103u8, 105u8, 110u8]
}

pub open spec fn is_origin(h: HeaderView) -> bool {
    h.0 == origin_name()
}

/// The value of the first origin directive in `hs`.
pub open spec fn first_origin(hs: Seq<HeaderView>) -> Option<Seq<u8>>
    decreases hs.len(),
{
    if hs.len() == 0 {
        None
    } else {
        match first_origin(hs.drop_last()) {
            Some(v) => Some(v),
            None => if is_origin(hs.last()) {
                Some(hs.last().1)
            } else {
                None
            },
        }
    }
}

/// `hs` without any origin directive, order kept.
pub open spec fn strip_origin(hs: Seq<HeaderView>) -> Seq<HeaderView>
    decreases hs.len(),
{
    if hs.len() == 0 {
        hs
    } else if is_origin(hs.last()) {
        strip_origin(hs.drop_last())
    } else {
        strip_origin(hs.drop_last()).push(hs.last())
    }
}

/// A header value that reads as text: tabs and visible ASCII only.
pub open spec fn is_visible_text(b: Seq<u8>) -> bool {
    forall|i: int| 0 <= i < b.len() ==> (b[i] == 9 || (32 <= #[trigger] b[i] && b[i] < 127))
}

/// The outbound URI text: the origin followed by the path and query, or `/`.
pub open spec fn outbound_target(origin: Seq<u8>, path_and_query: Option<Seq<u8>>) -> Seq<u8> {
    origin + match path_and_query {
        Some(p) => p,
        None => seq![47u8],
    }
}

/// The outbound URI text of a request, before it is parsed, or why there is none.
pub open spec fn rewrite_target(r: RequestView) -> Result<Seq<u8>, ForwardError> {
    match first_origin(r.headers) {
        None => Err(ForwardError::OriginMissing),
        Some(o) => if is_visible_text(o) {
            Ok(outbound_target(o, r.path_and_query))
        } else {
            Err(ForwardError::OriginUnparsable)
        },
    }
}

/// Where a request goes: the outbound URI text, or why it cannot be forwarded.
pub open spec fn forward_target(r: RequestView) -> Result<Seq<u8>, ForwardError> {
    match rewrite_target(r) {
        Ok(t) => if uri_parses(t) {
            Ok(t)
        } else {
            Err(ForwardError::OriginUnparsable)
        },
        Err(e) => Err(e),
    }
}

/// No origin directive is left in a stripped header list.
pub proof fn lemma_strip_origin_has_none(hs: Seq<HeaderView>)
    ensures
        forall|i: int| 0 <= i < strip_origin(hs).len() ==> !is_origin(#[trigger] strip_origin(hs)[i]),
    decreases hs.len(),
{
    if hs.len() > 0 {
        lemma_strip_origin_has_none(hs.drop_last());
        let prev = strip_origin(hs.drop_last());
        assert forall|i: int| 0 <= i < strip_origin(hs).len() implies !is_origin(
            #[trigger] strip_origin(hs)[i],
        ) by {
            if i < prev.len() {
                assert(strip_origin(hs)[i] == prev[i]);
            }
        }
    }
}

fn is_origin_name(name: &[u8]) -> (r: bool)
    ensures
        r == (name@ == origin_name()),
{
    if name.len() != 6 {
        return false;
    }
    let r = name[0] == 111 && name[1] == 114 && name[2] == 105 && name[3] == 103 && name[4] == 105
        && name[5] == 110;
    assert(r ==> name@ =~= origin_name());
    r
}

fn is_visible_text_exec(b: &[u8]) -> (r: bool)
    ensures
        r == is_visible_text(b@),
{
    let mut i: usize = 0;
    while i < b.len()
        invariant
            i <= b.len(),
            forall|j: int| 0 <= j < i ==> (b@[j] == 9 || (32 <= #[trigger] b@[j] && b@[j] < 127)),
        decreases b.len() - i,
    {
        if !(b[i] == 9 || (32 <= b[i] && b[i] < 127)) {
            return false;
        }
        i = i + 1;
    }
    true
}

/// Takes the origin directive out of `hs`: the first one's value, and the
/// remaining headers in order.
pub fn take_origin(hs: &Vec<Header>) -> (r: (Option<Vec<u8>>, Vec<Header>))
    ensures
        match (r.0, first_origin(hs.deep_view())) {
            (Some(v), Some(w)) => v@ == w,
            (None, None) => true,
            _ => false,
        },
        r.1.deep_view() == strip_origin(hs.deep_view()),
{
    let mut origin: Option<Vec<u8>> = None;
    let mut rest: Vec<Header> = Vec::new();
    let mut i: usize = 0;
    while i < hs.len()
        invariant
            i <= hs.len(),
            match (origin, first_origin(hs.deep_view().take(i as int))) {
                (Some(v), Some(w)) => v@ == w,
                (None, None) => true,
                _ => false,
            },
            rest.deep_view() == strip_origin(hs.deep_view().take(i as int)),
        decreases hs.len() - i,
    {
        let ghost t = hs.deep_view().take(i + 1);
        assert(t.drop_last() =~= hs.deep_view().take(i as int));
        assert(t.last() == hs[i as int].deep_view());
        assert(hs[i as int].0.deep_view() =~= hs[i as int].0@);
        assert(hs[i as int].1.deep_view() =~= hs[i as int].1@);
        if is_origin_name(hs[i].0.as_slice()) {
            if origin.is_none() {
                let v = hs[i].1.clone();
                assert(v@ =~= hs[i as int].1@);
                origin = Some(v);
            }
        } else {
            let ghost prev = rest.deep_view();
            rest.push(clone_header(&hs[i]));
            assert(rest.deep_view() =~= prev.push(hs[i as int].deep_view()));
        }
        i = i + 1;
    }
    assert(hs.deep_view().take(i as int) =~= hs.deep_view());
    (origin, rest)
}

/// Joins two byte strings.
fn concat(a: &[u8], b: &[u8]) -> (r: Vec<u8>)
    ensures
        r@ == a@ + b@,
{
    let mut out: Vec<u8> = Vec::new();
    let mut i: usize = 0;
    while i < a.len()
        invariant
            i <= a.len(),
            out@ == a@.take(i as int),
        decreases a.len() - i,
    {
        out.push(a[i]);
        assert(a@.take(i + 1) =~= a@.take(i as int).push(a[i as int]));
        i = i + 1;
    }
    let mut j: usize = 0;
    while j < b.len()
        invariant
            j <= b.len(),
            out@ == a@ + b@.take(j as int),
        decreases b.len() - j,
    {
        out.push(b[j]);
        assert(b@.take(j + 1) =~= b@.take(j as int).push(b[j as int]));
        j = j + 1;
    }
    assert(a@.take(a.len() as int) =~= a@);
    assert(b@.take(j as int) =~= b@);
    out
}

/// The outbound URI text for `req` and its headers without the origin
/// directive: the first directive's value followed by the path and query, or `/`.
pub fn rewrite_request(req: &ProxyRequest) -> (r: Result<(Vec<u8>, Vec<Header>), ForwardError>)
    ensures
        match r {
            Ok((target, headers)) => {
                &&& rewrite_target(req@) == Ok::<Seq<u8>, ForwardError>(target@)
                &&& headers.deep_view() == strip_origin(req@.headers)
            },
            Err(e) => rewrite_target(req@) == Err::<Seq<u8>, ForwardError>(e),
        },
{
    let (origin, headers) = take_origin(&req.headers);
    match origin {
        None => Err(ForwardError::OriginMissing),
        Some(o) => {
            if !is_visible_text_exec(o.as_slice()) {
                return Err(ForwardError::OriginUnparsable);
            }
            let target = match &req.path_and_query {
                Some(p) => concat(o.as_slice(), p.as_slice()),
                None => concat(o.as_slice(), &[47u8]),
            };
            assert(target@ =~= outbound_target(o@, req@.path_and_query));
            Ok((target, headers))
        },
    }
}

/// Rewrites `req` for the upstream named by its origin directive: the
/// directive is removed and the target becomes origin + path-and-query (or
/// `/`), which must parse as a URI.
pub fn prepare_forward(req: &ProxyRequest) -> (r: Result<OutboundRequest, ForwardError>)
    ensures
        match r {
            Ok(out) => {
                &&& forward_target(req@) == Ok::<Seq<u8>, ForwardError>(out.target@)
                &&& out.headers.deep_view() == strip_origin(req@.headers)
            },
            Err(e) => forward_target(req@) == Err::<Seq<u8>, ForwardError>(e),
        },
{
    match rewrite_request(req) {
        Err(e) => Err(e),
        Ok((target, headers)) => match parse_uri(target.as_slice()) {
            Ok(uri) => Ok(OutboundRequest { uri, target, headers }),
            Err(_) => Err(ForwardError::OriginUnparsable),
        },
    }
}

} // verus!
