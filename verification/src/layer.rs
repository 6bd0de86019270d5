//! The middleware decisions: the session gate that guards every
//! non-login request, the version response header, and the thin tracing
//! and metadata wrappers the service stack is built from.

use vstd::prelude::*;
use crate::auth::{Auth, find_session};
use crate::kv::clone_bytes;
use crate::bytes::bytes_eq;

verus! {

/// The response header naming the server build, `protolith-version`.
pub open spec fn header_protolith_key() -> Seq<u8> {
    seq![
        112u8, 114u8, 111u8, 116u8, 111u8, 108u8, 105u8, 116u8, 104u8, 45u8, 118u8, 101u8,
        114u8, 115u8, 105u8, 111u8, 110u8,
    ]
}

/// The request header carrying the session token, `protolith-session`.
pub open spec fn header_protolith_session() -> Seq<u8> {
    seq![
        112u8, 114u8, 111u8, 116u8, 111u8, 108u8, 105u8, 116u8, 104u8, 45u8, 115u8, 101u8,
        115u8, 115u8, 105u8, 111u8, 110u8,
    ]
}

/// The login RPC path, the one request served without a session.
pub open spec fn login_path() -> Seq<u8> {
    seq![
        47u8, 112u8, 114u8, 111u8, 116u8, 111u8, 108u8, 105u8, 116u8, 104u8, 46u8, 115u8,
        101u8, 114u8, 118u8, 105u8, 99u8, 101u8, 115u8, 46u8, 118u8, 49u8, 46u8, 65u8, 117u8,
        116u8, 104u8, 83u8, 101u8, 114u8, 118u8, 105u8, 99u8, 101u8, 47u8, 76u8, 111u8, 103u8,
        105u8, 110u8,
    ]
}

/// Build the login RPC path, `/protolith.services.v1.AuthService/Login`.
pub fn login_path_bytes() -> (r: Vec<u8>)
    ensures
        r@ == login_path(),
{
    let codes: Vec<u8> = vec![
        47u8, 112u8, 114u8, 111u8, 116u8, 111u8, 108u8, 105u8, 116u8, 104u8, 46u8, 115u8,
        101u8, 114u8, 118u8, 105u8, 99u8, 101u8, 115u8, 46u8, 118u8, 49u8, 46u8, 65u8, 117u8,
        116u8, 104u8, 83u8, 101u8, 114u8, 118u8, 105u8, 99u8, 101u8, 47u8, 76u8, 111u8, 103u8,
        105u8, 110u8,
    ];
    proof {
        assert(codes@ =~= login_path());
    }
    codes
}

/// The fallback token when no session header is present, `unknown`.
pub open spec fn unknown_token() -> Seq<u8> {
    seq![117u8, 110u8, 107u8, 110u8, 111u8, 119u8, 110u8]
}

/// What the session gate decides for one request.
pub enum GateDecision {
    Pass,
    Reject,
}

/// The session token carried by the request headers, or `unknown`.
pub fn extract_session_token_from_metadata(headers: &Vec<(Vec<u8>, Vec<u8>)>) -> (r: Vec<u8>)
    ensures
        (exists|i: int|
            0 <= i < headers@.len() && (#[trigger] headers@[i]).0@ == header_protolith_session())
            ==> (exists|i: int|
            0 <= i < headers@.len() && (#[trigger] headers@[i]).0@ == header_protolith_session()
                && r@ == headers@[i].1@),
        !(exists|i: int|
            0 <= i < headers@.len() && (#[trigger] headers@[i]).0@
                == header_protolith_session()) ==> r@ == unknown_token(),
{
    let key: Vec<u8> = vec![
        112u8, 114u8, 111u8, 116u8, 111u8, 108u8, 105u8, 116u8, 104u8, 45u8, 115u8, 101u8,
        115u8, 115u8, 105u8, 111u8, 110u8,
    ];
    proof {
        assert(key@ =~= header_protolith_session());
    }
    let mut i: usize = 0;
    while i < headers.len()
        invariant
            i <= headers@.len(),
            key@ == header_protolith_session(),
            forall|j: int|
                0 <= j < i ==> (#[trigger] headers@[j]).0@ != header_protolith_session(),
        decreases headers@.len() - i,
    {
        if bytes_eq(&headers[i].0, &key) {
            return clone_bytes(&headers[i].1);
        }
        i += 1;
    }
    let unknown: Vec<u8> = vec![117u8, 110u8, 107u8, 110u8, 111u8, 119u8, 110u8];
    proof {
        assert(unknown@ =~= unknown_token());
    }
    unknown
}

/// The session gate: a login request passes; everything else passes
/// exactly when its token names a live session.
pub fn session_gate(path: &Vec<u8>, token: &Vec<u8>, auth: &Auth) -> (r: GateDecision)
    ensures
        r is Pass <==> (path@ == login_path() || find_session(
            auth.auth.sessions_model(),
            token@,
        ) is Some),
{
    let login = login_path_bytes();
    if bytes_eq(path, &login) {
        return GateDecision::Pass;
    }
    match auth.get_session(token) {
        Some(_) => GateDecision::Pass,
        None => GateDecision::Reject,
    }
}

/// Every non-login request without a live session is rejected, and a
/// token just issued by a login is always accepted, whatever the path.
pub proof fn lemma_session_gate_law(
    path: Seq<u8>,
    token: Seq<u8>,
    sessions: Seq<(Seq<u8>, Seq<char>)>,
    user: Seq<char>,
)
    ensures
        path != login_path() && find_session(sessions, token) is None ==> !(find_session(
            sessions,
            token,
        ) is Some),
        find_session(sessions.push((token, user)), token) == Some(user),
{
    assert(sessions.push((token, user)).last() == (token, user));
}

/// Appends the server version response header; the layer around every
/// response.
pub struct MetadataLayer;

/// The wrapped service carrying the version header injection.
pub struct Metadata<S> {
    pub inner: S,
}

impl MetadataLayer {
    pub fn layer<S>(&self, service: S) -> (r: Metadata<S>)
        ensures
            r.inner == service,
    {
        Metadata { inner: service }
    }
}

/// Append the version header to a response's header list.
pub fn append_version_header(headers: &mut Vec<(Vec<u8>, Vec<u8>)>, version: &Vec<u8>)
    ensures
        final(headers)@.len() == old(headers)@.len() + 1,
        final(headers)@.last().0@ == header_protolith_key(),
        final(headers)@.last().1@ == version@,
        forall|i: int|
            0 <= i < old(headers)@.len() ==> #[trigger] final(headers)@[i] == old(headers)@[i],
{
    let key: Vec<u8> = vec![
        112u8, 114u8, 111u8, 116u8, 111u8, 108u8, 105u8, 116u8, 104u8, 45u8, 118u8, 101u8,
        114u8, 115u8, 105u8, 111u8, 110u8,
    ];
    proof {
        assert(key@ =~= header_protolith_key());
    }
    headers.push((key, clone_bytes(version)));
}

/// Request tracing; what it records never changes the response.
pub struct TracingLayer;

/// The wrapped service carrying request tracing.
pub struct TracingService<S> {
    pub inner: S,
}

impl TracingLayer {
    pub fn layer<S>(&self, inner: S) -> (r: TracingService<S>)
        ensures
            r.inner == inner,
    {
        TracingService { inner }
    }
}

/// The session gate as a layer over the auth service.
pub struct SessionLayer {
    pub auth: Auth,
}

impl SessionLayer {
    pub fn new(auth: Auth) -> (r: SessionLayer)
        ensures
            r.auth == auth,
    {
        SessionLayer { auth }
    }
}

} // verus!
