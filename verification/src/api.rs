//! The boundary handlers' decisions: registration with its
//! address-range pre-authentication, the credential check, the health
//! line and the visible-talk listing. The HTTP layer parses requests,
//! calls these, and writes status codes and bodies.

use crate::codec;
use crate::registry::{contains_id, spec_is_authenticated, spec_register, spec_set_authenticated,
    ClientRegistry, NotFound};
use crate::store::{spec_visible_listing, TalkStore};
use vstd::prelude::*;

verus! {

/// What the registration endpoint returns to the caller: the issued id
/// and whether the origin pre-authenticated it.
#[derive(Debug, Clone, Copy, PartialEq, Eq, Structural)]
pub struct RegisterResponse {
    pub id: u64,
    pub authenticated: bool,
}

/// What the authentication endpoint receives: the registered id and the
/// offered credential.
#[derive(Debug, Clone)]
pub struct AuthenticateRequest {
    pub id: u64,
    pub password: String,
}

/// A bare credential, as some callers post it.
#[derive(Debug, Clone)]
pub struct Password {
    pub password: String,
}

/// The authentication endpoint's verdict, for the boundary to turn into
/// a status code.
#[derive(Debug, Clone, Copy, PartialEq, Eq, Structural)]
pub enum AuthStatus {
    /// Credential right, id known: the entry is now authenticated.
    Accepted,
    /// Credential right, id unknown: a rejection at the boundary.
    UnknownId,
    /// Credential wrong: forbidden, and nothing looked up.
    Forbidden,
}

/// An origin address, as plain values.
#[derive(Debug, Clone, Copy)]
pub enum ClientAddr {
    V4 { octets: (u8, u8, u8, u8) },
    V6 { segments: (u16, u16, u16, u16) },
}

/// The address-range rule for pre-authentication: a v4 origin inside
/// 128.153.0.0/16, or a v6 origin whose first, second and fourth
/// segments are 2605, 6480 and c051. An unknown origin never
/// pre-authenticates.
pub open spec fn spec_pre_authenticated(addr: Option<ClientAddr>) -> bool {
    match addr {
        Some(ClientAddr::V4 { octets }) => octets.0 == 128 && octets.1 == 153,
        Some(ClientAddr::V6 { segments }) => segments.0 == 0x2605 && segments.1 == 0x6480
            && segments.3 == 0xc051,
        None => false,
    }
}

/// Registers a new client: issues a fresh id, files the entry - with no
/// outbound path yet and one round of grace - and reports the id with
/// the outcome of the address-range rule.
pub fn register_handler(addr: Option<ClientAddr>, clients: &mut ClientRegistry) -> (r:
    RegisterResponse)
    requires
        old(clients).wf(),
        old(clients).spec_next_id() < u64::MAX,
    ensures
        final(clients).wf(),
        r.authenticated == spec_pre_authenticated(addr),
        r.id == old(clients).spec_next_id(),
        !contains_id(old(clients)@, r.id),
        contains_id(final(clients)@, r.id),
        final(clients)@ == spec_register(old(clients)@, r.id, r.authenticated),
        final(clients).spec_next_id() == r.id + 1,
{
    let authenticated = match addr {
        Some(ClientAddr::V4 { octets }) => octets.0 == 128 && octets.1 == 153,
        Some(ClientAddr::V6 { segments }) => segments.0 == 0x2605 && segments.1 == 0x6480
            && segments.3 == 0xc051,
        None => false,
    };
    let id = clients.register(authenticated);
    RegisterResponse { id, authenticated }
}

/// Checks a credential against the configured shared secret and, when
/// it matches, authenticates the named entry. A wrong credential is
/// forbidden without looking the id up; a right credential with an
/// unknown id is reported for the boundary to reject.
pub fn authenticate(request: AuthenticateRequest, clients: &mut ClientRegistry, secret: &str) -> (
    r: AuthStatus)
    requires
        old(clients).wf(),
    ensures
        final(clients).wf(),
        final(clients).spec_next_id() == old(clients).spec_next_id(),
        r is Forbidden <==> request.password@ != secret@,
        r is Accepted <==> request.password@ == secret@ && contains_id(old(clients)@, request.id),
        r is UnknownId <==> request.password@ == secret@ && !contains_id(
            old(clients)@,
            request.id,
        ),
        r is Accepted ==> final(clients)@ == spec_set_authenticated(old(clients)@, request.id)
            && spec_is_authenticated(final(clients)@, request.id),
        !(r is Accepted) ==> final(clients)@ == old(clients)@,
{
    if codec::str_eq(request.password.as_str(), secret) {
        match clients.set_authenticated(request.id) {
            Ok(()) => AuthStatus::Accepted,
            Err(NotFound) => AuthStatus::UnknownId,
        }
    } else {
        AuthStatus::Forbidden
    }
}

/// The health line: how many connections the registry holds.
pub fn health_handler(clients: &ClientRegistry) -> (r: String)
    requires
        clients.wf(),
    ensures
        r@ == "Open Connections: "@ + codec::spec_dec_nat(clients@.len() as nat) + "\n"@,
{
    let n = clients.count();
    let mut out: Vec<char> = Vec::new();
    codec::push_str(&mut out, "Open Connections: ");
    codec::push_dec_u64(&mut out, n as u64);
    codec::push_str(&mut out, "\n");
    proof {
        assert(out@ =~= "Open Connections: "@ + codec::spec_dec_nat(clients@.len() as nat)
            + "\n"@);
    }
    codec::chars_to_string(&out)
}

/// The visible cards, in listing order, as one JSON array.
pub fn visible_talks(db: &TalkStore) -> (r: String)
    requires
        db.wf(),
    ensures
        r@ == codec::spec_encode_talk_list(spec_visible_listing(db@)),
{
    match db.list_visible_talks() {
        Ok(talks) => codec::encode_talk_list(&talks),
        Err(_) => {
            proof {
                assert(false);
            }
            codec::chars_to_string(&Vec::new())
        },
    }
}

} // verus!
