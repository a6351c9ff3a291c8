//! The endpoints that chunks are fetched from.
use vstd::prelude::*;

use crate::agent::executor;
use crate::agent::executor::Target;
use crate::proto::Peer;

verus! {

/// The error of reading a key of iroh.
#[verifier::external_type_specification]
#[verifier::external_body]
pub struct ExKeyParsingError(iroh::KeyParsingError);

/// How iroh writes the endpoint that a text names; `None` where it names none.
pub uninterp spec fn canonical_endpoint(text: Seq<char>) -> Option<Seq<char>>;

/// `EndpointId::from_str`, and the text of the endpoint that it gives. Which
/// texts name endpoints, and how these are written, is not stated.
#[verifier::external_body]
fn endpoint_text(text: &str) -> (id: Result<String, iroh::KeyParsingError>)
    ensures
        match id {
            Ok(t) => canonical_endpoint(text@) == Some(t@),
            Err(_) => canonical_endpoint(text@) is None,
        },
{
    text.parse::<iroh::EndpointId>().map(|id| id.to_string())
}

/// Why there is no target.
#[derive(Debug, Clone, Copy, PartialEq, Eq, Structural)]
pub enum EndpointError {
    /// A peer gave a text that names no endpoint.
    Peer,
    /// The configuration of the origin names no endpoint.
    Origin,
    /// The configured address of the origin is none.
    OriginAddr,
}

impl EndpointError {
    /// What to tell a user.
    pub open spec fn text(self) -> Seq<char> {
        match self {
            EndpointError::Peer => "候选端点 ID 非法"@,
            EndpointError::Origin => "原始节点端点 ID 非法"@,
            EndpointError::OriginAddr => "原始节点地址非法"@,
        }
    }

    /// What to tell a user.
    pub fn message(&self) -> (out: &'static str)
        ensures
            out@ == self.text(),
            out@ == (match *self {
                EndpointError::Peer => "候选端点 ID 非法"@,
                EndpointError::Origin => "原始节点端点 ID 非法"@,
                EndpointError::OriginAddr => "原始节点地址非法"@,
            }),
    {
        match self {
            EndpointError::Peer => "候选端点 ID 非法",
            EndpointError::Origin => "原始节点端点 ID 非法",
            EndpointError::OriginAddr => "原始节点地址非法",
        }
    }
}

/// The endpoint that a text names, as iroh writes it.
pub fn parse_endpoint(text: &str) -> (id: Option<String>)
    ensures
        executor::option_view(id) == canonical_endpoint(text@),
{
    match endpoint_text(text) {
        Ok(t) => Some(t),
        Err(_) => None,
    }
}

/// A peer as a target, given the endpoint that it named, if it named one, and
/// the address for a direct connection, if that could be read.
pub fn peer_target_with(id: Option<String>, addr: Option<String>, direct_only: bool) -> (target: Result<
    Target,
    EndpointError,
>)
    ensures
        target == (match id {
            Some(endpoint_id) => Ok::<Target, EndpointError>(Target { endpoint_id, addr, direct_only }),
            None => Err(EndpointError::Peer),
        }),
{
    match id {
        Some(endpoint_id) => Ok(Target { endpoint_id, addr, direct_only }),
        None => Err(EndpointError::Peer),
    }
}

/// A peer as a target; `addr` is the address for a direct connection, if it
/// could be read.
pub fn peer_target(peer: &Peer, addr: Option<String>) -> (target: Result<Target, EndpointError>)
    ensures
        match canonical_endpoint(peer.endpoint_id@) {
            Some(id) => {
                &&& target matches Ok(t)
                &&& t.endpoint_id@ == id
                &&& t.addr == addr
                &&& t.direct_only == peer.direct_only
            },
            None => target == Err::<Target, EndpointError>(EndpointError::Peer),
        },
{
    peer_target_with(parse_endpoint(peer.endpoint_id.as_str()), addr, peer.direct_only)
}

/// The origin as a target, given the configured endpoint and address as far as
/// they could be read.
pub fn origin_target_with(id: Option<String>, addr: Option<String>) -> (target: Result<Target, EndpointError>)
    ensures
        target == (match (id, addr) {
            (None, _) => Err::<Target, EndpointError>(EndpointError::Origin),
            (Some(_), None) => Err(EndpointError::OriginAddr),
            (Some(endpoint_id), Some(a)) => Ok(Target { endpoint_id, addr: Some(a), direct_only: false }),
        }),
{
    match id {
        None => Err(EndpointError::Origin),
        Some(endpoint_id) => match addr {
            None => Err(EndpointError::OriginAddr),
            Some(a) => Ok(Target { endpoint_id, addr: Some(a), direct_only: false }),
        },
    }
}

/// The origin as a target; `None` where its endpoint or its address is not
/// configured. `addr` is what the configured address was read as, if it could
/// be.
pub fn origin_target(endpoint: &Option<String>, configured: &Option<String>, addr: Option<String>) -> (target: Result<
    Option<Target>,
    EndpointError,
>)
    ensures
        if endpoint is None || configured is None {
            target == Ok::<Option<Target>, EndpointError>(None)
        } else {
            match canonical_endpoint(endpoint->0@) {
                None => target == Err::<Option<Target>, EndpointError>(EndpointError::Origin),
                Some(id) => if addr is None {
                    target == Err::<Option<Target>, EndpointError>(EndpointError::OriginAddr)
                } else {
                    &&& target matches Ok(Some(t))
                    &&& t.endpoint_id@ == id
                    &&& t.addr == addr
                    &&& !t.direct_only
                },
            }
        },
{
    match (endpoint, configured) {
        (Some(e), Some(_)) => match origin_target_with(parse_endpoint(e.as_str()), addr) {
            Ok(t) => Ok(Some(t)),
            Err(e) => Err(e),
        },
        _ => Ok(None),
    }
}

} // verus!
