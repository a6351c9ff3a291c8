//! Serving chunks to other nodes.
use vstd::prelude::*;

use crate::common::bytes;

verus! {

/// Chunks are only transferred over a direct path; relays only help to open
/// one.
pub fn allow_data(has_direct: bool, _has_relay: bool) -> (allowed: bool)
    ensures
        allowed == has_direct,
{
    has_direct
}

/// Whether a connection over these paths is refused: without a direct path it
/// carries no chunks.
pub fn reject_relay_only(has_direct: bool, has_relay: bool) -> (refused: Result<bool, String>)
    ensures
        refused == Ok::<bool, String>(!has_direct),
{
    Ok(!allow_data(has_direct, has_relay))
}

/// A request for chunks: the game and how many hashes follow.
pub fn parse_request_header(header: &[u8; 12]) -> (r: (u64, u32))
    ensures
        r.0 == bytes::be_value(header@.subrange(0, 8)),
        r.1 == bytes::be_value(header@.subrange(8, 12)),
{
    (bytes::u64_be_at(header.as_slice(), 0), bytes::u32_be_at(header.as_slice(), 8))
}

/// The length in front of a chunk: the low 32 bits, most significant byte
/// first.
pub fn reply_header(data_len: usize) -> (header: Vec<u8>)
    ensures
        header@ == bytes::be_bytes(crate::origin::storage::low32(data_len as nat) as nat, 4),
{
    let mut out: Vec<u8> = Vec::new();
    bytes::push_u32_be(&mut out, crate::origin::storage::length32(data_len));
    assert(out@ =~= bytes::be_bytes(crate::origin::storage::low32(data_len as nat) as nat, 4));
    out
}

} // verus!
