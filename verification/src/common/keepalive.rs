//! The keep-alive packets that the scheduler and the nodes exchange over UDP.
use vstd::prelude::*;

use crate::common::bytes;
use crate::common::text;

verus! {

broadcast use vstd::array::group_array_axioms;

/// `BLZPNG`
pub const PING_MAGIC: [u8; 6] = [66, 76, 90, 80, 78, 71];

/// `BLZPONG`
pub const PONG_MAGIC: [u8; 7] = [66, 76, 90, 80, 79, 78, 71];

pub const PING_LEN: usize = 22;

pub const PONG_LEN: usize = 11;

/// A ping: magic, sequence number, node, and which of the node's addresses.
pub open spec fn ping_bytes(seq: u32, node_id: u64, addr_index: u32) -> Seq<u8> {
    PING_MAGIC@ + bytes::le_bytes(seq as nat, 4) + bytes::le_bytes(node_id as nat, 8) + bytes::le_bytes(
        addr_index as nat,
        4,
    )
}

/// A pong: magic and the sequence number of the ping.
pub open spec fn pong_bytes(seq: u32) -> Seq<u8> {
    PONG_MAGIC@ + bytes::le_bytes(seq as nat, 4)
}

/// The packet for a ping.
pub fn build_ping(seq: u32, node_id: u64, addr_index: u32) -> (packet: [u8; 22])
    ensures
        packet@ == ping_bytes(seq, node_id, addr_index),
{
    let mut out: Vec<u8> = Vec::new();
    bytes::push_bytes(&mut out, PING_MAGIC.as_slice());
    bytes::push_u32_le(&mut out, seq);
    bytes::push_u64_le(&mut out, node_id);
    bytes::push_u32_le(&mut out, addr_index);
    proof {
        bytes::lemma_le_bytes_len(seq as nat, 4);
        bytes::lemma_le_bytes_len(node_id as nat, 8);
        bytes::lemma_le_bytes_len(addr_index as nat, 4);
        assert(out@ =~= ping_bytes(seq, node_id, addr_index));
    }
    let mut packet: [u8; 22] = [0u8; 22];
    let mut i: usize = 0;
    while i < 22
        invariant
            i <= 22,
            out@.len() == 22,
            packet@.len() == 22,
            forall|k: int| 0 <= k < i ==> packet@[k] == out@[k],
        decreases 22 - i,
    {
        packet[i] = out[i];
        i = i + 1;
    }
    assert(packet@ =~= out@);
    packet
}

/// The packet for a pong.
pub fn build_pong(seq: u32) -> (packet: [u8; 11])
    ensures
        packet@ == pong_bytes(seq),
{
    let mut out: Vec<u8> = Vec::new();
    bytes::push_bytes(&mut out, PONG_MAGIC.as_slice());
    bytes::push_u32_le(&mut out, seq);
    proof {
        bytes::lemma_le_bytes_len(seq as nat, 4);
        assert(out@ =~= pong_bytes(seq));
    }
    let mut packet: [u8; 11] = [0u8; 11];
    let mut i: usize = 0;
    while i < 11
        invariant
            i <= 11,
            out@.len() == 11,
            packet@.len() == 11,
            forall|k: int| 0 <= k < i ==> packet@[k] == out@[k],
        decreases 11 - i,
    {
        packet[i] = out[i];
        i = i + 1;
    }
    assert(packet@ =~= out@);
    packet
}

/// What a ping says: sequence number, node, and which of its addresses;
/// `None` for anything else.
pub open spec fn ping_spec(packet: Seq<u8>) -> Option<(u32, u64, u32)> {
    if packet.len() == 22 && packet.take(6) == PING_MAGIC@ {
        Some(
            (
                bytes::le_value(packet.subrange(6, 10)) as u32,
                bytes::le_value(packet.subrange(10, 18)) as u64,
                bytes::le_value(packet.subrange(18, 22)) as u32,
            ),
        )
    } else {
        None
    }
}

/// The sequence number in a pong; `None` for anything else.
pub open spec fn pong_spec(packet: Seq<u8>) -> Option<u32> {
    if packet.len() == 11 && packet.take(7) == PONG_MAGIC@ {
        Some(bytes::le_value(packet.subrange(7, 11)) as u32)
    } else {
        None
    }
}

/// Reads a ping.
pub fn parse_ping(packet: &[u8]) -> (ping: Option<(u32, u64, u32)>)
    ensures
        ping == ping_spec(packet@),
{
    if packet.len() != PING_LEN || !text::bytes_begin(packet, PING_MAGIC.as_slice()) {
        return None;
    }
    Some((bytes::u32_le_at(packet, 6), bytes::u64_le_at(packet, 10), bytes::u32_le_at(packet, 18)))
}

/// Reads a pong.
pub fn parse_pong(packet: &[u8]) -> (seq: Option<u32>)
    ensures
        seq == pong_spec(packet@),
{
    if packet.len() != PONG_LEN || !text::bytes_begin(packet, PONG_MAGIC.as_slice()) {
        return None;
    }
    Some(bytes::u32_le_at(packet, 7))
}

/// The answer of a node to a packet: a pong for a ping, nothing else.
pub fn answer_ping(packet: &[u8]) -> (pong: Option<[u8; 11]>)
    ensures
        match pong {
            Some(p) => ping_spec(packet@) matches Some(ping) && p@ == pong_bytes(ping.0),
            None => ping_spec(packet@) is None,
        },
{
    match parse_ping(packet) {
        Some((seq, _, _)) => Some(build_pong(seq)),
        None => None,
    }
}

/// Where the parts of a packet lie: a ping is `BLZPNG`, then the sequence number
/// in four bytes, the node in eight and the place of the address in four, each
/// with the lowest byte first; a pong is `BLZPONG` and the sequence number.
pub proof fn packets_are_laid_out(seq: u32, node_id: u64, addr_index: u32)
    ensures
        ({
            let ping = ping_bytes(seq, node_id, addr_index);
            &&& ping.len() == 22
            &&& ping.subrange(0, 6) == seq![66u8, 76, 90, 80, 78, 71]
            &&& ping.subrange(6, 10) == bytes::le_bytes(seq as nat, 4)
            &&& ping.subrange(10, 18) == bytes::le_bytes(node_id as nat, 8)
            &&& ping.subrange(18, 22) == bytes::le_bytes(addr_index as nat, 4)
        }),
        ({
            let pong = pong_bytes(seq);
            &&& pong.len() == 11
            &&& pong.subrange(0, 7) == seq![66u8, 76, 90, 80, 79, 78, 71]
            &&& pong.subrange(7, 11) == bytes::le_bytes(seq as nat, 4)
        }),
{
    bytes::lemma_le_bytes_len(seq as nat, 4);
    bytes::lemma_le_bytes_len(node_id as nat, 8);
    bytes::lemma_le_bytes_len(addr_index as nat, 4);
    let ping = ping_bytes(seq, node_id, addr_index);
    assert(ping.subrange(0, 6) =~= seq![66u8, 76, 90, 80, 78, 71]);
    assert(ping.subrange(6, 10) =~= bytes::le_bytes(seq as nat, 4));
    assert(ping.subrange(10, 18) =~= bytes::le_bytes(node_id as nat, 8));
    assert(ping.subrange(18, 22) =~= bytes::le_bytes(addr_index as nat, 4));
    let pong = pong_bytes(seq);
    assert(pong.subrange(0, 7) =~= seq![66u8, 76, 90, 80, 79, 78, 71]);
    assert(pong.subrange(7, 11) =~= bytes::le_bytes(seq as nat, 4));
}

/// Only a packet of the right length that begins with the magic is read, and
/// every such packet is.
pub proof fn other_packets_are_passed_over(packet: Seq<u8>)
    ensures
        ping_spec(packet) is Some <==> packet.len() == 22 && packet.subrange(0, 6) == seq![66u8, 76, 90, 80, 78, 71],
        pong_spec(packet) is Some <==> packet.len() == 11 && packet.subrange(0, 7) == seq![
            66u8,
            76,
            90,
            80,
            79,
            78,
            71,
        ],
{
    assert(PING_MAGIC@ =~= seq![66u8, 76, 90, 80, 78, 71]);
    assert(PONG_MAGIC@ =~= seq![66u8, 76, 90, 80, 79, 78, 71]);
    if packet.len() == 22 {
        assert(packet.take(6) =~= packet.subrange(0, 6));
    }
    if packet.len() == 11 {
        assert(packet.take(7) =~= packet.subrange(0, 7));
    }
}

/// What is built is read back: a built ping or pong parses to what it was
/// built from.
pub proof fn packets_read_back(seq: u32, node_id: u64, addr_index: u32)
    ensures
        ping_spec(ping_bytes(seq, node_id, addr_index)) == Some((seq, node_id, addr_index)),
        pong_spec(pong_bytes(seq)) == Some(seq),
{
    assert(bytes::width_bound(4) == 0x1_0000_0000 && bytes::width_bound(8) == 0x1_0000_0000_0000_0000) by {
        reveal_with_fuel(bytes::width_bound, 9);
    }
    bytes::lemma_le_roundtrip(seq as nat, 4);
    bytes::lemma_le_roundtrip(node_id as nat, 8);
    bytes::lemma_le_roundtrip(addr_index as nat, 4);
    let ping = ping_bytes(seq, node_id, addr_index);
    assert(ping.take(6) =~= PING_MAGIC@);
    assert(ping.subrange(6, 10) =~= bytes::le_bytes(seq as nat, 4));
    assert(ping.subrange(10, 18) =~= bytes::le_bytes(node_id as nat, 8));
    assert(ping.subrange(18, 22) =~= bytes::le_bytes(addr_index as nat, 4));
    let pong = pong_bytes(seq);
    assert(pong.take(7) =~= PONG_MAGIC@);
    assert(pong.subrange(7, 11) =~= bytes::le_bytes(seq as nat, 4));
}

/// What is read is what building gives: a packet that parses as a ping or a pong
/// is the one built from what it says.
pub proof fn read_packets_are_built(packet: Seq<u8>)
    ensures
        ping_spec(packet) matches Some(p) ==> packet == ping_bytes(p.0, p.1, p.2),
        pong_spec(packet) matches Some(seq) ==> packet == pong_bytes(seq),
{
    assert(bytes::width_bound(4) == 0x1_0000_0000 && bytes::width_bound(8) == 0x1_0000_0000_0000_0000) by {
        reveal_with_fuel(bytes::width_bound, 9);
    }
    if ping_spec(packet) is Some {
        bytes::lemma_le_value_bytes(packet.subrange(6, 10));
        bytes::lemma_le_value_bytes(packet.subrange(10, 18));
        bytes::lemma_le_value_bytes(packet.subrange(18, 22));
        assert(packet =~= packet.take(6) + packet.subrange(6, 10) + packet.subrange(10, 18) + packet.subrange(18, 22));
    }
    if pong_spec(packet) is Some {
        bytes::lemma_le_value_bytes(packet.subrange(7, 11));
        assert(packet =~= packet.take(7) + packet.subrange(7, 11));
    }
}

} // verus!
