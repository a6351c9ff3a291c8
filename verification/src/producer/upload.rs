//! Uploading what a new version adds.
use vstd::prelude::*;
use vstd::utf8::*;

use crate::common::chunk_set;
use crate::common::lists;
use crate::common::text;
use crate::origin::storage;
use crate::proto::{CommitReply, UploadAck, UploadChunk};

verus! {

broadcast use vstd::array::group_array_axioms;

/// What came of an upload.
#[derive(Debug, PartialEq, Eq)]
pub struct UploadSummary {
    pub uploaded: usize,
    /// How many chunks the origin had already.
    pub skipped: usize,
    pub failed: Vec<[u8; 32]>,
}

impl Default for UploadSummary {
    fn default() -> (s: Self)
        ensures
            s.uploaded == 0,
            s.skipped == 0,
            s.failed@.len() == 0,
    {
        UploadSummary { uploaded: 0, skipped: 0, failed: Vec::new() }
    }
}

/// The value of the authorization header.
pub fn bearer(token: &str) -> (value: String)
    ensures
        value@ == "Bearer "@ + token@,
{
    text::join2("Bearer ", token)
}

/// Under which key a request carries its token.
pub const AUTHORIZATION: &'static str = "authorization";

/// The error of a value that no request can carry.
#[verifier::external_type_specification]
#[verifier::external_body]
pub struct ExInvalidMetadataValue(tonic::metadata::errors::InvalidMetadataValue);

/// Whether a request can carry these bytes as a value: no control character
/// but the tabulator is among them.
pub open spec fn is_metadata_value(bytes: Seq<u8>) -> bool {
    forall|i: int| 0 <= i < bytes.len() ==> (#[trigger] bytes[i] >= 32 && bytes[i] != 127) || bytes[i] == 9
}

/// `MetadataValue::from_str` of tonic, and the bytes of the value: they are
/// those of the text. It fails where the text holds a control character other
/// than a tabulator.
#[verifier::external_body]
fn metadata_value(value: &str) -> (bytes: Result<Vec<u8>, tonic::metadata::errors::InvalidMetadataValue>)
    ensures
        match bytes {
            Ok(b) => b@ == encode_utf8(value@) && is_metadata_value(b@),
            Err(_) => !is_metadata_value(encode_utf8(value@)),
        },
{
    value.parse::<tonic::metadata::AsciiMetadataValue>().map(|v| v.as_encoded_bytes().to_vec())
}

/// A token that no request can carry.
#[derive(Debug, Clone, Copy, PartialEq, Eq, Structural)]
pub struct TokenError;

impl TokenError {
    /// What to tell a user.
    pub fn message(&self) -> (out: &'static str)
        ensures
            out@ == "Token 格式非法"@,
    {
        "Token 格式非法"
    }
}

/// What a request carries for a token: key and value, nothing without a token.
pub fn attach_token(token: &Option<String>) -> (entry: Result<Option<(String, Vec<u8>)>, TokenError>)
    ensures
        match token {
            None => entry == Ok::<Option<(String, Vec<u8>)>, TokenError>(None),
            Some(t) => if is_metadata_value(encode_utf8("Bearer "@ + t@)) {
                &&& entry matches Ok(Some(kv))
                &&& kv.0@ == AUTHORIZATION@
                &&& kv.0@ == "authorization"@
                &&& kv.1@ == encode_utf8("Bearer "@ + t@)
            } else {
                entry == Err::<Option<(String, Vec<u8>)>, TokenError>(TokenError)
            },
        },
{
    match token {
        None => Ok(None),
        Some(t) => match metadata_value(bearer(t.as_str()).as_str()) {
            Ok(value) => Ok(Some((AUTHORIZATION.to_owned(), value))),
            Err(_) => Err(TokenError),
        },
    }
}

/// The hashes in the origin's answer; each must have 32 bytes.
pub fn existing_hashes(answer: &Vec<Vec<u8>>) -> (hashes: Vec<[u8; 32]>)
    requires
        forall|i: int| 0 <= i < answer@.len() ==> (#[trigger] answer@[i])@.len() == 32,
    ensures
        hashes@.len() == answer@.len(),
        forall|i: int| 0 <= i < hashes@.len() ==> (#[trigger] hashes@[i])@ == answer@[i]@,
{
    let mut out: Vec<[u8; 32]> = Vec::new();
    let mut i: usize = 0;
    while i < answer.len()
        invariant
            i <= answer@.len(),
            forall|k: int| 0 <= k < answer@.len() ==> (#[trigger] answer@[k])@.len() == 32,
            out@.len() == i,
            forall|k: int| 0 <= k < i ==> (#[trigger] out@[k])@ == answer@[k]@,
        decreases answer.len() - i,
    {
        assert(answer@[i as int]@.len() == 32);
        let h = chunk_set::hash_at(answer[i].as_slice(), 0);
        assert(h@ =~= answer@[i as int]@);
        out.push(h);
        i = i + 1;
    }
    out
}

/// Whether the list holds the hash.
fn holds(list: &Vec<[u8; 32]>, hash: &[u8; 32]) -> (found: bool)
    ensures
        found == list@.contains(*hash),
{
    let mut i: usize = 0;
    while i < list.len()
        invariant
            i <= list@.len(),
            forall|k: int| 0 <= k < i ==> list@[k] != *hash,
        decreases list.len() - i,
    {
        if chunk_set::same_hash(&list[i], hash) {
            assert(list@[i as int] == *hash);
            return true;
        }
        i = i + 1;
    }
    false
}

/// The chunks whose hashes are not in the list, in order.
pub open spec fn missing(chunks: Seq<([u8; 32], Vec<u8>)>, existing: Seq<[u8; 32]>) -> Seq<([u8; 32], Vec<u8>)>
    decreases chunks.len(),
{
    if chunks.len() == 0 {
        Seq::empty()
    } else {
        let after = missing(chunks.drop_first(), existing);
        if existing.contains(chunks[0].0) {
            after
        } else {
            seq![chunks[0]] + after
        }
    }
}

/// Exactly the chunks that the origin lacks are sent, in their order.
pub proof fn sent_chunks_are_those_missing(chunks: Seq<([u8; 32], Vec<u8>)>, existing: Seq<[u8; 32]>)
    ensures
        missing(chunks, existing) == chunks.filter(|c: ([u8; 32], Vec<u8>)| !existing.contains(c.0)),
    decreases chunks.len(),
{
    let lacks = |c: ([u8; 32], Vec<u8>)| !existing.contains(c.0);
    reveal(Seq::filter);
    if chunks.len() > 0 {
        let first = seq![chunks[0]];
        let rest = chunks.drop_first();
        sent_chunks_are_those_missing(rest, existing);
        assert(chunks =~= first + rest);
        Seq::filter_distributes_over_add(first, rest, lacks);
        assert(first.drop_last() =~= Seq::empty());
        assert(first.drop_last().filter(lacks) =~= Seq::empty());
        assert(first.filter(lacks) =~= if lacks(chunks[0]) {
            first
        } else {
            Seq::empty()
        });
        assert(missing(chunks, existing) =~= chunks.filter(lacks));
    } else {
        assert(missing(chunks, existing) =~= chunks.filter(lacks));
    }
}

/// Drops the chunks that the origin has.
pub fn to_upload(chunks: Vec<([u8; 32], Vec<u8>)>, existing: &Vec<[u8; 32]>) -> (rest: Vec<([u8; 32], Vec<u8>)>)
    ensures
        rest@ == missing(chunks@, existing@),
        rest@ == chunks@.filter(|c: ([u8; 32], Vec<u8>)| !existing@.contains(c.0)),
{
    let ghost all = chunks@;
    let mut rest = lists::reversed(chunks);
    let mut out: Vec<([u8; 32], Vec<u8>)> = Vec::new();
    let ghost mut i: int = 0;
    assert(all.skip(0) =~= all);
    assert(out@ + missing(all, existing@) =~= missing(all, existing@));
    while rest.len() > 0
        invariant
            0 <= i,
            i + rest@.len() == all.len(),
            rest@ == all.skip(i).reverse(),
            out@ + missing(all.skip(i), existing@) == missing(all, existing@),
        decreases rest@.len(),
    {
        proof {
            lists::lemma_rest_reversed(all, i);
            assert(all.skip(i).drop_first() =~= all.skip(i + 1));
        }
        let ghost out0 = out@;
        let c = rest.pop().unwrap();
        if !holds(existing, &c.0) {
            out.push(c);
            assert(out@ + missing(all.skip(i + 1), existing@) =~= out0 + (seq![c] + missing(
                all.skip(i + 1),
                existing@,
            )));
        }
        proof {
            i = i + 1;
        }
    }
    assert(missing(all.skip(i), existing@) =~= Seq::empty());
    assert(out@ =~= missing(all, existing@));
    proof {
        sent_chunks_are_those_missing(all, existing@);
    }
    out
}

/// The messages for chunks: numbered from zero, modulo 2^32.
pub fn number_chunks(game_id: u64, chunks: Vec<([u8; 32], Vec<u8>)>) -> (messages: Vec<UploadChunk>)
    ensures
        messages@.len() == chunks@.len(),
        forall|i: int| 0 <= i < messages@.len() ==> (#[trigger] messages@[i]).game_id == game_id
            && messages@[i].chunk_hash@ == chunks@[i].0@ && messages@[i].data == chunks@[i].1 && messages@[i].seq
            == storage::low32(i as nat),
{
    let ghost all = chunks@;
    let mut rest = lists::reversed(chunks);
    let mut out: Vec<UploadChunk> = Vec::new();
    assert(all.skip(0) =~= all);
    while rest.len() > 0
        invariant
            out@.len() + rest@.len() == all.len(),
            rest@ == all.skip(out@.len() as int).reverse(),
            forall|i: int| 0 <= i < out@.len() ==> (#[trigger] out@[i]).game_id == game_id && out@[i].chunk_hash@
                == all[i].0@ && out@[i].data == all[i].1 && out@[i].seq == storage::low32(i as nat),
        decreases rest@.len(),
    {
        proof {
            lists::lemma_rest_reversed(all, out@.len() as int);
        }
        let seq: u32 = storage::length32(out.len());
        let (hash, data) = rest.pop().unwrap();
        let chunk_hash = vstd::slice::slice_to_vec(hash.as_slice());
        out.push(UploadChunk { game_id, chunk_hash, data, seq });
    }
    out
}

/// How many of the answers are good.
pub open spec fn good_acks(acks: Seq<UploadAck>) -> nat
    decreases acks.len(),
{
    if acks.len() == 0 {
        0
    } else {
        good_acks(acks.drop_last()) + (if acks.last().ok {
            1nat
        } else {
            0
        })
    }
}

/// The hashes in the bad answers, in order.
pub open spec fn failed_acks(acks: Seq<UploadAck>) -> Seq<Seq<u8>>
    decreases acks.len(),
{
    if acks.len() == 0 {
        Seq::empty()
    } else if acks.last().ok {
        failed_acks(acks.drop_last())
    } else {
        failed_acks(acks.drop_last()).push(acks.last().chunk_hash@)
    }
}

/// Every answer counts once: good ones are counted, and of the others the
/// hashes are listed in order.
pub proof fn acks_are_counted(acks: Seq<UploadAck>)
    ensures
        good_acks(acks) == acks.filter(|a: UploadAck| a.ok).len(),
        failed_acks(acks) == acks.filter(|a: UploadAck| !a.ok).map_values(|a: UploadAck| a.chunk_hash@),
        good_acks(acks) + failed_acks(acks).len() == acks.len(),
    decreases acks.len(),
{
    reveal(Seq::filter);
    let bad = |a: UploadAck| !a.ok;
    let hash = |a: UploadAck| a.chunk_hash@;
    if acks.len() > 0 {
        let init = acks.drop_last();
        acks_are_counted(init);
        if !acks.last().ok {
            assert(init.filter(bad).push(acks.last()).map_values(hash) =~= init.filter(bad).map_values(hash).push(
                acks.last().chunk_hash@,
            ));
        }
    }
    assert(failed_acks(acks) =~= acks.filter(bad).map_values(hash));
}

/// Sums up an upload: `skipped` chunks were there, the others were answered.
/// The hash in a bad answer must have 32 bytes.
pub fn summarize(skipped: usize, acks: &Vec<UploadAck>) -> (s: UploadSummary)
    requires
        forall|i: int| 0 <= i < acks@.len() && !acks@[i].ok ==> (#[trigger] acks@[i]).chunk_hash@.len() == 32,
    ensures
        s.skipped == skipped,
        s.uploaded == good_acks(acks@),
        s.failed@.map_values(|h: [u8; 32]| h@) == failed_acks(acks@),
        s.uploaded == acks@.filter(|a: UploadAck| a.ok).len(),
        s.uploaded + s.failed@.len() == acks@.len(),
        s.failed@.map_values(|h: [u8; 32]| h@) == acks@.filter(|a: UploadAck| !a.ok).map_values(
            |a: UploadAck| a.chunk_hash@,
        ),
{
    let mut uploaded: usize = 0;
    let mut failed: Vec<[u8; 32]> = Vec::new();
    let mut i: usize = 0;
    assert(acks@.take(0) =~= Seq::empty());
    assert(failed@.map_values(|h: [u8; 32]| h@) =~= Seq::empty());
    while i < acks.len()
        invariant
            i <= acks@.len(),
            forall|k: int| 0 <= k < acks@.len() && !acks@[k].ok ==> (#[trigger] acks@[k]).chunk_hash@.len() == 32,
            uploaded <= i,
            uploaded == good_acks(acks@.take(i as int)),
            failed@.map_values(|h: [u8; 32]| h@) == failed_acks(acks@.take(i as int)),
        decreases acks.len() - i,
    {
        let ghost before = failed@;
        assert(acks@.take(i + 1).drop_last() =~= acks@.take(i as int));
        if acks[i].ok {
            uploaded = uploaded + 1;
        } else {
            assert(acks@[i as int].chunk_hash@.len() == 32);
            let h = chunk_set::hash_at(acks[i].chunk_hash.as_slice(), 0);
            assert(h@ =~= acks@[i as int].chunk_hash@);
            failed.push(h);
            assert(failed@.map_values(|h: [u8; 32]| h@) =~= before.map_values(|h: [u8; 32]| h@).push(h@));
        }
        i = i + 1;
    }
    assert(acks@.take(i as int) =~= acks@);
    proof {
        acks_are_counted(acks@);
    }
    UploadSummary { uploaded, skipped, failed }
}

/// Whether a version was published, or what to tell a user.
pub fn commit_result(reply: &CommitReply) -> (r: Result<(), String>)
    ensures
        match r {
            Ok(_) => reply.published,
            Err(e) => !reply.published && e@ == "版本发布失败: "@ + reply.error@,
        },
{
    if reply.published {
        Ok(())
    } else {
        Err(text::join2("版本发布失败: ", reply.error.as_str()))
    }
}

/// Every chunk of an upload is either known to the origin or sent, and none
/// that is known is sent.
pub proof fn upload_sends_what_is_missing(chunks: Seq<([u8; 32], Vec<u8>)>, existing: Seq<[u8; 32]>)
    ensures
        forall|i: int| 0 <= i < chunks.len() && !existing.contains(chunks[i].0) ==> missing(chunks, existing).contains(
            #[trigger] chunks[i],
        ),
        forall|i: int| 0 <= i < missing(chunks, existing).len() ==> !existing.contains(
            (#[trigger] missing(chunks, existing)[i]).0,
        ),
    decreases chunks.len(),
{
    if chunks.len() > 0 {
        let rest = chunks.drop_first();
        let after = missing(rest, existing);
        let now = missing(chunks, existing);
        upload_sends_what_is_missing(rest, existing);
        assert forall|i: int| 0 <= i < chunks.len() && !existing.contains(chunks[i].0) implies now.contains(
            #[trigger] chunks[i],
        ) by {
            if i == 0 {
                assert(now[0] == chunks[0]);
            } else {
                assert(rest[i - 1] == chunks[i]);
                assert(after.contains(rest[i - 1]));
                let k = choose|k: int| 0 <= k < after.len() && after[k] == chunks[i];
                if existing.contains(chunks[0].0) {
                    assert(now[k] == chunks[i]);
                } else {
                    assert(now[k + 1] == chunks[i]);
                }
            }
        }
        assert forall|i: int| 0 <= i < now.len() implies !existing.contains((#[trigger] now[i]).0) by {
            if existing.contains(chunks[0].0) {
                assert(now[i] == after[i]);
            } else if i > 0 {
                assert(now[i] == after[i - 1]);
            }
        }
    }
}

} // verus!
