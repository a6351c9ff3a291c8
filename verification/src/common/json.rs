//! Lists of numbers as JSON texts.
use vstd::prelude::*;

use crate::common::text;

verus! {

/// The error of serde_json.
#[verifier::external_type_specification]
#[verifier::external_body]
pub struct ExJsonError(serde_json::Error);

/// Numbers in decimal, separated by commas.
pub open spec fn separated(numbers: Seq<nat>) -> Seq<char>
    decreases numbers.len(),
{
    if numbers.len() == 0 {
        Seq::empty()
    } else if numbers.len() == 1 {
        text::decimal(numbers[0])
    } else {
        separated(numbers.drop_last()) + ","@ + text::decimal(numbers.last())
    }
}

/// A list without numbers is empty, one with a number is that number, and two
/// lists are joined by a comma.
pub proof fn lists_are_joined_by_commas(one: Seq<nat>, two: Seq<nat>, n: nat)
    ensures
        separated(Seq::empty()) == Seq::<char>::empty(),
        separated(seq![n]) == text::decimal(n),
        one.len() > 0 && two.len() > 0 ==> separated(one + two) == separated(one) + ","@ + separated(two),
    decreases two.len(),
{
    if one.len() > 0 && two.len() > 0 {
        assert((one + two).drop_last() =~= one + two.drop_last());
        assert((one + two).last() == two.last());
        if two.len() == 1 {
            assert(one + two.drop_last() =~= one);
        } else {
            lists_are_joined_by_commas(one, two.drop_last(), n);
            assert(separated(one + two) =~= separated(one) + ","@ + separated(two));
        }
    }
}

/// The JSON text of a list of 64-bit numbers.
pub open spec fn ids_json(ids: Seq<u64>) -> Seq<char> {
    "["@ + separated(ids.map_values(|n: u64| n as nat)) + "]"@
}

/// The list of 64-bit numbers that a JSON text spells.
pub uninterp spec fn json_ids(json: Seq<char>) -> Option<Seq<u64>>;

/// The JSON text of a byte string: an array of its bytes as numbers.
pub open spec fn bytes_json(data: Seq<u8>) -> Seq<char> {
    "["@ + separated(data.map_values(|b: u8| b as nat)) + "]"@
}

/// The byte string that a JSON text spells.
pub uninterp spec fn json_bytes(json: Seq<char>) -> Option<Seq<u8>>;

/// `serde_json::to_string` of a list of numbers, which does not fail: the numbers
/// in decimal between square brackets, separated by commas and by nothing else.
/// The text reads back as the list.
#[verifier::external_body]
pub(crate) fn ids_to_json(ids: &Vec<u64>) -> (json: Result<String, serde_json::Error>)
    ensures
        json is Ok,
        json->Ok_0@ == ids_json(ids@),
        json_ids(json->Ok_0@) == Some(ids@),
{
    serde_json::to_string(ids)
}

/// `serde_json::from_str` to a list of numbers: the list that the text spells,
/// or an error where it spells none. Which texts spell which lists is not
/// stated here.
#[verifier::external_body]
pub(crate) fn ids_from_json(json: &String) -> (ids: Result<Vec<u64>, serde_json::Error>)
    ensures
        match ids {
            Ok(list) => json_ids(json@) == Some(list@),
            Err(_) => json_ids(json@) is None,
        },
{
    serde_json::from_str(json)
}

/// `serde_json::to_string` of a byte string, which does not fail: the bytes as
/// numbers in decimal between square brackets, separated by commas and by nothing
/// else. The text reads back as the bytes.
#[verifier::external_body]
pub(crate) fn bytes_to_json(data: &Vec<u8>) -> (json: Result<String, serde_json::Error>)
    ensures
        json is Ok,
        json->Ok_0@ == bytes_json(data@),
        json_bytes(json->Ok_0@) == Some(data@),
{
    serde_json::to_string(data)
}

/// `serde_json::from_str` to a byte string: the bytes that the text spells, or
/// an error where it spells none. Which texts spell which bytes is not stated
/// here.
#[verifier::external_body]
pub(crate) fn bytes_from_json(json: &String) -> (data: Result<Vec<u8>, serde_json::Error>)
    ensures
        match data {
            Ok(list) => json_bytes(json@) == Some(list@),
            Err(_) => json_bytes(json@) is None,
        },
{
    serde_json::from_str(json)
}

} // verus!
