//! Pieces shared by every node type.
use vstd::prelude::*;

pub mod args;
pub mod bytes;
pub mod chunk_set;
pub mod copy;
pub mod digest;
pub mod hex;
pub mod json;
pub mod keepalive;
pub mod lists;
pub mod order;
pub mod path;
pub mod stable;
pub mod tables;
pub mod text;
pub mod update_plan;
pub mod words;

verus! {

/// The name of the network.
pub fn package_name() -> (name: &'static str)
    ensures
        name@ == "blazenet"@,
{
    "blazenet"
}

} // verus!
