//! The producer: turns a game directory into chunks and a version manifest.
use vstd::prelude::*;

pub mod chunker;
pub mod config;
pub mod delta;
pub mod manifest;
pub mod upload;

verus! {

/// Nothing has to be set up before a producer starts.
pub fn run() -> (r: Result<(), String>)
    ensures
        r is Ok,
{
    Ok(())
}

} // verus!
