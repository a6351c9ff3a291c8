//! BlazeNet: the decision logic of a game distribution network.
//!
//! A producer cuts a game into chunks and publishes version manifests, an
//! origin stores the chunks, a scheduler hands out tasks, and agents fetch
//! what they lack from each other. The modules follow these roles; what they
//! share is in `common`.
use vstd::prelude::*;

pub mod agent;
pub mod bench;
pub mod common;
pub mod origin;
pub mod poc;
pub mod producer;
pub mod proto;
pub mod relay;
pub mod scheduler;

verus! {

} // verus!
