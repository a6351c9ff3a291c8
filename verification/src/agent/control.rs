//! Talking to the scheduler.
use vstd::prelude::*;

use crate::proto::{Ev, Task};

verus! {

/// How often an agent tries to reach the scheduler before it gives up.
pub const CONNECT_ATTEMPTS: u32 = 30;

/// The task in an event; other events carry none.
pub fn task_from_event(ev: Option<Ev>) -> (task: Option<Task>)
    ensures
        match ev {
            Some(Ev::Task(t)) => task == Some(t),
            _ => task is None,
        },
{
    match ev {
        Some(Ev::Task(task)) => Some(task),
        Some(Ev::Cancel(_)) => None,
        None => None,
    }
}

} // verus!
