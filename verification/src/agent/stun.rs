//! Reading the answer of an address echo service.
use vstd::prelude::*;

use crate::common::words;

verus! {

/// The address in an answer: its third word; `None` where there are fewer.
pub fn echo_address(answer: &str) -> (addr: Option<String>)
    ensures
        match addr {
            Some(a) => words::words(answer@).len() >= 3 && a@ == words::words(answer@)[2],
            None => words::words(answer@).len() < 3,
        },
{
    let mut list = words::split_words(answer);
    if list.len() < 3 {
        return None;
    }
    assert(list@[2]@ == words::words(answer@)[2]);
    Some(list.swap_remove(2))
}

} // verus!
