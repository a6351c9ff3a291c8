//! Command lines with the single option `--config <path>`.
use vstd::prelude::*;

use crate::common::text;

verus! {

/// The path after `--config`, where the command line is exactly that.
pub fn config_path(args: &Vec<String>) -> (path: Option<String>)
    ensures
        match path {
            Some(p) => args@.len() == 3 && args@[1]@ == "--config"@ && p@ == args@[2]@,
            None => args@.len() != 3 || args@[1]@ != "--config"@,
        },
{
    if args.len() != 3 || !text::same_text(args[1].as_str(), "--config") {
        return None;
    }
    Some(args[2].clone())
}

} // verus!
