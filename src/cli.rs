//! The `split-tunnel` command of the command-line client.
use vstd::prelude::*;

verus! {

/// Manages split tunneling from the command line.
pub struct Split;

impl Split {
    /// Name of the command.
    pub fn name(&self) -> (r: &'static str)
        ensures
            r@ == "split-tunnel"@,
    {
        "split-tunnel"
    }
}

} // verus!
