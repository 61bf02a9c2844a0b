//! How the `perf` program is asked for the events of this machine.

use crate::text::owned;
use vstd::prelude::*;

verus! {

/// Namespace for invocations of `perf`.
pub struct Perf {}

impl Perf {
    /// The program to run.
    pub fn program() -> (r: String)
        ensures
            r@ == "perf"@,
    {
        owned("perf")
    }

    /// The arguments that make it list all events in detail.
    pub fn list_arguments() -> (r: Vec<String>)
        ensures
            r@.map_values(|s: String| s@) == seq!["list"@, "--details"@],
    {
        let mut r: Vec<String> = Vec::new();
        r.push(owned("list"));
        r.push(owned("--details"));
        assert(r@.map_values(|s: String| s@) =~= seq!["list"@, "--details"@]);
        r
    }
}

} // verus!
