//! Worker-count introspection, used by the solvers to partition their search
//! ranges into per-worker blocks.

use vstd::prelude::*;

verus! {

/// Relies on num_cpus::get: the number of logical CPUs of the current
/// system, documented to always be at least 1. The value depends on the
/// machine, so nothing more is stated of it.
#[verifier::external_body]
pub(crate) fn available_workers() -> (r: usize)
    ensures
        1 <= r,
{
    num_cpus::get()
}

} // verus!
