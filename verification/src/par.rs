//! Sizing of the band decomposition from the worker pool.

use vstd::prelude::*;

verus! {

/// Relies on `rayon::current_num_threads` for the size of the worker pool.
/// Nothing is assumed of the value; callers clamp it themselves.
#[verifier::external_body]
pub fn current_num_threads() -> usize {
    rayon::current_num_threads()
}

} // verus!
