//! Settings of the linear-algebra back end.

use vstd::prelude::*;

verus! {

/// Sets the number of threads for LAPACK operations. No LAPACK back end is
/// linked, so the setting has no effect.
pub fn set_lapack_threads(threads: usize) {
    let _threads = threads;
}

} // verus!
