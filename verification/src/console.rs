//! A wrapper around the serial console.  The actual byte output is
//! memory-mapped I/O performed by the platform, outside this crate.

use vstd::prelude::*;

verus! {

/// The kernel console.
pub struct Console;

} // verus!
