//! Operation codes of the Linux AIO interface.

use vstd::prelude::*;

verus! {

/// Read from a file into a buffer.
pub const PREAD: u16 = 0;

/// Write a buffer to a file.
pub const PWRITE: u16 = 1;

} // verus!
