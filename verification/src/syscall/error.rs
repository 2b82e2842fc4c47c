//! Error numbers.

use vstd::prelude::*;

verus! {

/// Insufficient permissions.
pub const EPERM: u32 = 1;

/// Input or output failed.
pub const EIO: u32 = 2;

/// Out of memory.
pub const ENOMEM: u32 = 3;

/// An error, told by its number.
#[derive(Debug, Clone, Copy, PartialEq, Eq, Structural)]
pub struct Error {
    pub errno: u32,
}

impl Error {
    pub fn new(errno: u32) -> (error: Error)
        ensures
            error.errno == errno,
    {
        Error { errno }
    }
}

} // verus!
