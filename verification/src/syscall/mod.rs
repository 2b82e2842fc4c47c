//! What the kernel offers to its drivers.

pub mod error;
pub mod io;
