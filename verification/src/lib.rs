//! Virtual memory for a 64-bit kernel: physical frame accounting and a
//! four-level page-table manager, stated over an explicit model of the
//! machine's table memory and proved against it; and, around it, the
//! arithmetic of the kernel's first drivers.

pub mod drivers;
pub mod memory;
pub mod syscall;
