//! The arithmetic of the kernel's first drivers.

pub mod ahci;
pub mod pci;
