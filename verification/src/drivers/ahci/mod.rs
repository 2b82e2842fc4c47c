//! Disks behind an AHCI controller.

pub mod disk;
