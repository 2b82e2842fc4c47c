//! Memory that devices read and write.

pub mod dma;
