//! Detectable operations on persistent locations.

pub mod checkpoint;
pub mod detectable_cas;
pub mod handle;
pub mod pmwcas;
