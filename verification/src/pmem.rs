//! The persistent-memory pool and its pointers.

pub mod header;
pub mod ll;
pub mod pool;
pub mod ptr;
