//! Building blocks of persistent data structures.

pub mod comb;
pub mod combining_lock;
pub mod ticket_lock;
