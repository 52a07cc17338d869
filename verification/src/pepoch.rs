//! Tagged persistent pointers and epoch-based reclamation.

pub mod atomic;
pub mod deferred;
pub mod epoch;
pub mod internal;
