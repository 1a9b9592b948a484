//! Order-preserving parallel map.
//!
//! A sequence of items is mapped through a function either on the calling
//! thread or by a pool of workers, and the results come back in input order.
//! This crate holds the rules of that scheme: when the work stays sequential,
//! how many workers a pool gets, which worker receives which item, and how
//! results that arrive in any order are put back in place.

pub mod affinity;
pub mod bignat;
pub mod collector;
pub mod dispatch;
pub mod fibonacci;
pub mod gate;
pub mod mapping;
pub mod pool;
pub mod rayon_backend;
pub mod worker;
