//! A time-sharded approximate-membership index.
//!
//! Keys are routed to calendar-month partitions by their expiry date; each
//! partition holds a quotient filter. The whole structure can be serialized
//! into a single binary snapshot and rebuilt from it.

pub mod date;
pub mod distributed_filter;
pub mod endpoint;
pub mod errors;
pub mod membership;
pub mod naming;
pub mod persistence;
pub mod snapshot;
