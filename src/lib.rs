//! Date-range subscription index and the stream framing around it.
//!
//! `tree` holds the adaptive interval index that maps a date to the customers
//! whose range covers it, `frame` splits an inbound byte stream into
//! length-prefixed payloads, `route` turns decoded events into the ids sent
//! downstream, and `generate` builds deterministic test customers.

pub mod frame;
pub mod generate;
pub mod route;
pub mod tree;
