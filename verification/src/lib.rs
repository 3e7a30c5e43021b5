//! A cache-aside read path: limit normalisation, key derivation, a
//! time-stamped store with expiry, and the decisions of one read request.

pub mod handler;
pub mod key;
pub mod limit;
pub mod store;
