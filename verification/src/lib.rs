//! A verified client core for a remote key-value database reached over HTTP.
//!
//! The crate holds the pieces of such a client that are pure computation:
//! the percent-encoding codec for keys and values, the construction of the
//! five wire requests, the interpretation of their responses, and the two
//! composite operations that sequence primitive exchanges.  An in-memory
//! store speaking the same wire protocol lets the whole exchange be verified
//! end to end; the network transport itself lives outside the library.

pub mod client;
pub mod codec;
pub mod laws;
pub mod protocol;
pub mod store;
