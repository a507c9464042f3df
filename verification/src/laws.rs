//! What the library does, said of single characters, bytes and positions.
//!
//! The contracts say what each function returns by spec functions that are
//! built on one another. The laws here say what those come to in terms of the
//! values themselves: which byte stands where in a datagram, which characters a
//! line is made of, what a text in a target becomes in a reply.

pub mod error;
pub mod lines;
pub mod loopback;
pub mod message;
pub mod number;
pub mod option;
pub mod text;
pub mod transport;
pub mod wire;
