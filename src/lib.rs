//! A Linda-style tuple space spread over a ring of nodes.
//!
//! - [`tuple`]: values, requests, tuples and the rule by which a pattern
//!   accepts a tuple. Floats are held as their IEEE-754 binary64 bit pattern
//!   and compared as IEEE-754 numbers, a NaN comparing with nothing.
//! - [`codec`] and [`message`]: the wire form of values, requests, tuples,
//!   node addresses and ring messages, decoded without ambiguity, and the
//!   length-prefixed frame around a message.
//! - [`node`]: a node's store of tuples, its non-blocking and blocking
//!   operations, and the rules by which its worker handles ring traffic.
//! - [`bootstrap`]: what the bootstrap server reads from a joining node and
//!   how it closes the ring.
//! - [`parser`]: the text form of tuples, patterns and commands.
//! - [`utils`]: little-endian integers and the command type.

pub mod bootstrap;
pub mod codec;
pub mod message;
pub mod node;
pub mod parser;
pub mod tuple;
pub mod utils;
