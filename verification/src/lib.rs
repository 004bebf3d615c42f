//! Client-side library for the nested, tagged binary protocol spoken by the
//! Zusi train-simulation host: an in-memory tree of nodes and attributes, a
//! bit-exact little-endian wire codec for the recursive length-prefixed
//! framing, depth-first path lookup, and the HELLO / NEEDED_DATA exchanges.

pub mod codec;
pub mod node;
pub mod protocol;
