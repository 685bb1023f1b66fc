//! A bidirectional codec for physical query-plan trees.
//!
//! A query coordinator holds an in-memory, executable plan tree and ships it
//! to a remote execution node as a wire message; the remote node rebuilds an
//! equivalent plan from the message. This crate provides the two directions
//! of that exchange — encoding an execution plan into a tagged wire tree and
//! decoding a wire tree back into an execution plan — together with the
//! expression sub-codec used by plan nodes that carry expressions, and a
//! byte envelope that carries a wire tree as a flat byte buffer.
//!
//! Both directions are exact inverses on supported trees, expression order
//! and output-name order are kept positionally, and every malformed or
//! unsupported input is rejected with a dedicated error; these properties
//! are stated as contracts and proved.

pub mod envelope;
pub mod error;
pub mod expr;
pub mod schema;
pub mod plan;
pub mod wire;

