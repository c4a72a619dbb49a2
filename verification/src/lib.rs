//! A point-to-point binary transfer protocol over a byte-stream transport.
//!
//! The protocol establishes a keyed session with a one-shot handshake,
//! splits an arbitrary byte payload into bounded-size framed packages,
//! streams them in order, and reports progress to the sender.

pub mod errors;
pub mod package;
pub mod shake;
pub mod utils;
