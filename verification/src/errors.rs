//! The error taxonomy of the protocol.

use vstd::prelude::*;

verus! {

/// A fatal condition that aborts the current operation.
///
/// The protocol never retries: any of these surfaces to the caller as a
/// terminating result, and the caller decides whether to reconnect and
/// restart the whole transfer from scratch.
#[derive(Clone, Copy, Debug, PartialEq, Eq, Structural)]
pub enum TransferError {
    /// The transport gave fewer bytes than a declared length demanded.
    ShortRead,
    /// A write to the transport did not complete.
    ShortWrite,
    /// The leading batch-size byte of a package stream is not one of the
    /// five valid codes.
    InvalidBatchCode,
    /// A public-key blob received during the handshake fails to parse as
    /// valid key material.
    InvalidKeyMaterial,
    /// A caller-selected package payload exceeds the active package-size
    /// limit; rejected before any bytes are produced.
    PayloadTooLarge,
}

} // verus!
