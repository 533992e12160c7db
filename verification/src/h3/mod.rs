//! HTTP/3.

use vstd::prelude::*;

pub mod qpack;

verus! {

/// Errors of the HTTP/3 layer that header compression can raise.
#[derive(Clone, Copy, Debug, PartialEq, Eq, Structural)]
pub enum Http3Error {
    /// A header block cannot be decoded against the current dynamic table.
    QpackDecompressionFailed,
    /// An instruction of the peer's encoder stream cannot be carried out.
    QpackEncoderStreamError,
}

} // verus!
