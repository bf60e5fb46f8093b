use vstd::prelude::*;

verus! {

/// Errors reported by the block-state storage engine.
///
/// Merkle store blobs are carried opaque and handed back as stored, so no
/// tree-decoding failure arises here; and the rollback batch is built
/// serially before it is applied, so there is no aggregate of failed
/// parallel tasks to report.
#[derive(Debug, Clone)]
pub enum Error {
    /// The underlying store failed or holds no usable state.
    Io(String),
    /// A typed value could not be decoded.
    Coding(String),
    /// A caller-supplied key is malformed or collides with a reserved segment.
    InvalidKey(String),
    /// A metadata key required for rollback was absent.
    UnknownKey(String),
    /// The rollback target is neither the last height nor the one before it.
    UnsupportedRollbackDistance,
    /// An overwrite was requested at a height other than the last committed one.
    UnsupportedHeight,
}

impl Error {
    /// A human-readable description of the error.
    pub fn message(&self) -> (m: String)
    {
        match self {
            Error::Io(s) => s.clone(),
            Error::Coding(s) => s.clone(),
            Error::InvalidKey(s) => s.clone(),
            Error::UnknownKey(s) => s.clone(),
            Error::UnsupportedRollbackDistance => {
                "rollback is supported only to the previous height".to_owned()
            },
            Error::UnsupportedHeight => {
                "only values at the last committed height can be overwritten".to_owned()
            },
        }
    }
}

} // verus!
