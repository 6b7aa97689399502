use vstd::prelude::*;

verus! {

/// The closed set of caller-facing failure kinds. Every backend failure is
/// wrapped into one of these at the call boundary; no backend error type is
/// ever returned raw.
#[derive(Debug, Clone)]
pub enum Error {
    /// The path is not representable in the encoding the active backend
    /// requires; raised before any backend call is issued.
    InvalidPath,
    /// The object or prefix is absent.
    NotFound,
    /// Wraps an underlying transport, authentication or service failure,
    /// carrying its message; never matched further by this layer.
    BackendError(String),
    /// Content-to-text conversion failed because the bytes are not valid
    /// UTF-8.
    DecodeError,
    /// The backend does not and will not support the requested operation.
    UnsupportedOperation,
}

} // verus!
