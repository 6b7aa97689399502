use vstd::prelude::*;

verus! {

/// The binary public/private access-policy abstraction over backend ACL
/// models. Backends with richer ACLs project onto these two states.
#[derive(Debug, Clone, Copy, PartialEq, Eq, Structural)]
pub enum Visibility {
    Public,
    Private,
}

/// An immutable, backend-specific connection descriptor: one bucket or root,
/// one endpoint, one credential pair. One `Config` produces one adapter, and
/// the binding never changes after construction.
#[derive(Debug, Clone)]
pub struct Config {
    pub bucket: String,
    pub endpoint: String,
    pub access_key: String,
    pub secret_key: String,
}

impl Config {
    /// All four fields are required: a well-formed configuration has no empty
    /// field.
    pub open spec fn wf(&self) -> bool {
        &&& self.bucket@.len() > 0
        &&& self.endpoint@.len() > 0
        &&& self.access_key@.len() > 0
        &&& self.secret_key@.len() > 0
    }

    /// Construction-time validation: accepts the configuration exactly when
    /// every field is present.
    pub fn validate(&self) -> (ok: bool)
        ensures
            ok == self.wf(),
    {
        !self.bucket.as_str().is_empty() && !self.endpoint.as_str().is_empty()
            && !self.access_key.as_str().is_empty() && !self.secret_key.as_str().is_empty()
    }
}

} // verus!
