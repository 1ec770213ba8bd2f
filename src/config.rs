use vstd::prelude::*;

verus! {

/// Where the frontend lives and which port the server listens on.
pub struct Config {
    /// The frontend directory; its `dist/` subdirectory holds the built assets.
    pub frontend: String,
    pub port: u16,
}

/// The argument of the entry-point annotation: the session-signing secret.
pub struct BaryAppAttr {
    pub secret_key: String,
}

} // verus!
