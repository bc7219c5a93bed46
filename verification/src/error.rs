//! The failures that the pipeline reports.

use vstd::prelude::*;

verus! {

/// Why a request did not complete: the backend refused to build it, or the
/// backend failed to send it. Each carries the backend's own cause.
#[derive(Debug, Clone, Copy, PartialEq, Eq, PartialOrd, Ord, Hash)]
pub enum NsError<B, S> {
    /// The backend rejected the assembled request; nothing was sent.
    BuildError(B),
    /// The request was built, and sending it failed.
    SendError(S),
}

/// Why no client handle could be made. This is a fault of the deployment,
/// found before anything touches the throttle or the network.
#[derive(Debug, Clone, Copy, PartialEq, Eq, Structural)]
pub enum ConfigurationError {
    /// No identification value: none was configured and the environment
    /// holds none.
    MissingUserAgent,
}

} // verus!
