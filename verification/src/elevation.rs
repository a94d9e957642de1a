//! The outcome of asking the system to restart this program with administrator rights.
use vstd::prelude::*;

verus! {

/// How a request to restart with administrator rights ended.
#[derive(Clone, Copy, Debug, PartialEq, Eq, Structural)]
pub enum RestartOutcome {
    /// The elevated copy was started.
    Launched,
    /// The user declined the consent prompt (or the system offers none).
    Cancelled,
}

} // verus!
