//! The two switches that shape the traffic of a session.

use vstd::prelude::*;

verus! {

/// How a session disguises its traffic. Both switches are off by default.
#[derive(Clone, Copy, Debug, PartialEq, Eq, Structural)]
pub struct ObfsParams {
    /// Whether frames are padded up to a size class.
    pub obfs_lengths: bool,
    /// Whether writes are followed by a short pause.
    pub obfs_timing: bool,
}

impl Default for ObfsParams {
    fn default() -> (r: Self)
        ensures
            r == ObfsParams::plain(),
    {
        ObfsParams { obfs_lengths: false, obfs_timing: false }
    }
}

impl ObfsParams {
    /// The default: neither padding nor pauses.
    pub open spec fn plain() -> ObfsParams {
        ObfsParams { obfs_lengths: false, obfs_timing: false }
    }
}

} // verus!
