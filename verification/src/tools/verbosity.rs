//! How much a tool says about what it does.

use vstd::prelude::*;

verus! {

/// Verbose output level.
#[derive(Debug, Clone, Copy, PartialEq, Eq, Structural)]
pub enum Verbosity {
    /// Most verbose, all internal details
    Trace,
    /// Debug information
    Debug,
    /// Informational messages
    Info,
    /// Warnings only
    Warn,
    /// Errors only
    Error,
}

impl Verbosity {
    /// The rank of the level: the more verbose, the greater.
    pub open spec fn rank(self) -> nat {
        match self {
            Verbosity::Error => 0,
            Verbosity::Warn => 1,
            Verbosity::Info => 2,
            Verbosity::Debug => 3,
            Verbosity::Trace => 4,
        }
    }

    /// Whether log lines name the module that they come from: on the levels that
    /// are more verbose than informational messages.
    pub fn shows_target(&self) -> (r: bool)
        ensures
            r == (self.rank() > Verbosity::Info.rank()),
    {
        matches!(self, Verbosity::Trace | Verbosity::Debug)
    }
}

} // verus!
