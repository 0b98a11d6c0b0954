//! Logging levels for the diagnostics side channel.
//!
//! The walker itself never prints: soft conditions (duplicate visits, symlink
//! aliasing, cycles) simply cause the affected item to be omitted. A caller
//! that wants messages decides, from a [`LoggerLevel`] threshold, which of its
//! own diagnostics to emit.

use vstd::prelude::*;

verus! {

/// The severity levels of diagnostic messages, from the most severe
/// (`Failure`) to the least (`Debug`).
#[derive(Debug, Clone, Copy, PartialEq, Eq, Structural)]
pub enum LoggerLevel {
    Failure,
    Error,
    Info,
    Debug,
}

impl LoggerLevel {
    /// Position of the level in the severity order: `Failure` is 0 (most
    /// severe) and `Debug` is 3 (least severe).
    pub open spec fn rank_spec(self) -> int {
        match self {
            LoggerLevel::Failure => 0,
            LoggerLevel::Error => 1,
            LoggerLevel::Info => 2,
            LoggerLevel::Debug => 3,
        }
    }

    /// Rank of the level: 0 for `Failure` up to 3 for `Debug`.
    pub fn rank(self) -> (r: u8)
        ensures
            r as int == self.rank_spec(),
    {
        match self {
            LoggerLevel::Failure => 0,
            LoggerLevel::Error => 1,
            LoggerLevel::Info => 2,
            LoggerLevel::Debug => 3,
        }
    }

    /// True when a message of severity `msg` should be shown under threshold
    /// `self`: every level at or above the threshold's severity is shown.
    pub fn shows(self, msg: LoggerLevel) -> (r: bool)
        ensures
            r == (msg.rank_spec() <= self.rank_spec()),
    {
        msg.rank() <= self.rank()
    }
}

} // verus!
