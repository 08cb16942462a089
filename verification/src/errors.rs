//! The failure taxonomy shared by recording and replay.

use vstd::prelude::*;

verus! {

/// Typed failures surfaced by the recording and replay operations.
///
/// `FileNotFound` arises only when a `Player` is constructed against a
/// missing file; `InvalidTimingData` marks a malformed numeric field in a
/// structurally valid legacy timing line; `InvalidEventData` marks an
/// asciicast line that does not parse as JSON. `CommandFailed` reports a
/// recorded command that exited unsuccessfully even though the recording
/// written so far is kept.
#[derive(Debug)]
pub enum Error {
    ProcessSpawnError,
    CommandFailed { exit_code: Option<i32> },
    IoError,
    FileNotFound { path: String },
    InvalidTimingData,
    InvalidEventData,
}

impl Error {
    /// A short human-readable description, for front ends that print failures.
    pub fn describe(&self) -> (r: &'static str)
        ensures
            r@.len() > 0,
    {
        proof {
            reveal_strlit("failed to start command");
            reveal_strlit("command failed");
            reveal_strlit("input or output error");
            reveal_strlit("file not found");
            reveal_strlit("invalid timing data");
            reveal_strlit("invalid event data");
        }
        match self {
            Error::ProcessSpawnError => "failed to start command",
            Error::CommandFailed { .. } => "command failed",
            Error::IoError => "input or output error",
            Error::FileNotFound { .. } => "file not found",
            Error::InvalidTimingData => "invalid timing data",
            Error::InvalidEventData => "invalid event data",
        }
    }
}

} // verus!
