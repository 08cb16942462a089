//! The player: immutable state naming the session files of a recorded
//! session.
//!
//! An empty timing path is the sentinel for an asciicast session, which has
//! no companion timing file. Construction fails with `FileNotFound` when the
//! session file is missing, or when a non-empty timing path names a missing
//! file; an empty timing path is never checked. What to print and when is
//! planned by [`crate::timing::plan_legacy`] and
//! [`crate::asciicast::plan_asciicast`] from the files' contents; the caller
//! reads the files, paces the steps and prints the blocks.

use vstd::prelude::*;

use crate::errors::Error;

verus! {

/// A player for one recorded session.
#[derive(Debug)]
pub struct Player {
    pub timing_file: String,
    pub session_file: String,
}

/// Relies on `std::path::Path::exists`, to check a file's presence. What it
/// returns depends on the state of the filesystem at the moment of the
/// call, so nothing is promised of it.
#[verifier::external_body]
fn path_exists(path: &str) -> bool {
    std::path::Path::new(path).exists()
}

impl Player {
    /// Construct a player from what the filesystem shows: the session file
    /// must be present, and so must the timing file when its path is
    /// non-empty. The error names the missing file.
    pub fn from_presence(
        timing_file: &str,
        session_file: &str,
        session_present: bool,
        timing_present: bool,
    ) -> (r: Result<Player, Error>)
        ensures
            (r is Ok) <==> (session_present && (timing_file@.len() == 0 || timing_present)),
            r is Ok ==> r->Ok_0.timing_file@ == timing_file@ && r->Ok_0.session_file@
                == session_file@,
            !session_present ==> (r matches Err(Error::FileNotFound { path }) && path@
                == session_file@),
            session_present && timing_file@.len() > 0 && !timing_present ==> (r matches Err(
                Error::FileNotFound { path },
            ) && path@ == timing_file@),
    {
        if !session_present {
            return Err(Error::FileNotFound { path: session_file.to_owned() });
        }
        if !timing_file.is_empty() && !timing_present {
            return Err(Error::FileNotFound { path: timing_file.to_owned() });
        }
        Ok(Player { timing_file: timing_file.to_owned(), session_file: session_file.to_owned() })
    }

    /// Construct a player for the given files, checking their presence. The
    /// checks read the filesystem, so only the shape of the outcome is
    /// promised: on success the player holds exactly the given paths, and
    /// any failure is `FileNotFound` naming one of them.
    pub fn new(timing_file: &str, session_file: &str) -> (r: Result<Player, Error>)
        ensures
            r is Ok ==> r->Ok_0.timing_file@ == timing_file@ && r->Ok_0.session_file@
                == session_file@,
            r matches Err(e) ==> (e matches Error::FileNotFound { path } && (path@ == session_file@
                || (path@ == timing_file@ && timing_file@.len() > 0))),
    {
        let session_present = path_exists(session_file);
        let timing_present = if timing_file.is_empty() {
            false
        } else {
            path_exists(timing_file)
        };
        Player::from_presence(timing_file, session_file, session_present, timing_present)
    }
}

} // verus!
