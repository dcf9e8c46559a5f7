//! The session's error taxonomy.
//!
//! Everything here is fatal for the session except resolution failures,
//! which never become a `SessionError` at all: they are reported to the
//! client in an `Error` frame and the session continues.

use vstd::prelude::*;

verus! {

/// Why a session ended. The `String` payloads carry the underlying
/// error's description as the surrounding application rendered it.
#[derive(Debug)]
pub enum SessionError {
    /// No client message arrived within the 60-second read deadline.
    Timeout,
    /// Reading or decoding a client frame failed.
    Read(String),
    /// Writing a frame to the sink failed.
    Write(String),
    /// A region file could not be decoded.
    RegionDecode(String),
    /// A chunk column could not be decoded.
    ChunkColumnDecode(String),
    /// The filesystem watcher reported an error.
    Notify(String),
    /// The watcher reported an error batch that contained no error; its
    /// interface documents that this never happens, but it must not bring
    /// the server down if it does.
    NotifyEmptyErrorList,
    /// A change notification arrived for a path under the player-data
    /// directory that is not of the form `<uuid>.<ext>`.
    MalformedPlayerDataPath(Vec<u8>),
}

/// Folds a watcher error batch into one session error: the first error of
/// the batch, or the distinguished empty-batch case.
pub fn from_notify_errors(errors: Vec<String>) -> (r: SessionError)
    ensures
        errors@.len() == 0 ==> r is NotifyEmptyErrorList,
        errors@.len() > 0 ==> (r matches SessionError::Notify(s) && s@ == errors@[0]@),
{
    let mut errors = errors;
    if errors.len() == 0 {
        SessionError::NotifyEmptyErrorList
    } else {
        let first = errors.swap_remove(0);
        SessionError::Notify(first)
    }
}

} // verus!
