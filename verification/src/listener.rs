//! Listener startup decisions.
//!
//! The daemon binds its channel at a configured filesystem path. A stale
//! socket artifact left at that path from an earlier run is removed before
//! binding — but a non-empty regular file found there is user data, and
//! startup refuses to touch it, before any socket operation is attempted.

use vstd::prelude::*;

verus! {

/// What to do about the channel path before binding.
#[derive(Debug, Clone, Copy, PartialEq, Eq, Structural)]
pub enum PathAction {
    /// Nothing is at the path: bind directly.
    Bind,
    /// A stale artifact is at the path: remove it, then bind.
    RemoveThenBind,
    /// A non-empty regular file is at the path: startup fails without
    /// touching it.
    Refuse,
}

/// Decides how startup treats the channel path, from what the filesystem
/// shows there: whether something exists, whether it is a regular file, and
/// that file's length.
pub fn startup_path_action(path_exists: bool, is_regular_file: bool, file_len: u64) -> (r:
    PathAction)
    ensures
        r is Refuse <==> path_exists && is_regular_file && file_len > 0,
        r is Bind <==> !path_exists,
        r is RemoveThenBind <==> path_exists && !(is_regular_file && file_len > 0),
{
    if !path_exists {
        PathAction::Bind
    } else if is_regular_file && file_len > 0 {
        PathAction::Refuse
    } else {
        PathAction::RemoveThenBind
    }
}

} // verus!
