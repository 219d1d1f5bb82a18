//! Scoped file access: the decisions of the capability layer.
//!
//! On a sandboxed platform a read or write against a user-chosen path may
//! need a security-scoped token resolved into a live handle first, and the
//! platform may report the token stale or the file relocated. The decisions —
//! when a token refresh is wanted, and when a failed refresh must fail the
//! whole access — live here; the platform calls themselves stay with the
//! host, which is the only party that can make them. On a platform without
//! sandbox capability grants the whole contract collapses to running the
//! operation directly, which `with_scoped_file` does.

use vstd::prelude::*;

verus! {

/// What one scoped file access hands back: the operation's value, a
/// refreshed access token when one was produced, and the resolved path when
/// the platform reports the file somewhere other than the stored path.
#[derive(Debug)]
pub struct ScopedOutcome<T> {
    pub value: T,
    pub refreshed_bookmark: Option<Vec<u8>>,
    pub resolved_path: Option<String>,
}

/// Whether a token refresh is wanted after resolution: there was no token to
/// begin with, resolution reported the token stale, or the file moved.
pub fn wants_bookmark_refresh(had_bookmark: bool, is_stale: bool, path_changed: bool) -> (r: bool)
    ensures
        r == (!had_bookmark || is_stale || path_changed),
{
    !had_bookmark || is_stale || path_changed
}

/// Whether a failed token refresh must fail the whole access: a first-time
/// grant must succeed, and a failure while the handle was actively held is
/// fatal; any other refresh failure degrades gracefully, keeping the old
/// token.
pub fn refresh_failure_fatal(had_bookmark: bool, started: bool) -> (r: bool)
    ensures
        r == (!had_bookmark || started),
{
    !had_bookmark || started
}

/// Runs `op` against the path directly: the scoped-access contract on a
/// platform without sandbox capability grants, where no token is ever
/// produced and the path never resolves elsewhere.
pub fn with_scoped_file<T, F: FnOnce(&str) -> Result<T, String>>(
    path: &str,
    bookmark: Option<&Vec<u8>>,
    op: F,
) -> (r: Result<ScopedOutcome<T>, String>)
    requires
        op.requires((path,)),
    ensures
        match r {
            Ok(o) => op.ensures((path,), Ok(o.value)) && o.refreshed_bookmark is None
                && o.resolved_path is None,
            Err(e) => op.ensures((path,), Err(e)),
        },
{
    match op(path) {
        Ok(value) => Ok(ScopedOutcome { value, refreshed_bookmark: None, resolved_path: None }),
        Err(e) => Err(e),
    }
}

} // verus!
