//! Typed failures reported by the lifecycle operations.

use vstd::prelude::*;

verus! {

/// Every error a lifecycle operation can report.
#[derive(Clone, Copy, Debug, PartialEq, Eq, Structural)]
pub enum NoteError {
    /// No note carries the given id.
    NotFound,
    /// The operation only applies to drafts.
    NotADraft,
    /// The operation only applies to saved notes.
    NotSaved,
    /// Five notes are already pinned.
    PinLimitExceeded,
    /// Scoped file resolution failed outright.
    AccessDenied,
    /// Scoped file resolution reported a relocated file.
    StaleAccess,
    /// A read, write or move against a content file failed.
    IoFailure,
    /// The metadata store refused the update.
    StoreUnavailable,
    /// The path has no file-name component.
    InvalidPath,
}

/// The message shown to a caller for each failure.
pub open spec fn spec_message(e: NoteError) -> Seq<char> {
    match e {
        NoteError::NotFound => "Note not found"@,
        NoteError::NotADraft => "Only drafts can be auto-saved."@,
        NoteError::NotSaved => "Only saved notes can be saved with Cmd+S."@,
        NoteError::PinLimitExceeded => "You can only pin up to 5 notes."@,
        NoteError::AccessDenied => "File access was denied"@,
        NoteError::StaleAccess => "File access is stale"@,
        NoteError::IoFailure => "File operation failed"@,
        NoteError::StoreUnavailable => "The note store is unavailable"@,
        NoteError::InvalidPath => "Invalid file path"@,
    }
}

impl NoteError {
    /// A human-readable description of the failure.
    pub fn message(&self) -> (r: String)
        ensures
            r@ == spec_message(*self),
    {
        match self {
            NoteError::NotFound => String::from_str("Note not found"),
            NoteError::NotADraft => String::from_str("Only drafts can be auto-saved."),
            NoteError::NotSaved => String::from_str("Only saved notes can be saved with Cmd+S."),
            NoteError::PinLimitExceeded => String::from_str("You can only pin up to 5 notes."),
            NoteError::AccessDenied => String::from_str("File access was denied"),
            NoteError::StaleAccess => String::from_str("File access is stale"),
            NoteError::IoFailure => String::from_str("File operation failed"),
            NoteError::StoreUnavailable => String::from_str("The note store is unavailable"),
            NoteError::InvalidPath => String::from_str("Invalid file path"),
        }
    }
}

} // verus!
