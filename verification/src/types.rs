//! The note record and the aggregate values the engine hands out.

use vstd::prelude::*;

verus! {

/// Where a note's content lives: a file the engine owns under its drafts
/// directory, or a file the user chose outside engine-owned directories.
#[derive(Debug, Clone, Copy, PartialEq, Eq, Structural)]
pub enum NoteStorage {
    Draft,
    Saved,
}

/// The storage tag a relational store persists for each mode.
pub fn storage_to_db(storage: NoteStorage) -> (r: String)
    ensures
        storage == NoteStorage::Draft ==> r@ == "draft"@,
        storage == NoteStorage::Saved ==> r@ == "saved"@,
{
    match storage {
        NoteStorage::Draft => String::from_str("draft"),
        NoteStorage::Saved => String::from_str("saved"),
    }
}

/// The storage mode a persisted tag stands for; anything unknown reads as a
/// draft.
pub fn storage_from_db(raw: &str) -> (r: NoteStorage)
    ensures
        r == (if raw@ == "saved"@ {
            NoteStorage::Saved
        } else {
            NoteStorage::Draft
        }),
{
    if crate::derive::str_eq(raw, "saved") {
        NoteStorage::Saved
    } else {
        NoteStorage::Draft
    }
}

/// The metadata row of one note.
#[derive(Debug)]
pub struct NoteMeta {
    pub id: String,
    pub title: String,
    pub preview: String,
    pub file_path: String,
    pub storage: NoteStorage,
    pub is_pinned: bool,
    pub is_trashed: bool,
    pub sort_order: i64,
    pub created_at: i64,
    pub last_interaction: i64,
    pub trashed_at: Option<i64>,
}

/// The mathematical value of a note's metadata.
pub ghost struct NoteModel {
    pub id: Seq<char>,
    pub title: Seq<char>,
    pub preview: Seq<char>,
    pub file_path: Seq<char>,
    pub storage: NoteStorage,
    pub is_pinned: bool,
    pub is_trashed: bool,
    pub sort_order: int,
    pub created_at: int,
    pub last_interaction: int,
    pub trashed_at: Option<int>,
}

impl View for NoteMeta {
    type V = NoteModel;

    open spec fn view(&self) -> NoteModel {
        NoteModel {
            id: self.id@,
            title: self.title@,
            preview: self.preview@,
            file_path: self.file_path@,
            storage: self.storage,
            is_pinned: self.is_pinned,
            is_trashed: self.is_trashed,
            sort_order: self.sort_order as int,
            created_at: self.created_at as int,
            last_interaction: self.last_interaction as int,
            trashed_at: match self.trashed_at {
                Some(t) => Some(t as int),
                None => None,
            },
        }
    }
}

impl Clone for NoteMeta {
    fn clone(&self) -> (r: Self)
        ensures
            r@ == self@,
    {
        NoteMeta {
            id: self.id.clone(),
            title: self.title.clone(),
            preview: self.preview.clone(),
            file_path: self.file_path.clone(),
            storage: self.storage,
            is_pinned: self.is_pinned,
            is_trashed: self.is_trashed,
            sort_order: self.sort_order,
            created_at: self.created_at,
            last_interaction: self.last_interaction,
            trashed_at: self.trashed_at,
        }
    }
}

/// All non-trashed notes in display order, and all trashed notes ordered by
/// trash time, newest first.
#[derive(Debug)]
pub struct NotesList {
    pub active: Vec<NoteMeta>,
    pub trashed: Vec<NoteMeta>,
}

/// A note's metadata together with its content.
#[derive(Debug)]
pub struct NoteWithContent {
    pub meta: NoteMeta,
    pub content: String,
}

/// The typed settings the engine persists.
#[derive(Debug)]
pub struct AppSettings {
    pub expiry_minutes: i64,
    pub trash_retention_days: i64,
    pub theme: String,
}

/// The directories the host provisioned for the engine before it opened.
#[derive(Debug)]
pub struct AppPaths {
    pub app_data_dir: String,
    pub drafts_dir: String,
    pub trash_dir: String,
    pub db_path: String,
}

impl Clone for AppPaths {
    fn clone(&self) -> (r: Self)
        ensures
            r.app_data_dir@ == self.app_data_dir@,
            r.drafts_dir@ == self.drafts_dir@,
            r.trash_dir@ == self.trash_dir@,
            r.db_path@ == self.db_path@,
    {
        AppPaths {
            app_data_dir: self.app_data_dir.clone(),
            drafts_dir: self.drafts_dir.clone(),
            trash_dir: self.trash_dir.clone(),
            db_path: self.db_path.clone(),
        }
    }
}

} // verus!
