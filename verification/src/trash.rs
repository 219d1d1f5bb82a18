//! Trashing, restoring and permanently deleting notes.
//!
//! A draft's content file physically moves between the drafts and trash
//! directories; the move happens before the metadata changes, so a failed
//! move leaves the metadata untouched. Saved notes keep their external file;
//! only their flags change.

use vstd::prelude::*;

use crate::derive::{chars_of, string_from_chars};
use crate::error::NoteError;
use crate::lifecycle::{join_path, spec_join};
use crate::store::{
    NoteStore, RowModel, StoreModel, find_note, kv_get, kv_remove, kv_set, rows_view,
};
use crate::types::{NoteMeta, NoteModel, NoteStorage};

verus! {

/// The portion of a path after its last separator; empty when the path has
/// no file-name component.
pub open spec fn spec_file_name(p: Seq<char>) -> Seq<char>
    decreases p.len(),
{
    if p.len() == 0 {
        p
    } else if p.last() == '/' {
        Seq::<char>::empty()
    } else {
        spec_file_name(p.drop_last()) + seq![p.last()]
    }
}

pub proof fn lemma_file_name_skip(p: Seq<char>, b: int)
    requires
        0 <= b <= p.len(),
        forall|j: int| b <= j < p.len() ==> p[j] != '/',
        b == 0 || p[b - 1] == '/',
    ensures
        spec_file_name(p) == p.skip(b),
    decreases p.len() - b,
{
    if b == p.len() {
        assert(p.skip(b) =~= Seq::<char>::empty());
        if p.len() > 0 {
            assert(p.last() == p[b - 1]);
        } else {
            assert(p.skip(b) =~= p);
        }
    } else {
        assert(p.last() == p[p.len() - 1]);
        assert(p.last() != '/');
        let d = p.drop_last();
        lemma_file_name_skip(d, b);
        assert(d.skip(b) + seq![p.last()] =~= p.skip(b));
    }
}

/// The file name of `p`: everything after the last separator.
pub fn file_name_of(p: &str) -> (r: String)
    ensures
        r@ == spec_file_name(p@),
{
    let v = chars_of(p);
    let n = v.len();
    let mut b: usize = n;
    while b > 0 && v[b - 1] != '/'
        invariant
            b <= n,
            n == v@.len(),
            forall|j: int| b <= j < n ==> v@[j] != '/',
        decreases b,
    {
        b = b - 1;
    }
    proof {
        lemma_file_name_skip(v@, b as int);
        assert(v@.skip(b as int) =~= v@.subrange(b as int, n as int));
    }
    let name = crate::derive::sub_chars(&v, b, n);
    string_from_chars(&name)
}

/// What trashing does: the note is flagged trashed and unpinned with the
/// trash time recorded, and a draft's content file moves into the trash
/// directory; a move that cannot happen aborts with the store unchanged.
pub open spec fn spec_trash(m: StoreModel, id: Seq<char>, now: int) -> (StoreModel, Result<
    NoteModel,
    NoteError,
>) {
    let i = find_note(m.rows, id);
    if i == -1 {
        (m, Err(NoteError::NotFound))
    } else {
        let row0 = m.rows[i];
        if row0.note.is_trashed {
            (m, Ok(row0.note))
        } else if row0.note.storage == NoteStorage::Draft {
            let name = spec_file_name(row0.note.file_path);
            if name.len() == 0 {
                (m, Err(NoteError::InvalidPath))
            } else if !m.contents.contains_key(row0.note.file_path) {
                (m, Err(NoteError::IoFailure))
            } else {
                let target = spec_join(m.trash_dir, name);
                let note1 = NoteModel {
                    file_path: target,
                    is_trashed: true,
                    is_pinned: false,
                    trashed_at: Some(now),
                    ..row0.note
                };
                (
                    StoreModel {
                        rows: m.rows.update(i, RowModel { note: note1, ..row0 }),
                        contents: m.contents.remove(row0.note.file_path).insert(
                            target,
                            m.contents[row0.note.file_path],
                        ),
                        ..m
                    },
                    Ok(note1),
                )
            }
        } else {
            let note1 = NoteModel {
                is_trashed: true,
                is_pinned: false,
                trashed_at: Some(now),
                ..row0.note
            };
            (
                StoreModel { rows: m.rows.update(i, RowModel { note: note1, ..row0 }), ..m },
                Ok(note1),
            )
        }
    }
}

/// What restoring does: the flags and trash time clear, and a draft's content
/// file moves back into the drafts directory.
pub open spec fn spec_restore(m: StoreModel, id: Seq<char>) -> (StoreModel, Result<
    NoteModel,
    NoteError,
>) {
    let i = find_note(m.rows, id);
    if i == -1 {
        (m, Err(NoteError::NotFound))
    } else {
        let row0 = m.rows[i];
        if !row0.note.is_trashed {
            (m, Ok(row0.note))
        } else if row0.note.storage == NoteStorage::Draft {
            let name = spec_file_name(row0.note.file_path);
            if name.len() == 0 {
                (m, Err(NoteError::InvalidPath))
            } else if !m.contents.contains_key(row0.note.file_path) {
                (m, Err(NoteError::IoFailure))
            } else {
                let target = spec_join(m.drafts_dir, name);
                let note1 = NoteModel {
                    file_path: target,
                    is_trashed: false,
                    trashed_at: None,
                    ..row0.note
                };
                (
                    StoreModel {
                        rows: m.rows.update(i, RowModel { note: note1, ..row0 }),
                        contents: m.contents.remove(row0.note.file_path).insert(
                            target,
                            m.contents[row0.note.file_path],
                        ),
                        ..m
                    },
                    Ok(note1),
                )
            }
        } else {
            let note1 = NoteModel { is_trashed: false, trashed_at: None, ..row0.note };
            (
                StoreModel { rows: m.rows.update(i, RowModel { note: note1, ..row0 }), ..m },
                Ok(note1),
            )
        }
    }
}

/// What permanent deletion does: the row goes away, and a draft's content
/// file is dropped best-effort.
pub open spec fn spec_delete(m: StoreModel, id: Seq<char>) -> (StoreModel, Result<
    (),
    NoteError,
>) {
    let i = find_note(m.rows, id);
    if i == -1 {
        (m, Err(NoteError::NotFound))
    } else {
        let row0 = m.rows[i];
        (
            StoreModel {
                rows: m.rows.remove(i),
                contents: if row0.note.storage == NoteStorage::Draft {
                    m.contents.remove(row0.note.file_path)
                } else {
                    m.contents
                },
                ..m
            },
            Ok(()),
        )
    }
}

impl NoteStore {
    /// Moves the note to the trash: a draft's content file first moves into
    /// the trash directory, then the flags and trash time are set; a note
    /// already in the trash is returned unchanged.
    pub fn trash(&mut self, id: &str, now: i64) -> (r: Result<NoteMeta, NoteError>)
        requires
            old(self).wf(),
        ensures
            final(self).wf(),
            final(self)@ == spec_trash(old(self)@, id@, now as int).0,
            match r {
                Ok(m) => spec_trash(old(self)@, id@, now as int).1 == Ok::<NoteModel, NoteError>(
                    m@,
                ),
                Err(e) => spec_trash(old(self)@, id@, now as int).1 == Err::<NoteModel, NoteError>(
                    e,
                ),
            },
    {
        let ghost m0 = self@;
        match self.find_note_idx(id) {
            None => Err(NoteError::NotFound),
            Some(i) => {
                let ghost row0 = m0.rows[i as int];
                if self.notes[i].meta.is_trashed {
                    return Ok(self.notes[i].meta.clone());
                }
                if self.notes[i].meta.storage == NoteStorage::Draft {
                    let fp = self.notes[i].meta.file_path.clone();
                    let name = file_name_of(fp.as_str());
                    if name.as_str().unicode_len() == 0 {
                        return Err(NoteError::InvalidPath);
                    }
                    let content = match kv_get(&self.contents, fp.as_str()) {
                        Some(c) => c,
                        None => {
                            return Err(NoteError::IoFailure);
                        },
                    };
                    let target = join_path(self.paths.trash_dir.as_str(), name.as_str());
                    kv_remove(&mut self.contents, fp.as_str());
                    kv_set(&mut self.contents, target.clone(), content);
                    self.notes[i].meta.file_path = target;
                    self.notes[i].meta.is_trashed = true;
                    self.notes[i].meta.is_pinned = false;
                    self.notes[i].meta.trashed_at = Some(now);
                    let meta = self.notes[i].meta.clone();
                    proof {
                        let target_row = self.notes@[i as int]@;
                        assert(rows_view(self.notes@) =~= m0.rows.update(i as int, target_row));
                        assert(meta@ =~= spec_trash(m0, id@, now as int).1.unwrap());
                        assert(self@ =~= spec_trash(m0, id@, now as int).0);
                    }
                    Ok(meta)
                } else {
                    self.notes[i].meta.is_trashed = true;
                    self.notes[i].meta.is_pinned = false;
                    self.notes[i].meta.trashed_at = Some(now);
                    let meta = self.notes[i].meta.clone();
                    proof {
                        let target_row = self.notes@[i as int]@;
                        assert(rows_view(self.notes@) =~= m0.rows.update(i as int, target_row));
                        assert(meta@ =~= spec_trash(m0, id@, now as int).1.unwrap());
                        assert(self@ =~= spec_trash(m0, id@, now as int).0);
                    }
                    Ok(meta)
                }
            },
        }
    }

    /// Brings a trashed note back: a draft's content file first moves back
    /// into the drafts directory, then the trash flag and time clear; a note
    /// not in the trash is returned unchanged.
    pub fn restore(&mut self, id: &str) -> (r: Result<NoteMeta, NoteError>)
        requires
            old(self).wf(),
        ensures
            final(self).wf(),
            final(self)@ == spec_restore(old(self)@, id@).0,
            match r {
                Ok(m) => spec_restore(old(self)@, id@).1 == Ok::<NoteModel, NoteError>(m@),
                Err(e) => spec_restore(old(self)@, id@).1 == Err::<NoteModel, NoteError>(e),
            },
    {
        let ghost m0 = self@;
        match self.find_note_idx(id) {
            None => Err(NoteError::NotFound),
            Some(i) => {
                let ghost row0 = m0.rows[i as int];
                if !self.notes[i].meta.is_trashed {
                    return Ok(self.notes[i].meta.clone());
                }
                if self.notes[i].meta.storage == NoteStorage::Draft {
                    let fp = self.notes[i].meta.file_path.clone();
                    let name = file_name_of(fp.as_str());
                    if name.as_str().unicode_len() == 0 {
                        return Err(NoteError::InvalidPath);
                    }
                    let content = match kv_get(&self.contents, fp.as_str()) {
                        Some(c) => c,
                        None => {
                            return Err(NoteError::IoFailure);
                        },
                    };
                    let target = join_path(self.paths.drafts_dir.as_str(), name.as_str());
                    kv_remove(&mut self.contents, fp.as_str());
                    kv_set(&mut self.contents, target.clone(), content);
                    self.notes[i].meta.file_path = target;
                    self.notes[i].meta.is_trashed = false;
                    self.notes[i].meta.trashed_at = None;
                    let meta = self.notes[i].meta.clone();
                    proof {
                        let target_row = self.notes@[i as int]@;
                        assert(rows_view(self.notes@) =~= m0.rows.update(i as int, target_row));
                        assert(meta@ =~= spec_restore(m0, id@).1.unwrap());
                        assert(self@ =~= spec_restore(m0, id@).0);
                    }
                    Ok(meta)
                } else {
                    self.notes[i].meta.is_trashed = false;
                    self.notes[i].meta.trashed_at = None;
                    let meta = self.notes[i].meta.clone();
                    proof {
                        let target_row = self.notes@[i as int]@;
                        assert(rows_view(self.notes@) =~= m0.rows.update(i as int, target_row));
                        assert(meta@ =~= spec_restore(m0, id@).1.unwrap());
                        assert(self@ =~= spec_restore(m0, id@).0);
                    }
                    Ok(meta)
                }
            },
        }
    }

    /// Removes the note for good: a draft's content file is dropped
    /// best-effort, then the row goes away; the identifier is never reused by
    /// the engine.
    pub fn delete_forever(&mut self, id: &str) -> (r: Result<(), NoteError>)
        requires
            old(self).wf(),
        ensures
            final(self).wf(),
            final(self)@ == spec_delete(old(self)@, id@).0,
            match r {
                Ok(()) => spec_delete(old(self)@, id@).1 is Ok,
                Err(e) => spec_delete(old(self)@, id@).1 == Err::<(), NoteError>(e),
            },
    {
        let ghost m0 = self@;
        match self.find_note_idx(id) {
            None => Err(NoteError::NotFound),
            Some(i) => {
                if self.notes[i].meta.storage == NoteStorage::Draft {
                    let fp = self.notes[i].meta.file_path.clone();
                    kv_remove(&mut self.contents, fp.as_str());
                }
                let ghost notes0 = self.notes@;
                self.notes.remove(i);
                proof {
                    assert(rows_view(self.notes@) =~= m0.rows.remove(i as int));
                    assert(self@ =~= spec_delete(m0, id@).0);
                    let rows1 = m0.rows.remove(i as int);
                    assert forall|a: int, b: int|
                        0 <= a < b < rows1.len() implies rows1[a].note.id != rows1[b].note.id by {
                        let a0 = if a < i as int {
                            a
                        } else {
                            a + 1
                        };
                        let b0 = if b < i as int {
                            b
                        } else {
                            b + 1
                        };
                        assert(rows1[a] == m0.rows[a0]);
                        assert(rows1[b] == m0.rows[b0]);
                    }
                    assert forall|a: int|
                        0 <= a < rows1.len() implies (rows1[a].note.is_trashed
                        <==> rows1[a].note.trashed_at is Some) by {
                        let a0 = if a < i as int {
                            a
                        } else {
                            a + 1
                        };
                        assert(rows1[a] == m0.rows[a0]);
                    }
                }
                Ok(())
            },
        }
    }
}

} // verus!
