//! Creating, reading and writing notes.

use vstd::prelude::*;

use crate::derive::{derive_title_preview, spec_derive_preview, spec_derive_title};
use crate::error::NoteError;
use crate::idgen::fresh_id;
use crate::ordering::max_sort;
use crate::store::{
    NoteRow, NoteStore, RowModel, StoreModel, find_note, has_note, kv_get, kv_set,
    kv_remove, lemma_find_note, rows_view,
};
use crate::types::{NoteMeta, NoteModel, NoteStorage, NoteWithContent};

verus! {

/// `name` placed under `dir`.
pub open spec fn spec_join(dir: Seq<char>, name: Seq<char>) -> Seq<char> {
    dir + "/"@ + name
}

/// The content file a draft with this id owns.
pub open spec fn spec_draft_file(dir: Seq<char>, id: Seq<char>) -> Seq<char> {
    spec_join(dir, id + ".md"@)
}

/// The row a fresh draft adds to the store.
pub open spec fn new_draft_note(m: StoreModel, id: Seq<char>, now: int) -> NoteModel {
    NoteModel {
        id: id,
        title: "New note"@,
        preview: Seq::<char>::empty(),
        file_path: spec_draft_file(m.drafts_dir, id),
        storage: NoteStorage::Draft,
        is_pinned: false,
        is_trashed: false,
        sort_order: max_sort(m.rows, false) + 1,
        created_at: now,
        last_interaction: now,
        trashed_at: None,
    }
}

/// `name` placed under `dir`, as a fresh string.
pub fn join_path(dir: &str, name: &str) -> (r: String)
    ensures
        r@ == spec_join(dir@, name@),
{
    let mut s = String::from_str(dir);
    s.append("/");
    s.append(name);
    s
}

/// A copy of a byte vector.
pub fn clone_bytes(v: &Vec<u8>) -> (r: Vec<u8>)
    ensures
        r@ == v@,
{
    let mut r: Vec<u8> = Vec::new();
    let mut i: usize = 0;
    while i < v.len()
        invariant
            i <= v@.len(),
            r@ == v@.take(i as int),
        decreases v@.len() - i,
    {
        r.push(v[i]);
        assert(v@.take(i + 1) =~= v@.take(i as int).push(v@[i as int]));
        i = i + 1;
    }
    assert(v@.take(v@.len() as int) =~= v@);
    r
}

/// The bytes an optional token holds.
pub open spec fn opt_bytes(b: Option<Vec<u8>>) -> Option<Seq<u8>> {
    match b {
        Some(v) => Some(v@),
        None => None,
    }
}

/// The index of the first row whose note carries `p` as its path; `-1` when
/// none does.
pub open spec fn find_by_path(rows: Seq<RowModel>, p: Seq<char>) -> int
    decreases rows.len(),
{
    if rows.len() == 0 {
        -1
    } else if rows[0].note.file_path == p {
        0
    } else {
        let r = find_by_path(rows.skip(1), p);
        if r == -1 {
            -1
        } else {
            r + 1
        }
    }
}

pub proof fn lemma_find_by_path(rows: Seq<RowModel>, p: Seq<char>)
    ensures
        find_by_path(rows, p) == -1 ==> forall|i: int|
            0 <= i < rows.len() ==> rows[i].note.file_path != p,
        find_by_path(rows, p) != -1 ==> 0 <= find_by_path(rows, p) < rows.len() && rows[find_by_path(
            rows,
            p,
        )].note.file_path == p,
    decreases rows.len(),
{
    if rows.len() > 0 && rows[0].note.file_path != p {
        lemma_find_by_path(rows.skip(1), p);
        assert(forall|i: int| 1 <= i < rows.len() ==> rows[i] == rows.skip(1)[i - 1]);
    }
}

/// The first match pins `find_by_path` down.
pub proof fn lemma_find_by_path_prefix(rows: Seq<RowModel>, p: Seq<char>, i: int)
    requires
        0 <= i < rows.len(),
        rows[i].note.file_path == p,
        forall|j: int| 0 <= j < i ==> rows[j].note.file_path != p,
    ensures
        find_by_path(rows, p) == i,
    decreases i,
{
    if i == 0 {
    } else {
        let t = rows.skip(1);
        assert(forall|j: int| 0 <= j < i - 1 ==> t[j] == rows[j + 1]);
        assert(t[i - 1] == rows[i]);
        lemma_find_by_path_prefix(t, p, i - 1);
    }
}

/// Which row an import of `path` addresses: the one tracking `path`, else —
/// when the platform resolved the path elsewhere — the one tracking the
/// resolved path.
pub open spec fn import_target(rows: Seq<RowModel>, path: Seq<char>, effective: Seq<char>) -> int {
    let i0 = find_by_path(rows, path);
    if i0 == -1 && effective != path {
        find_by_path(rows, effective)
    } else {
        i0
    }
}

/// What importing a file does. A tracked path updates its row in place:
/// a trashed row is restored first (a trashed draft's content file moves back
/// to the drafts directory; a failed move aborts everything), a saved row
/// takes the refreshed token and the effective path, and the derived fields
/// and interaction time are refreshed. An untracked path becomes a new saved
/// row under the given identifier.
pub open spec fn spec_import(
    m: StoreModel,
    path: Seq<char>,
    effective: Seq<char>,
    id_new: Seq<char>,
    content: Seq<char>,
    bm: Option<Seq<u8>>,
    now: int,
) -> (StoreModel, Result<NoteModel, NoteError>) {
    let i = import_target(m.rows, path, effective);
    if i != -1 {
        let row0 = m.rows[i];
        let restoring = row0.note.is_trashed && row0.note.storage == NoteStorage::Draft;
        if restoring && crate::trash::spec_file_name(row0.note.file_path).len() == 0 {
            (m, Err(NoteError::InvalidPath))
        } else if restoring && !m.contents.contains_key(row0.note.file_path) {
            (m, Err(NoteError::IoFailure))
        } else {
            let row1 = if restoring {
                RowModel {
                    note: NoteModel {
                        file_path: spec_join(
                            m.drafts_dir,
                            crate::trash::spec_file_name(row0.note.file_path),
                        ),
                        is_trashed: false,
                        trashed_at: None,
                        ..row0.note
                    },
                    ..row0
                }
            } else if row0.note.is_trashed {
                RowModel {
                    note: NoteModel { is_trashed: false, trashed_at: None, ..row0.note },
                    ..row0
                }
            } else {
                row0
            };
            let contents1 = if restoring {
                m.contents.remove(row0.note.file_path).insert(
                    row1.note.file_path,
                    m.contents[row0.note.file_path],
                )
            } else {
                m.contents
            };
            let row2 = if row0.note.storage == NoteStorage::Saved {
                let withbm = match bm {
                    Some(b) => RowModel { bookmark: Some(b), ..row1 },
                    None => row1,
                };
                RowModel { note: NoteModel { file_path: effective, ..withbm.note }, ..withbm }
            } else {
                row1
            };
            let note3 = NoteModel {
                title: spec_derive_title(content),
                preview: spec_derive_preview(content),
                last_interaction: now,
                ..row2.note
            };
            (
                StoreModel {
                    rows: m.rows.update(i, RowModel { note: note3, ..row2 }),
                    contents: contents1.insert(note3.file_path, content),
                    ..m
                },
                Ok(note3),
            )
        }
    } else {
        if has_note(m.rows, id_new) {
            (m, Err(NoteError::StoreUnavailable))
        } else {
            let note = NoteModel {
                id: id_new,
                title: spec_derive_title(content),
                preview: spec_derive_preview(content),
                file_path: effective,
                storage: NoteStorage::Saved,
                is_pinned: false,
                is_trashed: false,
                sort_order: max_sort(m.rows, false) + 1,
                created_at: now,
                last_interaction: now,
                trashed_at: None,
            };
            (
                StoreModel {
                    rows: m.rows.push(RowModel { note: note, bookmark: bm }),
                    contents: m.contents.insert(effective, content),
                    ..m
                },
                Ok(note),
            )
        }
    }
}

impl NoteStore {
    /// Creates a draft under a caller-chosen identifier: a new row with the
    /// placeholder title, no preview, the next sort key, and an empty owned
    /// content file. An identifier already in use is refused, as the store's
    /// key constraint would refuse it.
    pub fn create_draft_with_id(&mut self, id: String, now: i64) -> (r: Result<
        NoteMeta,
        NoteError,
    >)
        requires
            old(self).wf(),
            max_sort(old(self)@.rows, false) < i64::MAX,
        ensures
            final(self).wf(),
            match r {
                Ok(m) => !has_note(old(self)@.rows, id@) && m@ == new_draft_note(
                    old(self)@,
                    id@,
                    now as int,
                ) && final(self)@ == (StoreModel {
                    rows: old(self)@.rows.push(RowModel { note: m@, bookmark: None }),
                    contents: old(self)@.contents.insert(
                        spec_draft_file(old(self)@.drafts_dir, id@),
                        Seq::<char>::empty(),
                    ),
                    ..old(self)@
                }),
                Err(e) => e == NoteError::StoreUnavailable && has_note(old(self)@.rows, id@)
                    && final(self)@ == old(self)@,
            },
    {
        let ghost m0 = self@;
        if let Some(_) = self.find_note_idx(id.as_str()) {
            return Err(NoteError::StoreUnavailable);
        }
        let mut name = id.clone();
        name.append(".md");
        let fp = join_path(self.paths.drafts_dir.as_str(), name.as_str());
        let sort_order = self.next_sort_order();
        let meta = NoteMeta {
            id,
            title: String::from_str("New note"),
            preview: String::new(),
            file_path: fp.clone(),
            storage: NoteStorage::Draft,
            is_pinned: false,
            is_trashed: false,
            sort_order,
            created_at: now,
            last_interaction: now,
            trashed_at: None,
        };
        let row = NoteRow { meta: meta.clone(), bookmark: None };
        let ghost rowm = row@;
        let ghost notes0 = self.notes@;
        self.notes.push(row);
        kv_set(&mut self.contents, fp, String::new());
        proof {
            assert(meta@ == new_draft_note(m0, meta.id@, now as int));
            assert(rows_view(self.notes@) =~= rows_view(notes0).push(rowm));
            assert(self@ =~= (StoreModel {
                rows: m0.rows.push(rowm),
                contents: m0.contents.insert(
                    spec_draft_file(m0.drafts_dir, meta.id@),
                    Seq::<char>::empty(),
                ),
                ..m0
            }));
            lemma_find_note(m0.rows, meta.id@);
            assert forall|a: int, b: int|
                0 <= a < b < self@.rows.len() implies self@.rows[a].note.id
                != self@.rows[b].note.id by {
                if b < m0.rows.len() {
                    assert(self@.rows[a] == m0.rows[a]);
                    assert(self@.rows[b] == m0.rows[b]);
                } else {
                    assert(self@.rows[a] == m0.rows[a]);
                    assert(self@.rows[b] == rowm);
                }
            }
            assert(forall|a: int|
                0 <= a < m0.rows.len() ==> self@.rows[a] == m0.rows[a]);
        }
        Ok(meta)
    }

    /// Creates a draft under a fresh random identifier. The identifier comes
    /// from the outside, so the contract promises the draft shape only of
    /// whatever identifier came back; a colliding identifier is refused.
    pub fn create_draft(&mut self, now: i64) -> (r: Result<NoteMeta, NoteError>)
        requires
            old(self).wf(),
            max_sort(old(self)@.rows, false) < i64::MAX,
        ensures
            final(self).wf(),
            match r {
                Ok(m) => !has_note(old(self)@.rows, m@.id) && m@ == new_draft_note(
                    old(self)@,
                    m@.id,
                    now as int,
                ) && final(self)@ == (StoreModel {
                    rows: old(self)@.rows.push(RowModel { note: m@, bookmark: None }),
                    contents: old(self)@.contents.insert(
                        spec_draft_file(old(self)@.drafts_dir, m@.id),
                        Seq::<char>::empty(),
                    ),
                    ..old(self)@
                }),
                Err(e) => e == NoteError::StoreUnavailable && final(self)@ == old(self)@,
            },
    {
        let id = fresh_id();
        self.create_draft_with_id(id, now)
    }

    /// The note's metadata together with its content as the engine knows it.
    /// Reading a note whose content file is missing fails as the read would,
    /// with the metadata intact.
    pub fn get(&self, id: &str) -> (r: Result<NoteWithContent, NoteError>)
        requires
            self.wf(),
        ensures
            ({
                let i = find_note(self@.rows, id@);
                match r {
                    Ok(nc) => i != -1 && nc.meta@ == self@.rows[i].note
                        && self@.contents.contains_key(self@.rows[i].note.file_path)
                        && nc.content@ == self@.contents[self@.rows[i].note.file_path],
                    Err(e) => (e == NoteError::NotFound && i == -1) || (e == NoteError::IoFailure
                        && i != -1 && !self@.contents.contains_key(self@.rows[i].note.file_path)),
                }
            }),
    {
        match self.find_note_idx(id) {
            None => Err(NoteError::NotFound),
            Some(i) => {
                let meta = self.notes[i].meta.clone();
                match kv_get(&self.contents, meta.file_path.as_str()) {
                    Some(content) => Ok(NoteWithContent { meta, content }),
                    None => Err(NoteError::IoFailure),
                }
            },
        }
    }

    /// The note's stored access token.
    pub fn get_bookmark(&self, id: &str) -> (r: Result<Option<Vec<u8>>, NoteError>)
        ensures
            ({
                let i = find_note(self@.rows, id@);
                match r {
                    Ok(b) => i != -1 && (match b {
                        Some(bytes) => self@.rows[i].bookmark == Some(bytes@),
                        None => self@.rows[i].bookmark is None,
                    }),
                    Err(e) => e == NoteError::NotFound && i == -1,
                }
            }),
    {
        match self.find_note_idx(id) {
            None => Err(NoteError::NotFound),
            Some(i) => match &self.notes[i].bookmark {
                None => Ok(None),
                Some(b) => Ok(Some(clone_bytes(b))),
            },
        }
    }

    /// Overwrites a draft's content file, rederives its title and preview,
    /// and marks it interacted with; refused on a note that is not a draft.
    pub fn write_draft(&mut self, id: &str, content: &str, now: i64) -> (r: Result<
        NoteMeta,
        NoteError,
    >)
        requires
            old(self).wf(),
        ensures
            final(self).wf(),
            ({
                let i = find_note(old(self)@.rows, id@);
                match r {
                    Ok(m) => {
                        let row0 = old(self)@.rows[i];
                        i != -1 && row0.note.storage == NoteStorage::Draft && m@ == (NoteModel {
                            title: spec_derive_title(content@),
                            preview: spec_derive_preview(content@),
                            last_interaction: now as int,
                            ..row0.note
                        }) && final(self)@ == (StoreModel {
                            rows: old(self)@.rows.update(i, RowModel { note: m@, ..row0 }),
                            contents: old(self)@.contents.insert(row0.note.file_path, content@),
                            ..old(self)@
                        })
                    },
                    Err(e) => final(self)@ == old(self)@ && ((e == NoteError::NotFound && i == -1)
                        || (e == NoteError::NotADraft && i != -1 && old(self)@.rows[i].note.storage
                        != NoteStorage::Draft)),
                }
            }),
    {
        let ghost m0 = self@;
        match self.find_note_idx(id) {
            None => Err(NoteError::NotFound),
            Some(i) => {
                let ghost row0 = m0.rows[i as int];
                if self.notes[i].meta.storage != NoteStorage::Draft {
                    return Err(NoteError::NotADraft);
                }
                let (title, preview) = derive_title_preview(content);
                kv_set(
                    &mut self.contents,
                    self.notes[i].meta.file_path.clone(),
                    String::from_str(content),
                );
                self.notes[i].meta.title = title;
                self.notes[i].meta.preview = preview;
                self.notes[i].meta.last_interaction = now;
                let meta = self.notes[i].meta.clone();
                proof {
                    let target = RowModel { note: meta@, ..row0 };
                    assert(self.notes@[i as int]@ =~= target);
                    assert(rows_view(self.notes@) =~= m0.rows.update(i as int, target));
                    assert(self@ =~= (StoreModel {
                        rows: m0.rows.update(i as int, target),
                        contents: m0.contents.insert(row0.note.file_path, content@),
                        ..m0
                    }));
                    assert(meta@ =~= (NoteModel {
                        title: spec_derive_title(content@),
                        preview: spec_derive_preview(content@),
                        last_interaction: now as int,
                        ..row0.note
                    }));
                }
                Ok(meta)
            },
        }
    }

    /// Overwrites a saved note's content as the engine knows it, rederives
    /// its title and preview, and marks it interacted with; refused on a note
    /// that is not saved. The caller performs the scoped write against the
    /// external file first and applies any scoped updates.
    pub fn save(&mut self, id: &str, content: &str, now: i64) -> (r: Result<NoteMeta, NoteError>)
        requires
            old(self).wf(),
        ensures
            final(self).wf(),
            ({
                let i = find_note(old(self)@.rows, id@);
                match r {
                    Ok(m) => {
                        let row0 = old(self)@.rows[i];
                        i != -1 && row0.note.storage == NoteStorage::Saved && m@ == (NoteModel {
                            title: spec_derive_title(content@),
                            preview: spec_derive_preview(content@),
                            last_interaction: now as int,
                            ..row0.note
                        }) && final(self)@ == (StoreModel {
                            rows: old(self)@.rows.update(i, RowModel { note: m@, ..row0 }),
                            contents: old(self)@.contents.insert(row0.note.file_path, content@),
                            ..old(self)@
                        })
                    },
                    Err(e) => final(self)@ == old(self)@ && ((e == NoteError::NotFound && i == -1)
                        || (e == NoteError::NotSaved && i != -1 && old(self)@.rows[i].note.storage
                        != NoteStorage::Saved)),
                }
            }),
    {
        let ghost m0 = self@;
        match self.find_note_idx(id) {
            None => Err(NoteError::NotFound),
            Some(i) => {
                let ghost row0 = m0.rows[i as int];
                if self.notes[i].meta.storage != NoteStorage::Saved {
                    return Err(NoteError::NotSaved);
                }
                let (title, preview) = derive_title_preview(content);
                kv_set(
                    &mut self.contents,
                    self.notes[i].meta.file_path.clone(),
                    String::from_str(content),
                );
                self.notes[i].meta.title = title;
                self.notes[i].meta.preview = preview;
                self.notes[i].meta.last_interaction = now;
                let meta = self.notes[i].meta.clone();
                proof {
                    let target = RowModel { note: meta@, ..row0 };
                    assert(self.notes@[i as int]@ =~= target);
                    assert(rows_view(self.notes@) =~= m0.rows.update(i as int, target));
                    assert(self@ =~= (StoreModel {
                        rows: m0.rows.update(i as int, target),
                        contents: m0.contents.insert(row0.note.file_path, content@),
                        ..m0
                    }));
                    assert(meta@ =~= (NoteModel {
                        title: spec_derive_title(content@),
                        preview: spec_derive_preview(content@),
                        last_interaction: now as int,
                        ..row0.note
                    }));
                }
                Ok(meta)
            },
        }
    }

    /// Records what a scoped file access reported back: a refreshed access
    /// token, and a relocated path — the engine's knowledge of the content
    /// follows the file to the new path, and the stored path is updated so
    /// later reads go where the platform moved the file. An unknown
    /// identifier changes nothing.
    pub fn apply_scoped_updates(
        &mut self,
        id: &str,
        refreshed_bookmark: Option<Vec<u8>>,
        resolved_path: Option<String>,
    ) -> (r: Result<(), NoteError>)
        requires
            old(self).wf(),
        ensures
            final(self).wf(),
            r is Ok,
            ({
                let i = find_note(old(self)@.rows, id@);
                if i == -1 {
                    final(self)@ == old(self)@
                } else {
                    let row0 = old(self)@.rows[i];
                    let withbm = match refreshed_bookmark {
                        Some(b) => RowModel { bookmark: Some(b@), ..row0 },
                        None => row0,
                    };
                    match resolved_path {
                        None => final(self)@ == (StoreModel {
                            rows: old(self)@.rows.update(i, withbm),
                            ..old(self)@
                        }),
                        Some(p) => final(self)@ == (StoreModel {
                            rows: old(self)@.rows.update(
                                i,
                                RowModel {
                                    note: NoteModel { file_path: p@, ..withbm.note },
                                    ..withbm
                                },
                            ),
                            contents: if old(self)@.contents.contains_key(row0.note.file_path) {
                                old(self)@.contents.insert(
                                    p@,
                                    old(self)@.contents[row0.note.file_path],
                                )
                            } else {
                                old(self)@.contents
                            },
                            ..old(self)@
                        }),
                    }
                }
            }),
    {
        let ghost m0 = self@;
        match self.find_note_idx(id) {
            None => Ok(()),
            Some(i) => {
                let ghost row0 = m0.rows[i as int];
                let had_bookmark = match refreshed_bookmark {
                    Some(b) => {
                        self.notes[i].bookmark = Some(b);
                        true
                    },
                    None => false,
                };
                let ghost withbm = self.notes@[i as int]@;
                proof {
                    assert(withbm =~= (match refreshed_bookmark {
                        Some(b) => RowModel { bookmark: Some(b@), ..row0 },
                        None => row0,
                    }));
                }
                match resolved_path {
                    None => {
                        proof {
                            assert(rows_view(self.notes@) =~= m0.rows.update(i as int, withbm));
                            assert(self@ =~= (StoreModel {
                                rows: m0.rows.update(i as int, withbm),
                                ..m0
                            }));
                        }
                        Ok(())
                    },
                    Some(p) => {
                        match kv_get(&self.contents, self.notes[i].meta.file_path.as_str()) {
                            Some(c) => {
                                kv_set(&mut self.contents, p.clone(), c);
                            },
                            None => {},
                        }
                        self.notes[i].meta.file_path = p;
                        proof {
                            let target = RowModel {
                                note: NoteModel {
                                    file_path: self.notes@[i as int].meta.file_path@,
                                    ..withbm.note
                                },
                                ..withbm
                            };
                            assert(self.notes@[i as int]@ =~= target);
                            assert(rows_view(self.notes@) =~= m0.rows.update(i as int, target));
                        }
                        Ok(())
                    },
                }
            },
        }
    }

    /// Writes the note's content to a caller-chosen external location: the
    /// note becomes a saved note at the new path with the given token, its
    /// title and preview are rederived, and a draft's owned content file is
    /// given up. The caller performs the scoped write first and passes the
    /// effective path the platform reported.
    pub fn save_as(
        &mut self,
        id: &str,
        new_path: &str,
        content: &str,
        refreshed_bookmark: Option<Vec<u8>>,
        now: i64,
    ) -> (r: Result<NoteMeta, NoteError>)
        requires
            old(self).wf(),
        ensures
            final(self).wf(),
            ({
                let i = find_note(old(self)@.rows, id@);
                match r {
                    Ok(m) => {
                        let row0 = old(self)@.rows[i];
                        i != -1 && m@ == (NoteModel {
                            title: spec_derive_title(content@),
                            preview: spec_derive_preview(content@),
                            file_path: new_path@,
                            storage: NoteStorage::Saved,
                            last_interaction: now as int,
                            ..row0.note
                        }) && final(self)@ == (StoreModel {
                            rows: old(self)@.rows.update(
                                i,
                                RowModel {
                                    note: m@,
                                    bookmark: match refreshed_bookmark {
                                        Some(b) => Some(b@),
                                        None => None,
                                    },
                                },
                            ),
                            contents: (if row0.note.storage == NoteStorage::Draft {
                                old(self)@.contents.remove(row0.note.file_path)
                            } else {
                                old(self)@.contents
                            }).insert(new_path@, content@),
                            ..old(self)@
                        })
                    },
                    Err(e) => e == NoteError::NotFound && i == -1 && final(self)@ == old(self)@,
                }
            }),
    {
        let ghost m0 = self@;
        match self.find_note_idx(id) {
            None => Err(NoteError::NotFound),
            Some(i) => {
                let ghost row0 = m0.rows[i as int];
                if self.notes[i].meta.storage == NoteStorage::Draft {
                    let old_fp = self.notes[i].meta.file_path.clone();
                    kv_remove(&mut self.contents, old_fp.as_str());
                }
                kv_set(&mut self.contents, String::from_str(new_path), String::from_str(content));
                let (title, preview) = derive_title_preview(content);
                self.notes[i].meta.title = title;
                self.notes[i].meta.preview = preview;
                self.notes[i].meta.file_path = String::from_str(new_path);
                self.notes[i].meta.storage = NoteStorage::Saved;
                self.notes[i].meta.last_interaction = now;
                self.notes[i].bookmark = refreshed_bookmark;
                let meta = self.notes[i].meta.clone();
                proof {
                    let target = self.notes@[i as int]@;
                    assert(rows_view(self.notes@) =~= m0.rows.update(i as int, target));
                    assert(meta@ =~= (NoteModel {
                        title: spec_derive_title(content@),
                        preview: spec_derive_preview(content@),
                        file_path: new_path@,
                        storage: NoteStorage::Saved,
                        last_interaction: now as int,
                        ..row0.note
                    }));
                    assert(self@ =~= (StoreModel {
                        rows: m0.rows.update(i as int, RowModel {
                            note: meta@,
                            bookmark: match refreshed_bookmark {
                                Some(b) => Some(b@),
                                None => None,
                            },
                        }),
                        contents: (if row0.note.storage == NoteStorage::Draft {
                            m0.contents.remove(row0.note.file_path)
                        } else {
                            m0.contents
                        }).insert(new_path@, content@),
                        ..m0
                    }));
                }
                Ok(meta)
            },
        }
    }

    /// The index of the note tracking `p` as its path.
    pub fn find_by_path_idx(&self, p: &str) -> (r: Option<usize>)
        ensures
            match r {
                Some(i) => find_by_path(self@.rows, p@) == i as int && i < self@.rows.len(),
                None => find_by_path(self@.rows, p@) == -1,
            },
    {
        let n = self.notes.len();
        let mut i: usize = 0;
        while i < n
            invariant
                i <= n,
                n == self@.rows.len(),
                forall|j: int| 0 <= j < i ==> self@.rows[j].note.file_path != p@,
            decreases n - i,
        {
            assert(self@.rows[i as int].note.file_path == self.notes@[i as int].meta.file_path@);
            if crate::derive::str_eq(self.notes[i].meta.file_path.as_str(), p) {
                proof {
                    lemma_find_by_path_prefix(self@.rows, p@, i as int);
                }
                return Some(i);
            }
            i = i + 1;
        }
        proof {
            lemma_find_by_path(self@.rows, p@);
            if find_by_path(self@.rows, p@) != -1 {
                assert(false);
            }
        }
        None
    }

    /// Imports a file under a caller-chosen identifier for the untracked
    /// case; a tracked path updates its row in place, exactly as
    /// `spec_import` says.
    pub fn import_file_with_id(
        &mut self,
        id: String,
        path: &str,
        effective_path: &str,
        content: &str,
        refreshed_bookmark: Option<Vec<u8>>,
        now: i64,
    ) -> (r: Result<NoteWithContent, NoteError>)
        requires
            old(self).wf(),
            max_sort(old(self)@.rows, false) < i64::MAX,
        ensures
            final(self).wf(),
            final(self)@ == spec_import(
                old(self)@,
                path@,
                effective_path@,
                id@,
                content@,
                opt_bytes(refreshed_bookmark),
                now as int,
            ).0,
            match r {
                Ok(nc) => spec_import(
                    old(self)@,
                    path@,
                    effective_path@,
                    id@,
                    content@,
                    opt_bytes(refreshed_bookmark),
                    now as int,
                ).1 == Ok::<NoteModel, NoteError>(nc.meta@) && nc.content@ == content@,
                Err(e) => spec_import(
                    old(self)@,
                    path@,
                    effective_path@,
                    id@,
                    content@,
                    opt_bytes(refreshed_bookmark),
                    now as int,
                ).1 == Err::<NoteModel, NoteError>(e),
            },
    {
        let ghost m0 = self@;
        let ghost bm = opt_bytes(refreshed_bookmark);
        let first = self.find_by_path_idx(path);
        let idx_opt = match first {
            Some(i) => Some(i),
            None => {
                if !crate::derive::str_eq(effective_path, path) {
                    self.find_by_path_idx(effective_path)
                } else {
                    None
                }
            },
        };
        proof {
            match idx_opt {
                Some(i) => {
                    assert(import_target(m0.rows, path@, effective_path@) == i as int);
                },
                None => {
                    assert(import_target(m0.rows, path@, effective_path@) == -1);
                },
            }
        }
        match idx_opt {
            Some(i) => {
                let ghost row0 = m0.rows[i as int];
                let restoring = self.notes[i].meta.is_trashed && self.notes[i].meta.storage
                    == NoteStorage::Draft;
                if restoring {
                    let fp = self.notes[i].meta.file_path.clone();
                    let name = crate::trash::file_name_of(fp.as_str());
                    if name.as_str().unicode_len() == 0 {
                        return Err(NoteError::InvalidPath);
                    }
                    let moved = match kv_get(&self.contents, fp.as_str()) {
                        Some(c) => c,
                        None => {
                            return Err(NoteError::IoFailure);
                        },
                    };
                    let target = join_path(self.paths.drafts_dir.as_str(), name.as_str());
                    kv_remove(&mut self.contents, fp.as_str());
                    kv_set(&mut self.contents, target.clone(), moved);
                    self.notes[i].meta.file_path = target;
                    self.notes[i].meta.is_trashed = false;
                    self.notes[i].meta.trashed_at = None;
                } else if self.notes[i].meta.is_trashed {
                    self.notes[i].meta.is_trashed = false;
                    self.notes[i].meta.trashed_at = None;
                }
                if self.notes[i].meta.storage == NoteStorage::Saved {
                    match refreshed_bookmark {
                        Some(b) => {
                            self.notes[i].bookmark = Some(b);
                        },
                        None => {},
                    }
                    self.notes[i].meta.file_path = String::from_str(effective_path);
                }
                let (title, preview) = derive_title_preview(content);
                self.notes[i].meta.title = title;
                self.notes[i].meta.preview = preview;
                self.notes[i].meta.last_interaction = now;
                kv_set(
                    &mut self.contents,
                    self.notes[i].meta.file_path.clone(),
                    String::from_str(content),
                );
                let meta = self.notes[i].meta.clone();
                proof {
                    let spec_out = spec_import(
                        m0,
                        path@,
                        effective_path@,
                        id@,
                        content@,
                        bm,
                        now as int,
                    );
                    let target_row = self.notes@[i as int]@;
                    assert(rows_view(self.notes@) =~= m0.rows.update(i as int, target_row));
                    assert(meta@ =~= spec_out.1.unwrap());
                    assert(self@ =~= spec_out.0);
                }
                Ok(NoteWithContent { meta, content: String::from_str(content) })
            },
            None => {
                if let Some(_) = self.find_note_idx(id.as_str()) {
                    return Err(NoteError::StoreUnavailable);
                }
                let (title, preview) = derive_title_preview(content);
                let sort_order = self.next_sort_order();
                let meta = NoteMeta {
                    id,
                    title,
                    preview,
                    file_path: String::from_str(effective_path),
                    storage: NoteStorage::Saved,
                    is_pinned: false,
                    is_trashed: false,
                    sort_order,
                    created_at: now,
                    last_interaction: now,
                    trashed_at: None,
                };
                let row = NoteRow { meta: meta.clone(), bookmark: refreshed_bookmark };
                let ghost rowm = row@;
                let ghost notes0 = self.notes@;
                self.notes.push(row);
                kv_set(
                    &mut self.contents,
                    String::from_str(effective_path),
                    String::from_str(content),
                );
                proof {
                    let spec_out = spec_import(
                        m0,
                        path@,
                        effective_path@,
                        meta.id@,
                        content@,
                        bm,
                        now as int,
                    );
                    assert(rows_view(self.notes@) =~= rows_view(notes0).push(rowm));
                    assert(meta@ =~= spec_out.1.unwrap());
                    assert(self@ =~= spec_out.0);
                    lemma_find_note(m0.rows, meta.id@);
                    assert forall|a: int, b: int|
                        0 <= a < b < self@.rows.len() implies self@.rows[a].note.id
                        != self@.rows[b].note.id by {
                        if b < m0.rows.len() {
                            assert(self@.rows[a] == m0.rows[a]);
                            assert(self@.rows[b] == m0.rows[b]);
                        } else {
                            assert(self@.rows[a] == m0.rows[a]);
                            assert(self@.rows[b] == rowm);
                        }
                    }
                    assert(forall|a: int|
                        0 <= a < m0.rows.len() ==> self@.rows[a] == m0.rows[a]);
                }
                Ok(NoteWithContent { meta, content: String::from_str(content) })
            },
        }
    }

    /// Imports a file as the original or resolved path the platform handed
    /// back, creating the row under a fresh random identifier when the path
    /// is untracked. A colliding identifier is refused; any other failure
    /// comes from the tracked branch, where the identifier plays no part.
    pub fn import_file(
        &mut self,
        path: &str,
        effective_path: &str,
        content: &str,
        refreshed_bookmark: Option<Vec<u8>>,
        now: i64,
    ) -> (r: Result<NoteWithContent, NoteError>)
        requires
            old(self).wf(),
            max_sort(old(self)@.rows, false) < i64::MAX,
        ensures
            final(self).wf(),
            match r {
                Ok(nc) => final(self)@ == spec_import(
                    old(self)@,
                    path@,
                    effective_path@,
                    nc.meta@.id,
                    content@,
                    opt_bytes(refreshed_bookmark),
                    now as int,
                ).0 && spec_import(
                    old(self)@,
                    path@,
                    effective_path@,
                    nc.meta@.id,
                    content@,
                    opt_bytes(refreshed_bookmark),
                    now as int,
                ).1 == Ok::<NoteModel, NoteError>(nc.meta@) && nc.content@ == content@,
                Err(e) => final(self)@ == old(self)@ && (e == NoteError::StoreUnavailable
                    || spec_import(
                    old(self)@,
                    path@,
                    effective_path@,
                    Seq::<char>::empty(),
                    content@,
                    opt_bytes(refreshed_bookmark),
                    now as int,
                ).1 == Err::<NoteModel, NoteError>(e)),
            },
    {
        let id = fresh_id();
        let ghost idv = id@;
        let r = self.import_file_with_id(
            id,
            path,
            effective_path,
            content,
            refreshed_bookmark,
            now,
        );
        proof {
            if r is Err {
                let e = r->Err_0;
                if e != NoteError::StoreUnavailable {
                    assert(import_target(old(self)@.rows, path@, effective_path@) != -1);
                }
            }
        }
        r
    }

    /// Marks the note as interacted with now; unknown identifiers change
    /// nothing, as an update that matches no row changes nothing.
    pub fn set_active(&mut self, id: &str, now: i64) -> (r: Result<(), NoteError>)
        requires
            old(self).wf(),
        ensures
            final(self).wf(),
            r is Ok,
            ({
                let i = find_note(old(self)@.rows, id@);
                if i == -1 {
                    final(self)@ == old(self)@
                } else {
                    final(self)@ == (StoreModel {
                        rows: old(self)@.rows.update(
                            i,
                            RowModel {
                                note: NoteModel {
                                    last_interaction: now as int,
                                    ..old(self)@.rows[i].note
                                },
                                ..old(self)@.rows[i]
                            },
                        ),
                        ..old(self)@
                    })
                }
            }),
    {
        let ghost m0 = self@;
        match self.find_note_idx(id) {
            None => Ok(()),
            Some(i) => {
                let ghost row0 = m0.rows[i as int];
                self.notes[i].meta.last_interaction = now;
                proof {
                    let target = RowModel {
                        note: NoteModel { last_interaction: now as int, ..row0.note },
                        ..row0
                    };
                    assert(self.notes@[i as int]@ =~= target);
                    assert(rows_view(self.notes@) =~= m0.rows.update(i as int, target));
                    assert(self@ =~= (StoreModel { rows: m0.rows.update(i as int, target), ..m0 }));
                }
                Ok(())
            },
        }
    }
}

} // verus!
