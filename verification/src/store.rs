//! The metadata store: one row per note, plus the settings and process-state
//! key-value relations and the content files the engine knows about.
//!
//! The store is modeled as a [`StoreModel`]: a sequence of row models and
//! three maps. Every lifecycle operation's contract says exactly how the
//! model changes. Content files appear as a map from path to content; an
//! operation that would read or move a missing file fails the way a real
//! read or move would, leaving the metadata untouched.

use vstd::prelude::*;

use crate::types::{AppPaths, NoteMeta, NoteModel, NoteStorage};
use crate::error::NoteError;
use crate::derive::str_eq;

verus! {

/// A note's metadata row together with its opaque access token.
#[derive(Debug)]
pub struct NoteRow {
    pub meta: NoteMeta,
    pub bookmark: Option<Vec<u8>>,
}

/// The mathematical value of one stored row.
#[verifier::ext_equal]
pub ghost struct RowModel {
    pub note: NoteModel,
    pub bookmark: Option<Seq<u8>>,
}

impl View for NoteRow {
    type V = RowModel;

    open spec fn view(&self) -> RowModel {
        RowModel {
            note: self.meta@,
            bookmark: match self.bookmark {
                Some(ref b) => Some(b@),
                None => None,
            },
        }
    }
}

/// The mathematical value of the whole store.
#[verifier::ext_equal]
pub ghost struct StoreModel {
    pub rows: Seq<RowModel>,
    pub contents: Map<Seq<char>, Seq<char>>,
    pub settings: Map<Seq<char>, Seq<char>>,
    pub app_state: Map<Seq<char>, Seq<char>>,
    pub drafts_dir: Seq<char>,
    pub trash_dir: Seq<char>,
}

/// The key-value relation a vector of pairs stands for.
pub open spec fn kv_view(s: Seq<(String, String)>) -> Map<Seq<char>, Seq<char>>
    decreases s.len(),
{
    if s.len() == 0 {
        Map::<Seq<char>, Seq<char>>::empty()
    } else {
        kv_view(s.drop_last()).insert(s.last().0@, s.last().1@)
    }
}

/// No key occurs twice.
pub open spec fn kv_keys_unique(s: Seq<(String, String)>) -> bool {
    forall|i: int, j: int| 0 <= i < j < s.len() ==> s[i].0@ != s[j].0@
}

/// A key is in the relation exactly when some pair carries it.
pub proof fn lemma_kv_contains(s: Seq<(String, String)>, k: Seq<char>)
    ensures
        kv_view(s).contains_key(k) <==> exists|i: int| 0 <= i < s.len() && s[i].0@ == k,
    decreases s.len(),
{
    if s.len() > 0 {
        lemma_kv_contains(s.drop_last(), k);
        if s.last().0@ == k {
            assert(s[s.len() - 1].0@ == k);
        } else if kv_view(s).contains_key(k) {
            let i = choose|i: int| 0 <= i < s.len() - 1 && s.drop_last()[i].0@ == k;
            assert(s[i].0@ == k);
        } else {
            assert(forall|i: int|
                0 <= i < s.len() - 1 && s[i].0@ == k ==> s.drop_last()[i].0@ == k);
        }
    }
}

/// With unique keys, each pair gives the relation's value at its key.
pub proof fn lemma_kv_at(s: Seq<(String, String)>, i: int)
    requires
        kv_keys_unique(s),
        0 <= i < s.len(),
    ensures
        kv_view(s).contains_key(s[i].0@),
        kv_view(s)[s[i].0@] == s[i].1@,
    decreases s.len(),
{
    if i == s.len() - 1 {
    } else {
        assert(kv_keys_unique(s.drop_last()));
        assert(s.drop_last()[i] == s[i]);
        lemma_kv_at(s.drop_last(), i);
        assert(s[i].0@ != s.last().0@);
    }
}

/// Removing the pair at `i` removes exactly its key.
pub proof fn lemma_kv_remove(s: Seq<(String, String)>, i: int)
    requires
        kv_keys_unique(s),
        0 <= i < s.len(),
    ensures
        kv_keys_unique(s.remove(i)),
        kv_view(s.remove(i)) == kv_view(s).remove(s[i].0@),
    decreases s.len(),
{
    let k = s[i].0@;
    if i == s.len() - 1 {
        assert(s.remove(i) =~= s.drop_last());
        lemma_kv_contains(s.drop_last(), k);
        assert(!kv_view(s.drop_last()).contains_key(k));
        assert(kv_view(s.drop_last()) =~= kv_view(s.drop_last()).insert(k, s.last().1@).remove(k));
    } else {
        assert(kv_keys_unique(s.drop_last()));
        lemma_kv_remove(s.drop_last(), i);
        assert(s.remove(i).drop_last() =~= s.drop_last().remove(i));
        assert(s.remove(i).last() == s.last());
        assert(k != s.last().0@);
        assert(kv_view(s.remove(i)) == kv_view(s.drop_last().remove(i)).insert(
            s.last().0@,
            s.last().1@,
        ));
        assert(kv_view(s.drop_last()).remove(k).insert(s.last().0@, s.last().1@) =~= kv_view(
            s.drop_last(),
        ).insert(s.last().0@, s.last().1@).remove(k));
    }
}

/// The index of the pair carrying `key`, if any.
fn kv_find(v: &Vec<(String, String)>, key: &str) -> (r: Option<usize>)
    ensures
        match r {
            Some(i) => i < v@.len() && v@[i as int].0@ == key@,
            None => forall|i: int| 0 <= i < v@.len() ==> v@[i].0@ != key@,
        },
{
    let n = v.len();
    let mut i: usize = 0;
    while i < n
        invariant
            i <= n,
            n == v@.len(),
            forall|j: int| 0 <= j < i ==> v@[j].0@ != key@,
        decreases n - i,
    {
        if str_eq(v[i].0.as_str(), key) {
            return Some(i);
        }
        i = i + 1;
    }
    None
}

/// The value at `key`, if the relation holds it.
pub fn kv_get(v: &Vec<(String, String)>, key: &str) -> (r: Option<String>)
    requires
        kv_keys_unique(v@),
    ensures
        match r {
            Some(val) => kv_view(v@).contains_key(key@) && val@ == kv_view(v@)[key@],
            None => !kv_view(v@).contains_key(key@),
        },
{
    proof {
        lemma_kv_contains(v@, key@);
    }
    match kv_find(v, key) {
        Some(i) => {
            proof {
                lemma_kv_at(v@, i as int);
            }
            Some(v[i].1.clone())
        },
        None => None,
    }
}

/// Binds `key` to `val`, replacing any earlier binding.
pub fn kv_set(v: &mut Vec<(String, String)>, key: String, val: String)
    requires
        kv_keys_unique(old(v)@),
    ensures
        kv_keys_unique(final(v)@),
        kv_view(final(v)@) == kv_view(old(v)@).insert(key@, val@),
{
    let ghost s0 = v@;
    match kv_find(v, key.as_str()) {
        Some(i) => {
            proof {
                lemma_kv_remove(v@, i as int);
            }
            let ghost removed_key = v@[i as int].0@;
            v.remove(i);
            proof {
                lemma_kv_contains(v@, key@);
                assert(forall|j: int|
                    0 <= j < v@.len() ==> v@[j].0@ != key@) by {
                    assert(forall|j: int| 0 <= j < i ==> v@[j] == s0[j]);
                    assert(forall|j: int| i <= j < v@.len() ==> v@[j] == s0[j + 1]);
                }
                assert(v@.push((key, val)).drop_last() =~= v@);
            }
            let ghost s1 = v@;
            v.push((key, val));
            proof {
                assert(v@.drop_last() =~= s1);
                assert(kv_view(v@) == kv_view(s1).insert(key@, val@));
                assert(kv_view(s0).remove(removed_key).insert(key@, val@) =~= kv_view(s0).insert(
                    key@,
                    val@,
                ));
                assert(forall|a: int, b: int|
                    0 <= a < b < v@.len() ==> v@[a].0@ != v@[b].0@) by {
                    assert(forall|a: int| 0 <= a < v@.len() - 1 ==> v@[a] == s1[a]);
                    assert(v@[v@.len() - 1].0@ == key@);
                }
            }
        },
        None => {
            let ghost s1 = v@;
            v.push((key, val));
            proof {
                assert(v@.drop_last() =~= s1);
                assert(kv_view(v@) == kv_view(s1).insert(key@, val@));
                assert(forall|a: int, b: int|
                    0 <= a < b < v@.len() ==> v@[a].0@ != v@[b].0@) by {
                    assert(forall|a: int| 0 <= a < v@.len() - 1 ==> v@[a] == s1[a]);
                    assert(v@[v@.len() - 1].0@ == key@);
                }
            }
        },
    }
}

/// Drops the binding at `key`, if any.
pub fn kv_remove(v: &mut Vec<(String, String)>, key: &str)
    requires
        kv_keys_unique(old(v)@),
    ensures
        kv_keys_unique(final(v)@),
        kv_view(final(v)@) == kv_view(old(v)@).remove(key@),
{
    let ghost s0 = v@;
    match kv_find(v, key) {
        Some(i) => {
            proof {
                lemma_kv_remove(v@, i as int);
            }
            v.remove(i);
        },
        None => {
            proof {
                lemma_kv_contains(v@, key@);
                assert(kv_view(s0) =~= kv_view(s0).remove(key@));
            }
        },
    }
}

/// The index of the first row whose note carries `id`; `-1` when none does.
pub open spec fn find_note(rows: Seq<RowModel>, id: Seq<char>) -> int
    decreases rows.len(),
{
    if rows.len() == 0 {
        -1
    } else if rows[0].note.id == id {
        0
    } else {
        let r = find_note(rows.skip(1), id);
        if r == -1 {
            -1
        } else {
            r + 1
        }
    }
}

/// Whether some row carries `id`.
pub open spec fn has_note(rows: Seq<RowModel>, id: Seq<char>) -> bool {
    find_note(rows, id) != -1
}

pub proof fn lemma_find_note(rows: Seq<RowModel>, id: Seq<char>)
    ensures
        find_note(rows, id) == -1 ==> forall|i: int| 0 <= i < rows.len() ==> rows[i].note.id != id,
        find_note(rows, id) != -1 ==> 0 <= find_note(rows, id) < rows.len() && rows[find_note(
            rows,
            id,
        )].note.id == id && (forall|i: int|
            0 <= i < find_note(rows, id) ==> rows[i].note.id != id),
    decreases rows.len(),
{
    if rows.len() > 0 && rows[0].note.id != id {
        lemma_find_note(rows.skip(1), id);
        assert(forall|i: int| 1 <= i < rows.len() ==> rows[i] == rows.skip(1)[i - 1]);
    }
}

/// The first match pins `find_note` down.
pub proof fn lemma_find_note_at(rows: Seq<RowModel>, id: Seq<char>, i: int)
    requires
        0 <= i < rows.len(),
        rows[i].note.id == id,
        forall|j: int| 0 <= j < i ==> rows[j].note.id != id,
    ensures
        find_note(rows, id) == i,
    decreases i,
{
    if i == 0 {
    } else {
        let t = rows.skip(1);
        assert(forall|j: int| 0 <= j < i - 1 ==> t[j] == rows[j + 1]);
        assert(t[i - 1] == rows[i]);
        lemma_find_note_at(t, id, i - 1);
    }
}

/// Row ids never repeat.
pub open spec fn ids_unique(rows: Seq<RowModel>) -> bool {
    forall|i: int, j: int| 0 <= i < j < rows.len() ==> rows[i].note.id != rows[j].note.id
}

/// `trashed_at` is set exactly on trashed rows.
pub open spec fn trash_stamp_ok(rows: Seq<RowModel>) -> bool {
    forall|i: int|
        0 <= i < rows.len() ==> (rows[i].note.is_trashed <==> rows[i].note.trashed_at is Some)
}

/// The store's invariant over its mathematical value.
pub open spec fn inv(m: StoreModel) -> bool {
    ids_unique(m.rows) && trash_stamp_ok(m.rows)
}

/// The metadata store. One lifecycle operation completes before the next
/// begins; a caller wanting concurrency serializes access around the store.
pub struct NoteStore {
    pub paths: AppPaths,
    pub notes: Vec<NoteRow>,
    pub contents: Vec<(String, String)>,
    pub settings: Vec<(String, String)>,
    pub app_state: Vec<(String, String)>,
}

/// The row models of a row vector.
pub open spec fn rows_view(notes: Seq<NoteRow>) -> Seq<RowModel> {
    notes.map_values(|r: NoteRow| r@)
}

impl View for NoteStore {
    type V = StoreModel;

    open spec fn view(&self) -> StoreModel {
        StoreModel {
            rows: rows_view(self.notes@),
            contents: kv_view(self.contents@),
            settings: kv_view(self.settings@),
            app_state: kv_view(self.app_state@),
            drafts_dir: self.paths.drafts_dir@,
            trash_dir: self.paths.trash_dir@,
        }
    }
}

impl NoteStore {
    /// The whole well-formedness condition: the model invariant plus unique
    /// keys in each key-value vector.
    pub open spec fn wf(&self) -> bool {
        inv(self@) && kv_keys_unique(self.contents@) && kv_keys_unique(self.settings@)
            && kv_keys_unique(self.app_state@)
    }

    /// An empty store over the provisioned directories.
    pub fn new(paths: AppPaths) -> (r: NoteStore)
        ensures
            r.wf(),
            r@.rows == Seq::<RowModel>::empty(),
            r@.contents == Map::<Seq<char>, Seq<char>>::empty(),
            r@.settings == Map::<Seq<char>, Seq<char>>::empty(),
            r@.app_state == Map::<Seq<char>, Seq<char>>::empty(),
            r@.drafts_dir == paths.drafts_dir@,
            r@.trash_dir == paths.trash_dir@,
    {
        let s = NoteStore {
            paths,
            notes: Vec::new(),
            contents: Vec::new(),
            settings: Vec::new(),
            app_state: Vec::new(),
        };
        proof {
            assert(rows_view(s.notes@) =~= Seq::<RowModel>::empty());
        }
        s
    }

    /// The index of the note carrying `id`.
    pub fn find_note_idx(&self, id: &str) -> (r: Option<usize>)
        ensures
            match r {
                Some(i) => find_note(self@.rows, id@) == i as int && i < self@.rows.len()
                    && self@.rows[i as int].note.id == id@,
                None => find_note(self@.rows, id@) == -1,
            },
    {
        let n = self.notes.len();
        let mut i: usize = 0;
        while i < n
            invariant
                i <= n,
                n == self@.rows.len(),
                forall|j: int| 0 <= j < i ==> self@.rows[j].note.id != id@,
            decreases n - i,
        {
            assert(self@.rows[i as int].note.id == self.notes@[i as int].meta.id@);
            if str_eq(self.notes[i].meta.id.as_str(), id) {
                proof {
                    lemma_find_note(self@.rows, id@);
                    if find_note(self@.rows, id@) == -1 {
                        assert(false);
                    }
                    if find_note(self@.rows, id@) < i as int {
                        assert(false);
                    }
                    if find_note(self@.rows, id@) > i as int {
                        assert(self@.rows[i as int].note.id != id@);
                        assert(false);
                    }
                }
                return Some(i);
            }
            i = i + 1;
        }
        proof {
            lemma_find_note(self@.rows, id@);
            if find_note(self@.rows, id@) != -1 {
                assert(false);
            }
        }
        None
    }

    /// The metadata of the note carrying `id`.
    pub fn get_meta(&self, id: &str) -> (r: Result<NoteMeta, NoteError>)
        ensures
            match r {
                Ok(m) => has_note(self@.rows, id@) && m@ == self@.rows[find_note(
                    self@.rows,
                    id@,
                )].note,
                Err(e) => e == NoteError::NotFound && !has_note(self@.rows, id@),
            },
    {
        match self.find_note_idx(id) {
            Some(i) => Ok(self.notes[i].meta.clone()),
            None => Err(NoteError::NotFound),
        }
    }
}

} // verus!
