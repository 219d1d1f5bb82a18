//! The engine's laws: what holds across operations, stated over the store
//! model and proved once for every input the statement admits.

use vstd::prelude::*;

use crate::error::NoteError;
use crate::lifecycle::{find_by_path, new_draft_note, spec_draft_file, spec_import, spec_join};
use crate::list::{active_notes, le_active, lemma_sort_active, sort_active, sorted_active};
use crate::ordering::{pinned_count, spec_reorder, spec_set_pinned};
use crate::store::{
    RowModel, StoreModel, find_note, has_note, ids_unique, inv, lemma_find_note,
    lemma_find_note_at,
};
use crate::expiry::{candidate_ids, drop_fold, drop_ids, spec_sweep, trash_fold};
use crate::settings::spec_parse_i64;
use crate::trash::{spec_delete, spec_file_name, spec_restore, spec_trash};
use crate::types::{NoteModel, NoteStorage};

verus! {

/// Creating a draft and immediately reading it back gives empty content and
/// the placeholder title: the fresh row is found under its id, its title is
/// the placeholder, and the content table holds the empty string at its file.
pub proof fn lemma_create_then_get(m: StoreModel, id: Seq<char>, now: int)
    requires
        inv(m),
        !has_note(m.rows, id),
    ensures
        ({
            let note = new_draft_note(m, id, now);
            let m1 = StoreModel {
                rows: m.rows.push(RowModel { note: note, bookmark: None }),
                contents: m.contents.insert(spec_draft_file(m.drafts_dir, id), Seq::<char>::empty()),
                ..m
            };
            let i = find_note(m1.rows, id);
            &&& i == m.rows.len()
            &&& m1.rows[i].note.title == "New note"@
            &&& m1.contents.contains_key(m1.rows[i].note.file_path)
            &&& m1.contents[m1.rows[i].note.file_path] == Seq::<char>::empty()
        }),
{
    let note = new_draft_note(m, id, now);
    let rows1 = m.rows.push(RowModel { note: note, bookmark: None });
    lemma_find_note(m.rows, id);
    assert(forall|j: int| 0 <= j < m.rows.len() ==> rows1[j] == m.rows[j]);
    lemma_find_note_at(rows1, id, m.rows.len() as int);
}

/// Pinning a sixth note when five are pinned is rejected outright and the
/// store is untouched: every `sort_order` and `is_pinned` stays as it was.
pub proof fn lemma_pin_limit(m: StoreModel, id: Seq<char>, now: int)
    requires
        pinned_count(m.rows) >= 5,
        has_note(m.rows, id),
        !m.rows[find_note(m.rows, id)].note.is_pinned,
    ensures
        spec_set_pinned(m, id, true, now).0 == m,
        spec_set_pinned(m, id, true, now).1 == Err::<NoteModel, NoteError>(
            NoteError::PinLimitExceeded,
        ),
{
    lemma_find_note(m.rows, id);
}

/// A reorder never touches a trashed note: its row keeps its exact value,
/// whatever ids the list names.
pub proof fn lemma_reorder_trashed_unchanged(rows: Seq<RowModel>, ids: Seq<Seq<char>>, j: int)
    requires
        0 <= j < rows.len(),
        rows[j].note.is_trashed,
    ensures
        spec_reorder(rows, ids).len() == rows.len(),
        spec_reorder(rows, ids)[j] == rows[j],
    decreases ids.len(),
{
    if ids.len() == 0 {
    } else {
        lemma_reorder_trashed_unchanged(rows, ids.drop_last(), j);
        let r1 = spec_reorder(rows, ids.drop_last());
        lemma_find_note(r1, ids.last());
        let i = find_note(r1, ids.last());
        if i != -1 && !r1[i].note.is_trashed {
            assert(i != j);
        }
    }
}

/// A reorder changes nothing but sort keys: every row keeps its position,
/// identity, flags, paths and times.
pub proof fn lemma_reorder_frame(rows: Seq<RowModel>, ids: Seq<Seq<char>>)
    ensures
        spec_reorder(rows, ids).len() == rows.len(),
        forall|j: int|
            0 <= j < rows.len() ==> spec_reorder(rows, ids)[j] == (RowModel {
                note: NoteModel {
                    sort_order: spec_reorder(rows, ids)[j].note.sort_order,
                    ..rows[j].note
                },
                ..rows[j]
            }),
    decreases ids.len(),
{
    if ids.len() > 0 {
        lemma_reorder_frame(rows, ids.drop_last());
        let pre = spec_reorder(rows, ids.drop_last());
        lemma_find_note(pre, ids.last());
    }
}

/// After a reorder whose listed ids are distinct, each listed non-trashed
/// note carries its list position as its sort key.
pub proof fn lemma_reorder_assigns(rows: Seq<RowModel>, ids: Seq<Seq<char>>, k: int)
    requires
        ids_unique(rows),
        forall|a: int, b: int| 0 <= a < b < ids.len() ==> ids[a] != ids[b],
        0 <= k < ids.len(),
        has_note(rows, ids[k]),
        !rows[find_note(rows, ids[k])].note.is_trashed,
    ensures
        spec_reorder(rows, ids)[find_note(rows, ids[k])].note.sort_order == k,
    decreases ids.len(),
{
    let i = find_note(rows, ids[k]);
    lemma_find_note(rows, ids[k]);
    lemma_reorder_frame(rows, ids.drop_last());
    let pre = spec_reorder(rows, ids.drop_last());
    if k == ids.len() - 1 {
        assert(pre[i].note.id == ids[k]);
        assert(forall|j: int| 0 <= j < i ==> pre[j].note.id == rows[j].note.id);
        lemma_find_note_at(pre, ids[k], i);
        assert(!pre[i].note.is_trashed);
    } else {
        lemma_reorder_assigns(rows, ids.drop_last(), k);
        assert(pre[i].note.sort_order == k);
        lemma_find_note(pre, ids.last());
        let t = find_note(pre, ids.last());
        if t != -1 && !pre[t].note.is_trashed {
            assert(t != i) by {
                if t == i {
                    assert(pre[i].note.id == rows[i].note.id);
                    assert(ids[ids.len() - 1] == ids[k]);
                }
            }
        }
    }
}

/// A sequence of pairwise-distinct values counts each value at most once.
proof fn lemma_distinct_count(s: Seq<NoteModel>, x: NoteModel)
    requires
        forall|i: int, j: int| 0 <= i < j < s.len() ==> s[i] != s[j],
    ensures
        s.to_multiset().count(x) == (if s.contains(x) {
            1int
        } else {
            0int
        }),
    decreases s.len(),
{
    broadcast use vstd::seq_lib::group_to_multiset_ensures, vstd::multiset::group_multiset_axioms;

    if s.len() == 0 {
        assert(!s.contains(x));
    } else {
        let d = s.drop_last();
        lemma_distinct_count(d, x);
        assert(s =~= d.push(s.last()));
        assert(d.push(s.last()).to_multiset() =~= d.to_multiset().insert(s.last()));
        if s.last() == x {
            assert(!d.contains(x)) by {
                if d.contains(x) {
                    let w = choose|w: int| 0 <= w < d.len() && d[w] == x;
                    assert(s[w] == s[s.len() - 1]);
                }
            }
            assert(s.contains(x));
        } else {
            if s.contains(x) {
                let w = choose|w: int| 0 <= w < s.len() && s[w] == x;
                assert(d[w] == x);
                assert(d.contains(x));
            }
            if d.contains(x) {
                let w = choose|w: int| 0 <= w < d.len() && d[w] == x;
                assert(s[w] == x);
            }
        }
    }
}

/// After a reorder that lists each active note exactly once — none of them
/// pinned — the display listing is exactly the listed notes, in list order,
/// each carrying its list position as its sort key.
pub proof fn lemma_reorder_then_list(m: StoreModel, ids: Seq<Seq<char>>)
    requires
        inv(m),
        forall|a: int, b: int| 0 <= a < b < ids.len() ==> ids[a] != ids[b],
        forall|k: int|
            0 <= k < ids.len() ==> has_note(m.rows, ids[k]) && !m.rows[find_note(
                m.rows,
                ids[k],
            )].note.is_trashed,
        forall|j: int|
            0 <= j < m.rows.len() && !m.rows[j].note.is_trashed ==> !m.rows[j].note.is_pinned
                && ids.contains(m.rows[j].note.id),
    ensures
        ({
            let l = sort_active(active_notes(spec_reorder(m.rows, ids)));
            &&& l.len() == ids.len()
            &&& forall|k: int| 0 <= k < ids.len() ==> l[k].id == ids[k] && l[k].sort_order == k
        }),
{
    broadcast use vstd::seq_lib::group_to_multiset_ensures, vstd::multiset::group_multiset_axioms;

    let rows1 = spec_reorder(m.rows, ids);
    lemma_reorder_frame(m.rows, ids);
    let expected = Seq::new(ids.len() as nat, |k: int| rows1[find_note(m.rows, ids[k])].note);
    assert forall|k: int| 0 <= k < ids.len() implies expected[k].id == ids[k]
        && expected[k].sort_order == k && !expected[k].is_trashed && !expected[k].is_pinned by {
        lemma_find_note(m.rows, ids[k]);
        lemma_reorder_assigns(m.rows, ids, k);
    }
    assert(strictly_sorted_active(expected)) by {
        assert(forall|a: int, b: int|
            0 <= a < b < expected.len() ==> le_active(expected[a], expected[b]) && !le_active(
                expected[b],
                expected[a],
            ));
    }
    let acts = active_notes(rows1);
    lemma_sort_active(acts);
    let l = sort_active(acts);
    assert(forall|i: int, j: int|
        0 <= i < j < rows1.len() && !rows1[i].note.is_trashed && !rows1[j].note.is_trashed
            ==> rows1[i].note != rows1[j].note) by {
        assert(forall|i: int, j: int|
            0 <= i < j < rows1.len() ==> rows1[i].note.id != rows1[j].note.id);
    }
    assert forall|x: NoteModel|
        expected.to_multiset().count(x) == acts.to_multiset().count(x) by {
        lemma_active_notes_count(rows1, x);
        assert(forall|a: int, b: int| 0 <= a < b < expected.len() ==> expected[a] != expected[b]);
        lemma_distinct_count(expected, x);
        if expected.contains(x) {
            let k = choose|k: int| 0 <= k < expected.len() && expected[k] == x;
            let i = find_note(m.rows, ids[k]);
            lemma_find_note(m.rows, ids[k]);
            assert(!rows1[i].note.is_trashed && rows1[i].note == x);
            assert(acts.to_multiset().count(x) == 1);
        } else {
            if acts.to_multiset().count(x) == 1 {
                let j = choose|j: int|
                    0 <= j < rows1.len() && !rows1[j].note.is_trashed && rows1[j].note == x;
                assert(ids.contains(m.rows[j].note.id));
                let k = choose|k: int| 0 <= k < ids.len() && ids[k] == m.rows[j].note.id;
                let i = find_note(m.rows, ids[k]);
                lemma_find_note(m.rows, ids[k]);
                assert(i == j) by {
                    if i != j {
                        assert(m.rows[i].note.id == m.rows[j].note.id);
                    }
                }
                assert(expected[k] == x);
            }
            assert(acts.to_multiset().count(x) <= 1);
            if acts.to_multiset().count(x) > 0 {
                assert(acts.to_multiset().count(x) == 1);
                assert(false);
            }
        }
    }
    assert(expected.to_multiset() =~= acts.to_multiset());
    lemma_sorted_perm_unique(expected, l);
}

/// Trash then restore on an engine-placed draft round-trips: the file path
/// points back under the drafts directory where it started, the trash flag
/// and stamp are clear, and the content is unchanged.
pub proof fn lemma_trash_restore_roundtrip(m: StoreModel, id: Seq<char>, now: int)
    requires
        inv(m),
        has_note(m.rows, id),
        ({
            let r = m.rows[find_note(m.rows, id)].note;
            &&& !r.is_trashed
            &&& r.storage == NoteStorage::Draft
            &&& spec_file_name(r.file_path).len() > 0
            &&& r.file_path == spec_join(m.drafts_dir, spec_file_name(r.file_path))
            &&& m.contents.contains_key(r.file_path)
        }),
    ensures
        ({
            let i = find_note(m.rows, id);
            let orig = m.rows[i].note;
            let (m1, r1) = spec_trash(m, id, now);
            let (m2, r2) = spec_restore(m1, id);
            &&& r1 is Ok
            &&& r2 is Ok
            &&& r2.unwrap().file_path == orig.file_path
            &&& !r2.unwrap().is_trashed
            &&& r2.unwrap().trashed_at is None
            &&& find_note(m2.rows, id) == i
            &&& m2.rows[i].note == r2.unwrap()
            &&& m2.contents.contains_key(orig.file_path)
            &&& m2.contents[orig.file_path] == m.contents[orig.file_path]
        }),
{
    let i = find_note(m.rows, id);
    lemma_find_note(m.rows, id);
    let orig = m.rows[i].note;
    let name = spec_file_name(orig.file_path);
    let (m1, r1) = spec_trash(m, id, now);
    lemma_file_name_has_no_slash(orig.file_path);
    lemma_file_name_join(m.trash_dir, name);
    lemma_file_name_join(m.drafts_dir, name);
    assert(forall|j: int| 0 <= j < i ==> m1.rows[j] == m.rows[j]);
    lemma_find_note_at(m1.rows, id, i);
    let (m2, r2) = spec_restore(m1, id);
    assert(forall|j: int| 0 <= j < i ==> m2.rows[j] == m.rows[j]);
    lemma_find_note_at(m2.rows, id, i);
}

/// A file name never holds a separator.
pub proof fn lemma_file_name_has_no_slash(p: Seq<char>)
    ensures
        forall|j: int| 0 <= j < spec_file_name(p).len() ==> spec_file_name(p)[j] != '/',
    decreases p.len(),
{
    if p.len() == 0 {
    } else if p.last() == '/' {
    } else {
        lemma_file_name_has_no_slash(p.drop_last());
        let r = spec_file_name(p);
        let d = spec_file_name(p.drop_last());
        assert forall|j: int| 0 <= j < r.len() implies r[j] != '/' by {
            if j < d.len() {
                assert(r[j] == d[j]);
            } else {
                assert(r[j] == p.last());
            }
        }
    }
}

/// The file name of a join is the joined name, when the name holds no
/// separator.
pub proof fn lemma_file_name_join(dir: Seq<char>, name: Seq<char>)
    requires
        forall|j: int| 0 <= j < name.len() ==> name[j] != '/',
    ensures
        spec_file_name(spec_join(dir, name)) == name,
{
    let p = spec_join(dir, name);
    reveal_strlit("/");
    let b = dir.len() + 1;
    assert(p[b - 1] == '/');
    assert(forall|j: int| b <= j < p.len() ==> p[j] == name[j - b] && p[j] != '/');
    crate::trash::lemma_file_name_skip(p, b as int);
    assert(p.skip(b as int) =~= name);
}

/// Importing a path already tracked as saved updates that row in place: no
/// row is added, the row keeps its identity, and a trashed row comes back
/// with its trash flag and stamp cleared.
pub proof fn lemma_import_tracked_saved(
    m: StoreModel,
    path: Seq<char>,
    id_new: Seq<char>,
    content: Seq<char>,
    bm: Option<Seq<u8>>,
    now: int,
)
    requires
        inv(m),
        find_by_path(m.rows, path) != -1,
        m.rows[find_by_path(m.rows, path)].note.storage == NoteStorage::Saved,
    ensures
        ({
            let i = find_by_path(m.rows, path);
            let (m1, r) = spec_import(m, path, path, id_new, content, bm, now);
            &&& r is Ok
            &&& m1.rows.len() == m.rows.len()
            &&& m1.rows[i].note.id == m.rows[i].note.id
            &&& !m1.rows[i].note.is_trashed
            &&& m1.rows[i].note.trashed_at is None
            &&& r.unwrap() == m1.rows[i].note
        }),
{
    crate::lifecycle::lemma_find_by_path(m.rows, path);
}

/// Unpinning a pinned note resets its interaction time to the unpin time and
/// leaves the pin ceiling alone.
pub proof fn lemma_unpin_resets_interaction(m: StoreModel, id: Seq<char>, now: int)
    requires
        has_note(m.rows, id),
        m.rows[find_note(m.rows, id)].note.is_pinned,
    ensures
        ({
            let (m1, r) = spec_set_pinned(m, id, false, now);
            &&& r is Ok
            &&& r.unwrap().last_interaction == now
            &&& !r.unwrap().is_pinned
            &&& m1.rows == m.rows.update(
                find_note(m.rows, id),
                RowModel { note: r.unwrap(), ..m.rows[find_note(m.rows, id)] },
            )
        }),
{
    lemma_find_note(m.rows, id);
}

/// Sorted with no two elements tied under the order.
pub open spec fn strictly_sorted_active(s: Seq<NoteModel>) -> bool {
    forall|i: int, j: int|
        0 <= i < j < s.len() ==> le_active(s[i], s[j]) && !le_active(s[j], s[i])
}

/// A sorted permutation of a strictly sorted sequence is that sequence: with
/// no ties, the display order is unique.
pub proof fn lemma_sorted_perm_unique(a: Seq<NoteModel>, b: Seq<NoteModel>)
    requires
        strictly_sorted_active(a),
        sorted_active(b),
        a.to_multiset() == b.to_multiset(),
    ensures
        a == b,
    decreases a.len(),
{
    broadcast use vstd::seq_lib::group_to_multiset_ensures, vstd::multiset::group_multiset_axioms;

    assert(a.len() == a.to_multiset().len());
    assert(b.len() == b.to_multiset().len());
    if a.len() == 0 {
        assert(b.len() == 0);
        assert(a =~= b);
    } else {
        assert(b.len() == a.len());
        assert(a.to_multiset().count(a[0]) > 0) by {
            assert(a.contains(a[0]));
        }
        assert(b.contains(a[0]));
        let w = choose|w: int| 0 <= w < b.len() && b[w] == a[0];
        assert(b.to_multiset().count(b[0]) > 0) by {
            assert(b.contains(b[0]));
        }
        assert(a.contains(b[0]));
        let v = choose|v: int| 0 <= v < a.len() && a[v] == b[0];
        assert(le_active(b[0], a[0])) by {
            if w > 0 {
                assert(le_active(b[0], b[w]));
            }
        }
        assert(v == 0) by {
            if v > 0 {
                assert(!le_active(a[v], a[0]));
            }
        }
        assert(a[0] == b[0]);
        let at = a.remove(0);
        let bt = b.remove(0);
        assert(at.to_multiset() =~= a.to_multiset().remove(a[0]));
        assert(bt.to_multiset() =~= b.to_multiset().remove(b[0]));
        assert(strictly_sorted_active(at)) by {
            assert(forall|i: int| 0 <= i < at.len() ==> at[i] == a[i + 1]);
        }
        assert(sorted_active(bt)) by {
            assert(forall|i: int| 0 <= i < bt.len() ==> bt[i] == b[i + 1]);
        }
        lemma_sorted_perm_unique(at, bt);
        assert(a =~= b) by {
            assert(forall|i: int| 1 <= i < a.len() ==> a[i] == at[i - 1] && b[i] == bt[i - 1]);
        }
    }
}

/// Every non-trashed row's note is on the active listing.
pub proof fn lemma_active_notes_contains(rows: Seq<RowModel>, j: int)
    requires
        0 <= j < rows.len(),
        !rows[j].note.is_trashed,
    ensures
        active_notes(rows).contains(rows[j].note),
    decreases rows.len(),
{
    if j == 0 {
        assert(active_notes(rows)[0] == rows[0].note);
    } else {
        let t = rows.skip(1);
        assert(t[j - 1] == rows[j]);
        lemma_active_notes_contains(t, j - 1);
        let k = choose|k: int| 0 <= k < active_notes(t).len() && active_notes(t)[k] == rows[j].note;
        let head: int = if !rows[0].note.is_trashed {
            1
        } else {
            0
        };
        assert(active_notes(rows)[k + head] == rows[j].note);
    }
}

/// Everything on the active listing is some non-trashed row's note.
pub proof fn lemma_active_notes_member(rows: Seq<RowModel>, x: NoteModel)
    requires
        active_notes(rows).contains(x),
    ensures
        exists|j: int| 0 <= j < rows.len() && !rows[j].note.is_trashed && rows[j].note == x,
    decreases rows.len(),
{
    let c = active_notes(rows);
    let k = choose|k: int| 0 <= k < c.len() && c[k] == x;
    let head: int = if !rows[0].note.is_trashed {
        1
    } else {
        0
    };
    if k < head {
        assert(rows[0].note == x);
    } else {
        assert(active_notes(rows.skip(1))[k - head] == x);
        lemma_active_notes_member(rows.skip(1), x);
        let j = choose|j: int|
            0 <= j < rows.skip(1).len() && !rows.skip(1)[j].note.is_trashed && rows.skip(1)[j].note
                == x;
        assert(rows[j + 1] == rows.skip(1)[j]);
    }
}

/// On rows whose non-trashed notes are pairwise distinct values, the active
/// listing counts each note at most once.
pub proof fn lemma_active_notes_count(rows: Seq<RowModel>, x: NoteModel)
    requires
        forall|i: int, j: int|
            0 <= i < j < rows.len() && !rows[i].note.is_trashed && !rows[j].note.is_trashed
                ==> rows[i].note != rows[j].note,
    ensures
        active_notes(rows).to_multiset().count(x) <= 1,
        active_notes(rows).to_multiset().count(x) == 1 <==> exists|j: int|
            0 <= j < rows.len() && !rows[j].note.is_trashed && rows[j].note == x,
    decreases rows.len(),
{
    broadcast use vstd::seq_lib::group_to_multiset_ensures, vstd::multiset::group_multiset_axioms;

    if rows.len() == 0 {
        assert(active_notes(rows).to_multiset().count(x) == 0) by {
            assert(!active_notes(rows).contains(x));
        }
    } else {
        let t = rows.skip(1);
        assert(forall|i: int, j: int|
            0 <= i < j < t.len() && !t[i].note.is_trashed && !t[j].note.is_trashed ==> t[i].note
                != t[j].note) by {
            assert(forall|i: int| 0 <= i < t.len() ==> t[i] == rows[i + 1]);
        }
        lemma_active_notes_count(t, x);
        let head = if !rows[0].note.is_trashed {
            seq![rows[0].note]
        } else {
            Seq::<NoteModel>::empty()
        };
        vstd::seq_lib::lemma_multiset_commutative(head, active_notes(t));
        assert(head.to_multiset().count(x) == (if !rows[0].note.is_trashed && rows[0].note == x {
            1int
        } else {
            0int
        })) by {
            if !rows[0].note.is_trashed {
                assert(head =~= Seq::<NoteModel>::empty().push(rows[0].note));
                assert(Seq::<NoteModel>::empty().push(rows[0].note).to_multiset()
                    =~= Seq::<NoteModel>::empty().to_multiset().insert(rows[0].note));
                assert(forall|y: NoteModel|
                    Seq::<NoteModel>::empty().to_multiset().count(y) == 0);
            } else {
                assert(!head.contains(x));
            }
        }
        if !rows[0].note.is_trashed && rows[0].note == x {
            assert(active_notes(t).to_multiset().count(x) == 0) by {
                if active_notes(t).to_multiset().count(x) == 1 {
                    let j = choose|j: int|
                        0 <= j < t.len() && !t[j].note.is_trashed && t[j].note == x;
                    assert(rows[j + 1] == t[j]);
                    assert(rows[0].note != rows[j + 1].note);
                }
            }
        }
        if active_notes(rows).to_multiset().count(x) == 1 {
            if head.to_multiset().count(x) == 1 {
                assert(rows[0].note == x && !rows[0].note.is_trashed);
            } else {
                let j = choose|j: int| 0 <= j < t.len() && !t[j].note.is_trashed && t[j].note == x;
                assert(rows[j + 1] == t[j]);
            }
        }
        if exists|j: int| 0 <= j < rows.len() && !rows[j].note.is_trashed && rows[j].note == x {
            let j = choose|j: int| 0 <= j < rows.len() && !rows[j].note.is_trashed && rows[j].note
                == x;
            if j == 0 {
            } else {
                assert(t[j - 1] == rows[j]);
            }
        }
    }
}

/// With unique ids, a row is found at its own index.
pub proof fn lemma_find_note_unique(rows: Seq<RowModel>, j: int)
    requires
        ids_unique(rows),
        0 <= j < rows.len(),
    ensures
        find_note(rows, rows[j].note.id) == j,
{
    lemma_find_note_at(rows, rows[j].note.id, j);
}

/// Trashing one id changes at most that id's row, never removes a row, and
/// leaves already-trashed rows exactly as they are.
pub proof fn lemma_trash_frame(m: StoreModel, id: Seq<char>, now: int)
    ensures
        ({
            let m1 = spec_trash(m, id, now).0;
            &&& m1.rows.len() == m.rows.len()
            &&& forall|j: int|
                0 <= j < m.rows.len() && m.rows[j].note.id != id ==> m1.rows[j] == m.rows[j]
            &&& forall|j: int| 0 <= j < m.rows.len() ==> m1.rows[j].note.id == m.rows[j].note.id
            &&& forall|j: int|
                0 <= j < m.rows.len() && m.rows[j].note.is_trashed ==> m1.rows[j] == m.rows[j]
            &&& m1.settings == m.settings
            &&& m1.app_state == m.app_state
            &&& m1.drafts_dir == m.drafts_dir
            &&& m1.trash_dir == m.trash_dir
        }),
{
    lemma_find_note(m.rows, id);
}

/// A trash pass keeps every row's position and id, leaves rows whose id is
/// not listed unchanged, and leaves already-trashed rows exactly as they are.
pub proof fn lemma_trash_fold_frame(m: StoreModel, ids: Seq<Seq<char>>, now: int)
    ensures
        ({
            let m1 = trash_fold(m, ids, now);
            &&& m1.rows.len() == m.rows.len()
            &&& forall|j: int| 0 <= j < m.rows.len() ==> m1.rows[j].note.id == m.rows[j].note.id
            &&& forall|j: int|
                0 <= j < m.rows.len() && !ids.contains(m.rows[j].note.id) ==> m1.rows[j]
                    == m.rows[j]
            &&& forall|j: int|
                0 <= j < m.rows.len() && m.rows[j].note.is_trashed ==> m1.rows[j] == m.rows[j]
            &&& m1.settings == m.settings
            &&& m1.app_state == m.app_state
            &&& m1.drafts_dir == m.drafts_dir
            &&& m1.trash_dir == m.trash_dir
        }),
    decreases ids.len(),
{
    if ids.len() > 0 {
        lemma_trash_frame(m, ids[0], now);
        let ms = spec_trash(m, ids[0], now).0;
        lemma_trash_fold_frame(ms, ids.skip(1), now);
        assert forall|j: int|
            0 <= j < m.rows.len() && !ids.contains(m.rows[j].note.id) implies trash_fold(
            m,
            ids,
            now,
        ).rows[j] == m.rows[j] by {
            assert(ids[0] != m.rows[j].note.id);
            assert(ms.rows[j] == m.rows[j]);
            assert(!ids.skip(1).contains(ms.rows[j].note.id)) by {
                if ids.skip(1).contains(ms.rows[j].note.id) {
                    let k = choose|k: int|
                        0 <= k < ids.skip(1).len() && ids.skip(1)[k] == ms.rows[j].note.id;
                    assert(ids[k + 1] == m.rows[j].note.id);
                }
            }
        }
    }
}

/// After a trash pass, a listed active row is either trashed at the pass's
/// time or exactly as it was, its own file move having failed; a saved row is
/// always trashed.
pub proof fn lemma_trash_fold_hits(m: StoreModel, ids: Seq<Seq<char>>, now: int, j: int)
    requires
        ids_unique(m.rows),
        0 <= j < m.rows.len(),
        !m.rows[j].note.is_trashed,
        ids.contains(m.rows[j].note.id),
    ensures
        ({
            let m1 = trash_fold(m, ids, now);
            &&& m1.rows.len() == m.rows.len()
            &&& (m1.rows[j] == m.rows[j] || (m1.rows[j].note.is_trashed
                && m1.rows[j].note.trashed_at == Some(now) && m1.rows[j].note.id
                == m.rows[j].note.id))
            &&& (m.rows[j].note.storage == NoteStorage::Saved ==> m1.rows[j].note.is_trashed
                && m1.rows[j].note.trashed_at == Some(now))
        }),
    decreases ids.len(),
{
    let id = m.rows[j].note.id;
    let ms = spec_trash(m, ids[0], now).0;
    lemma_trash_frame(m, ids[0], now);
    assert(ids_unique(ms.rows));
    if ids[0] == id {
        lemma_find_note_unique(m.rows, j);
        let r0 = m.rows[j].note;
        if r0.storage == NoteStorage::Draft && (spec_file_name(r0.file_path).len() == 0
            || !m.contents.contains_key(r0.file_path)) {
            assert(ms == m);
            if ids.skip(1).contains(id) {
                lemma_trash_fold_hits(m, ids.skip(1), now, j);
            } else {
                lemma_trash_fold_frame(m, ids.skip(1), now);
            }
        } else {
            assert(ms.rows[j].note.is_trashed && ms.rows[j].note.trashed_at == Some(now));
            lemma_trash_fold_frame(ms, ids.skip(1), now);
        }
    } else {
        assert(ms.rows[j] == m.rows[j]);
        assert(ids.skip(1).contains(id)) by {
            let k = choose|k: int| 0 <= k < ids.len() && ids[k] == id;
            assert(k >= 1);
            assert(ids.skip(1)[k - 1] == id);
        }
        lemma_trash_fold_hits(ms, ids.skip(1), now, j);
    }
}

/// Deleting one id leaves every other note in place with its value, and
/// preserves unique ids.
pub proof fn lemma_delete_frame(m: StoreModel, x: Seq<char>, idj: Seq<char>)
    requires
        ids_unique(m.rows),
        idj != x,
    ensures
        ({
            let m1 = spec_delete(m, x).0;
            &&& ids_unique(m1.rows)
            &&& has_note(m1.rows, idj) == has_note(m.rows, idj)
            &&& (has_note(m.rows, idj) ==> m1.rows[find_note(m1.rows, idj)] == m.rows[find_note(
                m.rows,
                idj,
            )])
            &&& m1.settings == m.settings
            &&& m1.app_state == m.app_state
            &&& m1.drafts_dir == m.drafts_dir
            &&& m1.trash_dir == m.trash_dir
        }),
{
    lemma_find_note(m.rows, x);
    let i = find_note(m.rows, x);
    if i != -1 {
        let rows1 = m.rows.remove(i);
        assert forall|a: int, b: int|
            0 <= a < b < rows1.len() implies rows1[a].note.id != rows1[b].note.id by {
            let a0 = if a < i {
                a
            } else {
                a + 1
            };
            let b0 = if b < i {
                b
            } else {
                b + 1
            };
            assert(rows1[a] == m.rows[a0]);
            assert(rows1[b] == m.rows[b0]);
        }
        lemma_find_note(m.rows, idj);
        let k = find_note(m.rows, idj);
        if k != -1 {
            assert(k != i);
            let k1 = if k < i {
                k
            } else {
                k - 1
            };
            assert(rows1[k1] == m.rows[k]);
            assert forall|q: int| 0 <= q < k1 implies rows1[q].note.id != idj by {
                let q0 = if q < i {
                    q
                } else {
                    q + 1
                };
                assert(rows1[q] == m.rows[q0]);
            }
            lemma_find_note_at(rows1, idj, k1);
        } else {
            lemma_find_note(rows1, idj);
            if find_note(rows1, idj) != -1 {
                let w = find_note(rows1, idj);
                let w0 = if w < i {
                    w
                } else {
                    w + 1
                };
                assert(rows1[w] == m.rows[w0]);
                assert(false);
            }
        }
    }
}

/// Deleting an id removes it for good.
pub proof fn lemma_delete_removes(m: StoreModel, x: Seq<char>)
    requires
        ids_unique(m.rows),
    ensures
        !has_note(spec_delete(m, x).0.rows, x),
        ids_unique(spec_delete(m, x).0.rows),
{
    lemma_find_note(m.rows, x);
    let i = find_note(m.rows, x);
    if i == -1 {
    } else {
        let rows1 = m.rows.remove(i);
        assert forall|a: int, b: int|
            0 <= a < b < rows1.len() implies rows1[a].note.id != rows1[b].note.id by {
            let a0 = if a < i {
                a
            } else {
                a + 1
            };
            let b0 = if b < i {
                b
            } else {
                b + 1
            };
            assert(rows1[a] == m.rows[a0]);
            assert(rows1[b] == m.rows[b0]);
        }
        lemma_find_note(rows1, x);
        if find_note(rows1, x) != -1 {
            let w = find_note(rows1, x);
            let w0 = if w < i {
                w
            } else {
                w + 1
            };
            assert(rows1[w] == m.rows[w0]);
            assert(m.rows[w0].note.id == x && w0 != i);
            assert(false);
        }
    }
}

/// A note absent from the store stays absent through a deletion.
pub proof fn lemma_delete_keeps_absent(m: StoreModel, x: Seq<char>, idj: Seq<char>)
    requires
        !has_note(m.rows, idj),
    ensures
        !has_note(spec_delete(m, x).0.rows, idj),
{
    lemma_find_note(m.rows, x);
    lemma_find_note(m.rows, idj);
    let i = find_note(m.rows, x);
    if i != -1 {
        let rows1 = m.rows.remove(i);
        lemma_find_note(rows1, idj);
        if find_note(rows1, idj) != -1 {
            let w = find_note(rows1, idj);
            let w0 = if w < i {
                w
            } else {
                w + 1
            };
            assert(rows1[w] == m.rows[w0]);
            assert(false);
        }
    }
}

/// A drop pass leaves an unlisted note in place with its value.
pub proof fn lemma_drop_fold_frame(m: StoreModel, ids: Seq<Seq<char>>, idj: Seq<char>)
    requires
        ids_unique(m.rows),
        !ids.contains(idj),
    ensures
        ({
            let m1 = drop_fold(m, ids);
            &&& ids_unique(m1.rows)
            &&& has_note(m1.rows, idj) == has_note(m.rows, idj)
            &&& (has_note(m.rows, idj) ==> m1.rows[find_note(m1.rows, idj)] == m.rows[find_note(
                m.rows,
                idj,
            )])
        }),
    decreases ids.len(),
{
    if ids.len() > 0 {
        assert(ids[0] != idj);
        lemma_delete_frame(m, ids[0], idj);
        let ms = spec_delete(m, ids[0]).0;
        assert(!ids.skip(1).contains(idj)) by {
            if ids.skip(1).contains(idj) {
                let k = choose|k: int| 0 <= k < ids.skip(1).len() && ids.skip(1)[k] == idj;
                assert(ids[k + 1] == idj);
            }
        }
        lemma_drop_fold_frame(ms, ids.skip(1), idj);
    }
}

/// A drop pass removes every listed note.
pub proof fn lemma_drop_fold_removes(m: StoreModel, ids: Seq<Seq<char>>, x: Seq<char>)
    requires
        ids_unique(m.rows),
        ids.contains(x),
    ensures
        !has_note(drop_fold(m, ids).rows, x),
    decreases ids.len(),
{
    let ms = spec_delete(m, ids[0]).0;
    if ids[0] == x {
        lemma_delete_removes(m, x);
        lemma_drop_fold_keeps_absent(ms, ids.skip(1), x);
    } else {
        lemma_delete_frame(m, ids[0], x);
        assert(ids.skip(1).contains(x)) by {
            let k = choose|k: int| 0 <= k < ids.len() && ids[k] == x;
            assert(k >= 1);
            assert(ids.skip(1)[k - 1] == x);
        }
        lemma_drop_fold_removes(ms, ids.skip(1), x);
    }
}

/// A note absent from the store stays absent through a drop pass.
pub proof fn lemma_drop_fold_keeps_absent(m: StoreModel, ids: Seq<Seq<char>>, x: Seq<char>)
    requires
        !has_note(m.rows, x),
    ensures
        !has_note(drop_fold(m, ids).rows, x),
    decreases ids.len(),
{
    if ids.len() > 0 {
        lemma_delete_keeps_absent(m, ids[0], x);
        lemma_drop_fold_keeps_absent(spec_delete(m, ids[0]).0, ids.skip(1), x);
    }
}

/// A qualifying row's id is on the expiry candidate list.
pub proof fn lemma_candidate_contains(rows: Seq<RowModel>, cutoff: int, j: int)
    requires
        0 <= j < rows.len(),
        !rows[j].note.is_trashed,
        !rows[j].note.is_pinned,
        rows[j].note.last_interaction <= cutoff,
    ensures
        candidate_ids(rows, cutoff).contains(rows[j].note.id),
    decreases rows.len(),
{
    if j == 0 {
        assert(candidate_ids(rows, cutoff)[0] == rows[0].note.id);
    } else {
        let t = rows.skip(1);
        assert(t[j - 1] == rows[j]);
        lemma_candidate_contains(t, cutoff, j - 1);
        let k = choose|k: int|
            0 <= k < candidate_ids(t, cutoff).len() && candidate_ids(t, cutoff)[k] == rows[j].note.id;
        let head: int = if !rows[0].note.is_trashed && !rows[0].note.is_pinned
            && rows[0].note.last_interaction <= cutoff {
            1
        } else {
            0
        };
        assert(candidate_ids(rows, cutoff)[k + head] == rows[j].note.id);
    }
}

/// Everything on the expiry candidate list names a qualifying row.
pub proof fn lemma_candidate_member(rows: Seq<RowModel>, cutoff: int, x: Seq<char>)
    requires
        candidate_ids(rows, cutoff).contains(x),
    ensures
        exists|j: int|
            0 <= j < rows.len() && rows[j].note.id == x && !rows[j].note.is_trashed
                && !rows[j].note.is_pinned && rows[j].note.last_interaction <= cutoff,
    decreases rows.len(),
{
    let c = candidate_ids(rows, cutoff);
    let k = choose|k: int| 0 <= k < c.len() && c[k] == x;
    let head: int = if !rows[0].note.is_trashed && !rows[0].note.is_pinned
        && rows[0].note.last_interaction <= cutoff {
        1
    } else {
        0
    };
    if k < head {
        assert(rows[0].note.id == x);
    } else {
        assert(candidate_ids(rows.skip(1), cutoff)[k - head] == x);
        lemma_candidate_member(rows.skip(1), cutoff, x);
        let j = choose|j: int|
            0 <= j < rows.skip(1).len() && rows.skip(1)[j].note.id == x && !rows.skip(
                1,
            )[j].note.is_trashed && !rows.skip(1)[j].note.is_pinned && rows.skip(
                1,
            )[j].note.last_interaction <= cutoff;
        assert(rows[j + 1] == rows.skip(1)[j]);
    }
}

/// A trashed row past the cutoff is on the drop list.
pub proof fn lemma_drop_ids_contains(rows: Seq<RowModel>, cutoff: int, j: int)
    requires
        0 <= j < rows.len(),
        rows[j].note.is_trashed,
        ({
            match rows[j].note.trashed_at {
                Some(t) => t <= cutoff,
                None => false,
            }
        }),
    ensures
        drop_ids(rows, cutoff).contains(rows[j].note.id),
    decreases rows.len(),
{
    if j == 0 {
        assert(drop_ids(rows, cutoff)[0] == rows[0].note.id);
    } else {
        let t = rows.skip(1);
        assert(t[j - 1] == rows[j]);
        lemma_drop_ids_contains(t, cutoff, j - 1);
        let k = choose|k: int|
            0 <= k < drop_ids(t, cutoff).len() && drop_ids(t, cutoff)[k] == rows[j].note.id;
        let head: int = if rows[0].note.is_trashed && (match rows[0].note.trashed_at {
            Some(t0) => t0 <= cutoff,
            None => false,
        }) {
            1
        } else {
            0
        };
        assert(drop_ids(rows, cutoff)[k + head] == rows[j].note.id);
    }
}

/// Everything on the drop list names a trashed row past the cutoff.
pub proof fn lemma_drop_ids_member(rows: Seq<RowModel>, cutoff: int, x: Seq<char>)
    requires
        drop_ids(rows, cutoff).contains(x),
    ensures
        exists|j: int|
            0 <= j < rows.len() && rows[j].note.id == x && rows[j].note.is_trashed && (match rows[j].note.trashed_at {
                Some(t) => t <= cutoff,
                None => false,
            }),
    decreases rows.len(),
{
    let c = drop_ids(rows, cutoff);
    let k = choose|k: int| 0 <= k < c.len() && c[k] == x;
    let head: int = if rows[0].note.is_trashed && (match rows[0].note.trashed_at {
        Some(t0) => t0 <= cutoff,
        None => false,
    }) {
        1
    } else {
        0
    };
    if k < head {
        assert(rows[0].note.id == x);
    } else {
        assert(drop_ids(rows.skip(1), cutoff)[k - head] == x);
        lemma_drop_ids_member(rows.skip(1), cutoff, x);
        let j = choose|j: int|
            0 <= j < rows.skip(1).len() && rows.skip(1)[j].note.id == x && rows.skip(
                1,
            )[j].note.is_trashed && (match rows.skip(1)[j].note.trashed_at {
                Some(t) => t <= cutoff,
                None => false,
            });
        assert(rows[j + 1] == rows.skip(1)[j]);
    }
}

/// With the expiry setting at zero and a positive retention, a sweep trashes
/// every unpinned active note whose last interaction is at or before now —
/// except one whose own file move fails, which the sweep skips and leaves
/// exactly as it was; a saved note is always trashed.
pub proof fn lemma_sweep_expiry_zero(m: StoreModel, now: int, j: int)
    requires
        inv(m),
        m.settings.contains_key("expiry_minutes"@),
        spec_parse_i64(m.settings["expiry_minutes"@]) == Some(0int),
        m.settings.contains_key("trash_retention_days"@),
        ({
            match spec_parse_i64(m.settings["trash_retention_days"@]) {
                Some(v) => v >= 1,
                None => false,
            }
        }),
        0 <= j < m.rows.len(),
        !m.rows[j].note.is_trashed,
        !m.rows[j].note.is_pinned,
        m.rows[j].note.last_interaction <= now,
    ensures
        ({
            let mf = spec_sweep(m, now);
            let id = m.rows[j].note.id;
            &&& has_note(mf.rows, id)
            &&& (mf.rows[find_note(mf.rows, id)].note == m.rows[j].note
                || (mf.rows[find_note(mf.rows, id)].note.is_trashed && mf.rows[find_note(
                mf.rows,
                id,
            )].note.trashed_at == Some(now)))
            &&& (m.rows[j].note.storage == NoteStorage::Saved ==> mf.rows[find_note(
                mf.rows,
                id,
            )].note.is_trashed)
        }),
{
    let id = m.rows[j].note.id;
    let td = spec_parse_i64(m.settings["trash_retention_days"@]).unwrap();
    let cand = candidate_ids(m.rows, now - 0 * 60000);
    lemma_candidate_contains(m.rows, now, j);
    assert(now - 0 * 60000 == now);
    lemma_trash_fold_hits(m, cand, now, j);
    lemma_trash_fold_frame(m, cand, now);
    let m3 = trash_fold(m, cand, now);
    assert(ids_unique(m3.rows));
    lemma_find_note_unique(m3.rows, j);
    let cutoff2 = now - td * 86400000;
    assert(cutoff2 < now) by (nonlinear_arith)
        requires
            td >= 1,
            cutoff2 == now - td * 86400000,
    ;
    let dids = drop_ids(m3.rows, cutoff2);
    assert(!dids.contains(id)) by {
        if dids.contains(id) {
            lemma_drop_ids_member(m3.rows, cutoff2, id);
            let w = choose|w: int|
                0 <= w < m3.rows.len() && m3.rows[w].note.id == id && m3.rows[w].note.is_trashed
                    && (match m3.rows[w].note.trashed_at {
                    Some(t) => t <= cutoff2,
                    None => false,
                });
            assert(w == j) by {
                if w != j {
                    assert(m3.rows[w].note.id == m.rows[w].note.id);
                    assert(m.rows[w].note.id != m.rows[j].note.id);
                }
            }
        }
    }
    lemma_drop_fold_frame(m3, dids, id);
}

/// With the retention setting at zero, a sweep permanently removes every note
/// already in the trash whose trash time is at or before now.
pub proof fn lemma_sweep_retention_zero(m: StoreModel, now: int, j: int)
    requires
        inv(m),
        m.settings.contains_key("expiry_minutes"@),
        spec_parse_i64(m.settings["expiry_minutes"@]) is Some,
        m.settings.contains_key("trash_retention_days"@),
        spec_parse_i64(m.settings["trash_retention_days"@]) == Some(0int),
        0 <= j < m.rows.len(),
        m.rows[j].note.is_trashed,
        ({
            match m.rows[j].note.trashed_at {
                Some(t) => t <= now,
                None => false,
            }
        }),
    ensures
        !has_note(spec_sweep(m, now).rows, m.rows[j].note.id),
{
    let id = m.rows[j].note.id;
    let em = spec_parse_i64(m.settings["expiry_minutes"@]).unwrap();
    let cand = candidate_ids(m.rows, now - em * 60000);
    lemma_trash_fold_frame(m, cand, now);
    let m3 = trash_fold(m, cand, now);
    assert(m3.rows[j] == m.rows[j]);
    assert(ids_unique(m3.rows));
    assert(now - 0 * 86400000 == now);
    lemma_drop_ids_contains(m3.rows, now, j);
    lemma_drop_fold_removes(m3, drop_ids(m3.rows, now), id);
}

/// A note unpinned at the sweep's own time survives the sweep whenever the
/// expiry window is positive: unpinning gave it a fresh interaction time.
pub proof fn lemma_unpin_survives_sweep(m: StoreModel, id: Seq<char>, now: int)
    requires
        inv(m),
        has_note(m.rows, id),
        m.rows[find_note(m.rows, id)].note.is_pinned,
        !m.rows[find_note(m.rows, id)].note.is_trashed,
        m.settings.contains_key("expiry_minutes"@),
        ({
            match spec_parse_i64(m.settings["expiry_minutes"@]) {
                Some(v) => v >= 1,
                None => false,
            }
        }),
        m.settings.contains_key("trash_retention_days"@),
        spec_parse_i64(m.settings["trash_retention_days"@]) is Some,
    ensures
        ({
            let m1 = spec_set_pinned(m, id, false, now).0;
            let mf = spec_sweep(m1, now);
            &&& has_note(mf.rows, id)
            &&& !mf.rows[find_note(mf.rows, id)].note.is_trashed
        }),
{
    let j = find_note(m.rows, id);
    lemma_find_note(m.rows, id);
    let m1 = spec_set_pinned(m, id, false, now).0;
    let em = spec_parse_i64(m.settings["expiry_minutes"@]).unwrap();
    let td = spec_parse_i64(m.settings["trash_retention_days"@]).unwrap();
    assert(ids_unique(m1.rows)) by {
        assert(forall|a: int|
            0 <= a < m.rows.len() ==> m1.rows[a].note.id == m.rows[a].note.id);
    }
    let cutoff1 = now - em * 60000;
    assert(cutoff1 < now) by (nonlinear_arith)
        requires
            em >= 1,
            cutoff1 == now - em * 60000,
    ;
    let cand = candidate_ids(m1.rows, cutoff1);
    assert(!cand.contains(id)) by {
        if cand.contains(id) {
            lemma_candidate_member(m1.rows, cutoff1, id);
            let w = choose|w: int|
                0 <= w < m1.rows.len() && m1.rows[w].note.id == id && !m1.rows[w].note.is_trashed
                    && !m1.rows[w].note.is_pinned && m1.rows[w].note.last_interaction <= cutoff1;
            assert(w == j) by {
                if w != j {
                    assert(m1.rows[w].note.id == m.rows[w].note.id);
                    assert(m.rows[w].note.id != id);
                }
            }
            assert(m1.rows[j].note.last_interaction == now);
        }
    }
    lemma_trash_fold_frame(m1, cand, now);
    let m3 = trash_fold(m1, cand, now);
    assert(m3.rows[j] == m1.rows[j]);
    assert(ids_unique(m3.rows));
    let cutoff2 = now - td * 86400000;
    let dids = drop_ids(m3.rows, cutoff2);
    assert(!dids.contains(id)) by {
        if dids.contains(id) {
            lemma_drop_ids_member(m3.rows, cutoff2, id);
            let w = choose|w: int|
                0 <= w < m3.rows.len() && m3.rows[w].note.id == id && m3.rows[w].note.is_trashed
                    && (match m3.rows[w].note.trashed_at {
                    Some(t) => t <= cutoff2,
                    None => false,
                });
            assert(w == j) by {
                if w != j {
                    assert(m3.rows[w].note.id == m1.rows[w].note.id);
                    assert(m1.rows[w].note.id != id);
                }
            }
        }
    }
    lemma_drop_fold_frame(m3, dids, id);
    lemma_find_note_unique(m3.rows, j);
    lemma_find_note_unique(m1.rows, j);
}

} // verus!
