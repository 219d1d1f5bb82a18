//! Listing notes in display order.
//!
//! Active notes come pinned-first, then by ascending sort key; trashed notes
//! come newest trash time first, then by ascending sort key. The sort is a
//! stable insertion sort: rows that compare equal keep their row order.

use vstd::prelude::*;

use crate::store::{NoteStore, RowModel};
use crate::types::{NoteMeta, NoteModel, NotesList};

verus! {

/// Display order of active notes: pinned before unpinned, then by sort key.
pub open spec fn le_active(a: NoteModel, b: NoteModel) -> bool {
    (a.is_pinned && !b.is_pinned) || (a.is_pinned == b.is_pinned && a.sort_order <= b.sort_order)
}

/// A trashed note's trash time; zero when the stamp is missing.
pub open spec fn trashed_key(a: NoteModel) -> int {
    match a.trashed_at {
        Some(t) => t,
        None => 0,
    }
}

/// Display order of trashed notes: newest trash time first, then by sort key.
pub open spec fn le_trashed(a: NoteModel, b: NoteModel) -> bool {
    trashed_key(a) > trashed_key(b) || (trashed_key(a) == trashed_key(b) && a.sort_order
        <= b.sort_order)
}

/// `x` inserted after every element it does not precede: stable insertion.
pub open spec fn insert_active(x: NoteModel, s: Seq<NoteModel>) -> Seq<NoteModel>
    decreases s.len(),
{
    if s.len() == 0 {
        seq![x]
    } else if le_active(s[0], x) {
        seq![s[0]] + insert_active(x, s.skip(1))
    } else {
        seq![x] + s
    }
}

/// Stable insertion sort under `le_active`.
pub open spec fn sort_active(s: Seq<NoteModel>) -> Seq<NoteModel>
    decreases s.len(),
{
    if s.len() == 0 {
        s
    } else {
        insert_active(s.last(), sort_active(s.drop_last()))
    }
}

/// `x` inserted after every element it does not precede: stable insertion.
pub open spec fn insert_trashed(x: NoteModel, s: Seq<NoteModel>) -> Seq<NoteModel>
    decreases s.len(),
{
    if s.len() == 0 {
        seq![x]
    } else if le_trashed(s[0], x) {
        seq![s[0]] + insert_trashed(x, s.skip(1))
    } else {
        seq![x] + s
    }
}

/// Stable insertion sort under `le_trashed`.
pub open spec fn sort_trashed(s: Seq<NoteModel>) -> Seq<NoteModel>
    decreases s.len(),
{
    if s.len() == 0 {
        s
    } else {
        insert_trashed(s.last(), sort_trashed(s.drop_last()))
    }
}

/// The non-trashed notes, in row order.
pub open spec fn active_notes(rows: Seq<RowModel>) -> Seq<NoteModel>
    decreases rows.len(),
{
    if rows.len() == 0 {
        Seq::<NoteModel>::empty()
    } else {
        (if !rows[0].note.is_trashed {
            seq![rows[0].note]
        } else {
            Seq::<NoteModel>::empty()
        }) + active_notes(rows.skip(1))
    }
}

/// The trashed notes, in row order.
pub open spec fn trashed_notes(rows: Seq<RowModel>) -> Seq<NoteModel>
    decreases rows.len(),
{
    if rows.len() == 0 {
        Seq::<NoteModel>::empty()
    } else {
        (if rows[0].note.is_trashed {
            seq![rows[0].note]
        } else {
            Seq::<NoteModel>::empty()
        }) + trashed_notes(rows.skip(1))
    }
}

/// The note models of a metadata vector.
pub open spec fn metas_view(s: Seq<NoteMeta>) -> Seq<NoteModel> {
    s.map_values(|m: NoteMeta| m@)
}

/// Sorted under `le_active`.
pub open spec fn sorted_active(s: Seq<NoteModel>) -> bool {
    forall|i: int, j: int| 0 <= i < j < s.len() ==> le_active(s[i], s[j])
}

/// Sorted under `le_trashed`.
pub open spec fn sorted_trashed(s: Seq<NoteModel>) -> bool {
    forall|i: int, j: int| 0 <= i < j < s.len() ==> le_trashed(s[i], s[j])
}

proof fn lemma_insert_active_len(x: NoteModel, s: Seq<NoteModel>)
    ensures
        insert_active(x, s).len() == s.len() + 1,
    decreases s.len(),
{
    if s.len() == 0 {
    } else if le_active(s[0], x) {
        lemma_insert_active_len(x, s.skip(1));
    } else {
    }
}

proof fn lemma_insert_active_sorted(x: NoteModel, s: Seq<NoteModel>)
    requires
        sorted_active(s),
    ensures
        sorted_active(insert_active(x, s)),
        insert_active(x, s).len() == s.len() + 1,
        insert_active(x, s).to_multiset() == s.to_multiset().insert(x),
    decreases s.len(),
{
    broadcast use vstd::seq_lib::group_to_multiset_ensures, vstd::multiset::group_multiset_axioms;

    lemma_insert_active_len(x, s);
    if s.len() == 0 {
        assert(seq![x] =~= s.push(x));
        assert(s.push(x).to_multiset() =~= s.to_multiset().insert(x));
    } else if le_active(s[0], x) {
        let t = s.skip(1);
        assert(forall|i: int, j: int| 0 <= i < j < t.len() ==> le_active(t[i], t[j]));
        lemma_insert_active_sorted(x, t);
        let it = insert_active(x, t);
        let r = seq![s[0]] + it;
        assert forall|i: int, j: int| 0 <= i < j < r.len() implies le_active(r[i], r[j]) by {
            if i == 0 {
                assert(r[j] == it[j - 1]);
                lemma_insert_member(x, t, j - 1);
                if it[j - 1] == x {
                    assert(le_active(s[0], x));
                } else {
                    let w = choose|w: int| 0 <= w < t.len() && t[w] == it[j - 1];
                    assert(le_active(s[0], s[w + 1]));
                }
            } else {
                assert(r[i] == it[i - 1]);
                assert(r[j] == it[j - 1]);
            }
        }
        assert(r.to_multiset() =~= s.to_multiset().insert(x)) by {
            assert(s =~= seq![s[0]] + t);
            vstd::seq_lib::lemma_multiset_commutative(seq![s[0]], it);
            vstd::seq_lib::lemma_multiset_commutative(seq![s[0]], t);
        }
    } else {
        let r = seq![x] + s;
        assert forall|i: int, j: int| 0 <= i < j < r.len() implies le_active(r[i], r[j]) by {
            if i == 0 {
                lemma_le_active_total(x, s[0]);
                if j - 1 > 0 {
                    assert(le_active(s[0], s[j - 1]));
                }
                lemma_le_active_trans(x, s[0], s[j - 1]);
            }
        }
        assert(r.to_multiset() =~= s.to_multiset().insert(x)) by {
            vstd::seq_lib::lemma_multiset_commutative(seq![x], s);
            assert(seq![x] =~= Seq::<NoteModel>::empty().push(x));
            assert(Seq::<NoteModel>::empty().push(x).to_multiset()
                =~= Seq::<NoteModel>::empty().to_multiset().insert(x));
            assert(forall|y: NoteModel|
                Seq::<NoteModel>::empty().to_multiset().count(y) == 0);
        }
    }
}

/// Every element of a stable insertion is the inserted value or came from
/// the sequence.
proof fn lemma_insert_member(x: NoteModel, s: Seq<NoteModel>, k: int)
    requires
        0 <= k < insert_active(x, s).len(),
    ensures
        insert_active(x, s).len() == s.len() + 1,
        insert_active(x, s)[k] == x || exists|w: int| 0 <= w < s.len() && s[w] == insert_active(
            x,
            s,
        )[k],
    decreases s.len(),
{
    lemma_insert_active_len(x, s);
    if s.len() == 0 {
    } else if le_active(s[0], x) {
        if k == 0 {
            assert(s[0] == insert_active(x, s)[0]);
        } else {
            lemma_insert_member(x, s.skip(1), k - 1);
            let it = insert_active(x, s.skip(1));
            if it[k - 1] == x {
            } else {
                let w = choose|w: int| 0 <= w < s.skip(1).len() && s.skip(1)[w] == it[k - 1];
                assert(s[w + 1] == it[k - 1]);
            }
        }
    } else {
        if k == 0 {
        } else {
            assert(s[k - 1] == insert_active(x, s)[k]);
        }
    }
}

proof fn lemma_le_active_total(a: NoteModel, b: NoteModel)
    ensures
        le_active(a, b) || le_active(b, a),
{
}

proof fn lemma_le_active_trans(a: NoteModel, b: NoteModel, c: NoteModel)
    ensures
        le_active(a, b) && le_active(b, c) ==> le_active(a, c),
{
}

/// The active sort is sorted and a permutation of its input.
pub proof fn lemma_sort_active(s: Seq<NoteModel>)
    ensures
        sorted_active(sort_active(s)),
        sort_active(s).len() == s.len(),
        sort_active(s).to_multiset() == s.to_multiset(),
    decreases s.len(),
{
    broadcast use vstd::seq_lib::group_to_multiset_ensures, vstd::multiset::group_multiset_axioms;

    if s.len() == 0 {
    } else {
        lemma_sort_active(s.drop_last());
        lemma_insert_active_sorted(s.last(), sort_active(s.drop_last()));
        assert(s.drop_last().push(s.last()) =~= s);
        assert(s.drop_last().push(s.last()).to_multiset() =~= s.drop_last().to_multiset().insert(
            s.last(),
        ));
    }
}

proof fn lemma_insert_trashed_len(x: NoteModel, s: Seq<NoteModel>)
    ensures
        insert_trashed(x, s).len() == s.len() + 1,
    decreases s.len(),
{
    if s.len() == 0 {
    } else if le_trashed(s[0], x) {
        lemma_insert_trashed_len(x, s.skip(1));
    } else {
    }
}

proof fn lemma_insert_trashed_member(x: NoteModel, s: Seq<NoteModel>, k: int)
    requires
        0 <= k < insert_trashed(x, s).len(),
    ensures
        insert_trashed(x, s).len() == s.len() + 1,
        insert_trashed(x, s)[k] == x || exists|w: int| 0 <= w < s.len() && s[w] == insert_trashed(
            x,
            s,
        )[k],
    decreases s.len(),
{
    lemma_insert_trashed_len(x, s);
    if s.len() == 0 {
    } else if le_trashed(s[0], x) {
        if k == 0 {
            assert(s[0] == insert_trashed(x, s)[0]);
        } else {
            lemma_insert_trashed_member(x, s.skip(1), k - 1);
            let it = insert_trashed(x, s.skip(1));
            if it[k - 1] == x {
            } else {
                let w = choose|w: int| 0 <= w < s.skip(1).len() && s.skip(1)[w] == it[k - 1];
                assert(s[w + 1] == it[k - 1]);
            }
        }
    } else {
        if k == 0 {
        } else {
            assert(s[k - 1] == insert_trashed(x, s)[k]);
        }
    }
}

proof fn lemma_le_trashed_total(a: NoteModel, b: NoteModel)
    ensures
        le_trashed(a, b) || le_trashed(b, a),
{
}

proof fn lemma_le_trashed_trans(a: NoteModel, b: NoteModel, c: NoteModel)
    ensures
        le_trashed(a, b) && le_trashed(b, c) ==> le_trashed(a, c),
{
}

proof fn lemma_insert_trashed_sorted(x: NoteModel, s: Seq<NoteModel>)
    requires
        sorted_trashed(s),
    ensures
        sorted_trashed(insert_trashed(x, s)),
        insert_trashed(x, s).len() == s.len() + 1,
        insert_trashed(x, s).to_multiset() == s.to_multiset().insert(x),
    decreases s.len(),
{
    broadcast use vstd::seq_lib::group_to_multiset_ensures, vstd::multiset::group_multiset_axioms;

    lemma_insert_trashed_len(x, s);
    if s.len() == 0 {
        assert(seq![x] =~= s.push(x));
        assert(s.push(x).to_multiset() =~= s.to_multiset().insert(x));
    } else if le_trashed(s[0], x) {
        let t = s.skip(1);
        assert(forall|i: int, j: int| 0 <= i < j < t.len() ==> le_trashed(t[i], t[j]));
        lemma_insert_trashed_sorted(x, t);
        let it = insert_trashed(x, t);
        let r = seq![s[0]] + it;
        assert forall|i: int, j: int| 0 <= i < j < r.len() implies le_trashed(r[i], r[j]) by {
            if i == 0 {
                assert(r[j] == it[j - 1]);
                lemma_insert_trashed_member(x, t, j - 1);
                if it[j - 1] == x {
                    assert(le_trashed(s[0], x));
                } else {
                    let w = choose|w: int| 0 <= w < t.len() && t[w] == it[j - 1];
                    assert(le_trashed(s[0], s[w + 1]));
                }
            } else {
                assert(r[i] == it[i - 1]);
                assert(r[j] == it[j - 1]);
            }
        }
        assert(r.to_multiset() =~= s.to_multiset().insert(x)) by {
            assert(s =~= seq![s[0]] + t);
            vstd::seq_lib::lemma_multiset_commutative(seq![s[0]], it);
            vstd::seq_lib::lemma_multiset_commutative(seq![s[0]], t);
        }
    } else {
        let r = seq![x] + s;
        assert forall|i: int, j: int| 0 <= i < j < r.len() implies le_trashed(r[i], r[j]) by {
            if i == 0 {
                lemma_le_trashed_total(x, s[0]);
                if j - 1 > 0 {
                    assert(le_trashed(s[0], s[j - 1]));
                }
                lemma_le_trashed_trans(x, s[0], s[j - 1]);
            }
        }
        assert(r.to_multiset() =~= s.to_multiset().insert(x)) by {
            vstd::seq_lib::lemma_multiset_commutative(seq![x], s);
            assert(seq![x] =~= Seq::<NoteModel>::empty().push(x));
            assert(Seq::<NoteModel>::empty().push(x).to_multiset()
                =~= Seq::<NoteModel>::empty().to_multiset().insert(x));
            assert(forall|y: NoteModel|
                Seq::<NoteModel>::empty().to_multiset().count(y) == 0);
        }
    }
}

/// The trashed sort is sorted and a permutation of its input.
pub proof fn lemma_sort_trashed(s: Seq<NoteModel>)
    ensures
        sorted_trashed(sort_trashed(s)),
        sort_trashed(s).len() == s.len(),
        sort_trashed(s).to_multiset() == s.to_multiset(),
    decreases s.len(),
{
    broadcast use vstd::seq_lib::group_to_multiset_ensures, vstd::multiset::group_multiset_axioms;

    if s.len() == 0 {
    } else {
        lemma_sort_trashed(s.drop_last());
        lemma_insert_trashed_sorted(s.last(), sort_trashed(s.drop_last()));
        assert(s.drop_last().push(s.last()) =~= s);
        assert(s.drop_last().push(s.last()).to_multiset() =~= s.drop_last().to_multiset().insert(
            s.last(),
        ));
    }
}

/// A stable insertion lands exactly where the scan stops.
proof fn lemma_insert_active_at(x: NoteModel, s: Seq<NoteModel>, j: int)
    requires
        0 <= j <= s.len(),
        forall|m: int| 0 <= m < j ==> le_active(s[m], x),
        j == s.len() || !le_active(s[j], x),
    ensures
        insert_active(x, s) == s.insert(j, x),
    decreases j,
{
    if j == 0 {
        if s.len() == 0 {
            assert(insert_active(x, s) =~= s.insert(0, x));
        } else {
            assert(seq![x] + s =~= s.insert(0, x));
        }
    } else {
        let t = s.skip(1);
        assert(forall|m: int| 0 <= m < j - 1 ==> le_active(t[m], x));
        lemma_insert_active_at(x, t, j - 1);
        assert(seq![s[0]] + t.insert(j - 1, x) =~= s.insert(j, x));
    }
}

proof fn lemma_insert_trashed_at(x: NoteModel, s: Seq<NoteModel>, j: int)
    requires
        0 <= j <= s.len(),
        forall|m: int| 0 <= m < j ==> le_trashed(s[m], x),
        j == s.len() || !le_trashed(s[j], x),
    ensures
        insert_trashed(x, s) == s.insert(j, x),
    decreases j,
{
    if j == 0 {
        if s.len() == 0 {
            assert(insert_trashed(x, s) =~= s.insert(0, x));
        } else {
            assert(seq![x] + s =~= s.insert(0, x));
        }
    } else {
        let t = s.skip(1);
        assert(forall|m: int| 0 <= m < j - 1 ==> le_trashed(t[m], x));
        lemma_insert_trashed_at(x, t, j - 1);
        assert(seq![s[0]] + t.insert(j - 1, x) =~= s.insert(j, x));
    }
}

fn le_active_exec(a: &NoteMeta, b: &NoteMeta) -> (r: bool)
    ensures
        r == le_active(a@, b@),
{
    (a.is_pinned && !b.is_pinned) || (a.is_pinned == b.is_pinned && a.sort_order <= b.sort_order)
}

fn le_trashed_exec(a: &NoteMeta, b: &NoteMeta) -> (r: bool)
    ensures
        r == le_trashed(a@, b@),
{
    let ka: i64 = match a.trashed_at {
        Some(t) => t,
        None => 0,
    };
    let kb: i64 = match b.trashed_at {
        Some(t) => t,
        None => 0,
    };
    ka > kb || (ka == kb && a.sort_order <= b.sort_order)
}

impl NoteStore {
    /// All non-trashed notes in display order — pinned first, then ascending
    /// sort key — and all trashed notes, newest trash time first; both sorts
    /// stable in row order.
    pub fn list(&self) -> (r: NotesList)
        ensures
            metas_view(r.active@) == sort_active(active_notes(self@.rows)),
            metas_view(r.trashed@) == sort_trashed(trashed_notes(self@.rows)),
    {
        let n = self.notes.len();
        let mut acts: Vec<NoteMeta> = Vec::new();
        let mut trs: Vec<NoteMeta> = Vec::new();
        let mut i: usize = 0;
        proof {
            assert(self@.rows.skip(0) =~= self@.rows);
            assert(metas_view(acts@) + active_notes(self@.rows) =~= active_notes(self@.rows));
            assert(metas_view(trs@) + trashed_notes(self@.rows) =~= trashed_notes(self@.rows));
        }
        while i < n
            invariant
                i <= n,
                n == self@.rows.len(),
                active_notes(self@.rows) =~= metas_view(acts@) + active_notes(
                    self@.rows.skip(i as int),
                ),
                trashed_notes(self@.rows) =~= metas_view(trs@) + trashed_notes(
                    self@.rows.skip(i as int),
                ),
            decreases n - i,
        {
            let ghost rest = self@.rows.skip(i as int);
            proof {
                assert(rest[0] == self@.rows[i as int]);
                assert(rest.skip(1) =~= self@.rows.skip(i + 1));
            }
            let row = &self.notes[i];
            assert(self@.rows[i as int] == row@);
            if !row.meta.is_trashed {
                let ghost a0 = acts@;
                acts.push(row.meta.clone());
                proof {
                    assert(metas_view(acts@) =~= metas_view(a0) + seq![row.meta@]);
                }
            } else {
                let ghost t0 = trs@;
                trs.push(row.meta.clone());
                proof {
                    assert(metas_view(trs@) =~= metas_view(t0) + seq![row.meta@]);
                }
            }
            i = i + 1;
        }
        proof {
            assert(self@.rows.skip(n as int) =~= Seq::<RowModel>::empty());
            assert(metas_view(acts@) + Seq::<NoteModel>::empty() =~= metas_view(acts@));
            assert(metas_view(trs@) + Seq::<NoteModel>::empty() =~= metas_view(trs@));
        }

        let mut active: Vec<NoteMeta> = Vec::new();
        let an = acts.len();
        let mut k: usize = 0;
        proof {
            assert(metas_view(acts@).take(0) =~= Seq::<NoteModel>::empty());
        }
        while k < an
            invariant
                k <= an,
                an == acts@.len(),
                metas_view(active@) == sort_active(metas_view(acts@).take(k as int)),
                active@.len() == k,
            decreases an - k,
        {
            let x = acts[k].clone();
            let mut j: usize = 0;
            while j < active.len() && le_active_exec(&active[j], &x)
                invariant
                    j <= active@.len(),
                    x@ == acts@[k as int]@,
                    forall|m: int| 0 <= m < j ==> le_active(metas_view(active@)[m], x@),
                decreases active@.len() - j,
            {
                j = j + 1;
            }
            proof {
                lemma_insert_active_at(x@, metas_view(active@), j as int);
                assert(metas_view(acts@).take(k + 1).drop_last() =~= metas_view(acts@).take(
                    k as int,
                ));
                assert(metas_view(acts@).take(k + 1).last() == acts@[k as int]@);
            }
            let ghost av0 = metas_view(active@);
            active.insert(j, x);
            proof {
                assert(metas_view(active@) =~= av0.insert(j as int, acts@[k as int]@));
            }
            k = k + 1;
        }
        proof {
            assert(metas_view(acts@).take(an as int) =~= metas_view(acts@));
        }

        let mut trashed: Vec<NoteMeta> = Vec::new();
        let tn = trs.len();
        let mut q: usize = 0;
        proof {
            assert(metas_view(trs@).take(0) =~= Seq::<NoteModel>::empty());
        }
        while q < tn
            invariant
                q <= tn,
                tn == trs@.len(),
                metas_view(trashed@) == sort_trashed(metas_view(trs@).take(q as int)),
                trashed@.len() == q,
            decreases tn - q,
        {
            let x = trs[q].clone();
            let mut j: usize = 0;
            while j < trashed.len() && le_trashed_exec(&trashed[j], &x)
                invariant
                    j <= trashed@.len(),
                    x@ == trs@[q as int]@,
                    forall|m: int| 0 <= m < j ==> le_trashed(metas_view(trashed@)[m], x@),
                decreases trashed@.len() - j,
            {
                j = j + 1;
            }
            proof {
                lemma_insert_trashed_at(x@, metas_view(trashed@), j as int);
                assert(metas_view(trs@).take(q + 1).drop_last() =~= metas_view(trs@).take(q as int));
                assert(metas_view(trs@).take(q + 1).last() == trs@[q as int]@);
            }
            let ghost tv0 = metas_view(trashed@);
            trashed.insert(j, x);
            proof {
                assert(metas_view(trashed@) =~= tv0.insert(j as int, trs@[q as int]@));
            }
            q = q + 1;
        }
        proof {
            assert(metas_view(trs@).take(tn as int) =~= metas_view(trs@));
        }
        NotesList { active, trashed }
    }
}

} // verus!
