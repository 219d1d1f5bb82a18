//! Sort keys and the pin ceiling.

use vstd::prelude::*;

use crate::error::NoteError;
use crate::store::{NoteStore, RowModel, StoreModel, find_note, rows_view};
use crate::types::{NoteMeta, NoteModel};

verus! {

/// Whether some non-trashed row has the given pin state.
pub open spec fn any_active(rows: Seq<RowModel>, pinned: bool) -> bool {
    exists|i: int|
        0 <= i < rows.len() && !rows[i].note.is_trashed && rows[i].note.is_pinned == pinned
}

/// The greatest sort key among non-trashed rows with the given pin state;
/// zero when there is none.
pub open spec fn max_sort(rows: Seq<RowModel>, pinned: bool) -> int
    decreases rows.len(),
{
    if rows.len() == 0 {
        0
    } else {
        let rest = rows.drop_last();
        let m = max_sort(rest, pinned);
        let r = rows.last().note;
        if r.is_trashed || r.is_pinned != pinned {
            m
        } else if any_active(rest, pinned) && m >= r.sort_order {
            m
        } else {
            r.sort_order
        }
    }
}

/// How many non-trashed rows are pinned.
pub open spec fn pinned_count(rows: Seq<RowModel>) -> int
    decreases rows.len(),
{
    if rows.len() == 0 {
        0int
    } else {
        pinned_count(rows.drop_last()) + (if rows.last().note.is_pinned
            && !rows.last().note.is_trashed {
            1int
        } else {
            0int
        })
    }
}

/// What pinning or unpinning does: at the ceiling a pin is rejected with
/// nothing changed; otherwise the note takes the next sort key of its new
/// partition, and unpinning resets the interaction time.
pub open spec fn spec_set_pinned(m: StoreModel, id: Seq<char>, pinned: bool, now: int) -> (
    StoreModel,
    Result<NoteModel, NoteError>,
) {
    let i = find_note(m.rows, id);
    if i == -1 {
        (m, Err(NoteError::NotFound))
    } else {
        let row0 = m.rows[i];
        if row0.note.is_pinned == pinned {
            (m, Ok(row0.note))
        } else if pinned {
            if pinned_count(m.rows) >= 5 {
                (m, Err(NoteError::PinLimitExceeded))
            } else {
                let note1 = NoteModel {
                    is_pinned: true,
                    sort_order: max_sort(m.rows, true) + 1,
                    ..row0.note
                };
                (
                    StoreModel { rows: m.rows.update(i, RowModel { note: note1, ..row0 }), ..m },
                    Ok(note1),
                )
            }
        } else {
            let note1 = NoteModel {
                is_pinned: false,
                sort_order: max_sort(m.rows, false) + 1,
                last_interaction: now,
                ..row0.note
            };
            (
                StoreModel { rows: m.rows.update(i, RowModel { note: note1, ..row0 }), ..m },
                Ok(note1),
            )
        }
    }
}

/// One reorder assignment: the listed note, unless trashed or unknown, takes
/// its list position as its sort key.
pub open spec fn spec_reorder_one(rows: Seq<RowModel>, id: Seq<char>, idx: int) -> Seq<RowModel> {
    let i = find_note(rows, id);
    if i == -1 || rows[i].note.is_trashed {
        rows
    } else {
        rows.update(i, RowModel { note: NoteModel { sort_order: idx, ..rows[i].note }, ..rows[i] })
    }
}

/// All reorder assignments, applied in list order.
pub open spec fn spec_reorder(rows: Seq<RowModel>, ids: Seq<Seq<char>>) -> Seq<RowModel>
    decreases ids.len(),
{
    if ids.len() == 0 {
        rows
    } else {
        spec_reorder_one(spec_reorder(rows, ids.drop_last()), ids.last(), ids.len() - 1)
    }
}

impl NoteStore {
    /// The greatest sort key among non-trashed notes with the given pin
    /// state; zero when there is none.
    pub fn max_sort_order(&self, pinned: bool) -> (r: i64)
        ensures
            r as int == max_sort(self@.rows, pinned),
            any_active(self@.rows, pinned) || r == 0,
    {
        let n = self.notes.len();
        let mut cur: i64 = 0;
        let mut found: bool = false;
        proof {
            assert(self@.rows.take(0) =~= Seq::<RowModel>::empty());
        }
        let mut i: usize = 0;
        while i < n
            invariant
                i <= n,
                n == self@.rows.len(),
                cur as int == max_sort(self@.rows.take(i as int), pinned),
                found == any_active(self@.rows.take(i as int), pinned),
                !found ==> cur == 0,
            decreases n - i,
        {
            let ghost pre = self@.rows.take(i as int);
            let ghost post = self@.rows.take(i + 1);
            proof {
                assert(post.drop_last() =~= pre);
                assert(post.last() == self@.rows[i as int]);
            }
            let row = &self.notes[i];
            assert(self@.rows[i as int] == row@);
            if !row.meta.is_trashed && row.meta.is_pinned == pinned {
                proof {
                    assert(post[i as int] == self@.rows[i as int]);
                    assert(any_active(post, pinned));
                }
                if !found || row.meta.sort_order > cur {
                    cur = row.meta.sort_order;
                } else {
                }
                found = true;
            } else {
                proof {
                    if any_active(post, pinned) {
                        let w = choose|w: int|
                            0 <= w < post.len() && !post[w].note.is_trashed
                                && post[w].note.is_pinned == pinned;
                        assert(w < i as int ==> pre[w] == post[w]);
                        assert(any_active(pre, pinned));
                    }
                    if any_active(pre, pinned) {
                        let w = choose|w: int|
                            0 <= w < pre.len() && !pre[w].note.is_trashed && pre[w].note.is_pinned
                                == pinned;
                        assert(post[w] == pre[w]);
                        assert(any_active(post, pinned));
                    }
                }
            }
            i = i + 1;
        }
        proof {
            assert(self@.rows.take(n as int) =~= self@.rows);
        }
        cur
    }

    /// One more than the greatest sort key among non-trashed, unpinned notes.
    pub fn next_sort_order(&self) -> (r: i64)
        requires
            max_sort(self@.rows, false) < i64::MAX,
        ensures
            r as int == max_sort(self@.rows, false) + 1,
    {
        self.max_sort_order(false) + 1
    }

    /// Pins or unpins a note. Pinning is rejected outright at the ceiling of
    /// five pinned notes; unpinning resets the interaction time so the note
    /// gets a full expiry window after leaving the expiry-exempt set. Either
    /// way the note moves to the end of its new partition. A note already in
    /// the requested state comes back unchanged.
    pub fn set_pinned(&mut self, id: &str, pinned: bool, now: i64) -> (r: Result<
        NoteMeta,
        NoteError,
    >)
        requires
            old(self).wf(),
            max_sort(old(self)@.rows, pinned) < i64::MAX,
        ensures
            final(self).wf(),
            final(self)@ == spec_set_pinned(old(self)@, id@, pinned, now as int).0,
            match r {
                Ok(m) => spec_set_pinned(old(self)@, id@, pinned, now as int).1 == Ok::<
                    NoteModel,
                    NoteError,
                >(m@),
                Err(e) => spec_set_pinned(old(self)@, id@, pinned, now as int).1 == Err::<
                    NoteModel,
                    NoteError,
                >(e),
            },
    {
        let ghost m0 = self@;
        match self.find_note_idx(id) {
            None => Err(NoteError::NotFound),
            Some(i) => {
                if self.notes[i].meta.is_pinned == pinned {
                    return Ok(self.notes[i].meta.clone());
                }
                if pinned {
                    if self.pinned_count_now() >= 5 {
                        return Err(NoteError::PinLimitExceeded);
                    }
                    let top = self.max_sort_order(true);
                    self.notes[i].meta.is_pinned = true;
                    self.notes[i].meta.sort_order = top + 1;
                    let meta = self.notes[i].meta.clone();
                    proof {
                        let target_row = self.notes@[i as int]@;
                        assert(rows_view(self.notes@) =~= m0.rows.update(i as int, target_row));
                        assert(meta@ =~= spec_set_pinned(m0, id@, pinned, now as int).1.unwrap());
                        assert(self@ =~= spec_set_pinned(m0, id@, pinned, now as int).0);
                    }
                    Ok(meta)
                } else {
                    let top = self.max_sort_order(false);
                    self.notes[i].meta.is_pinned = false;
                    self.notes[i].meta.sort_order = top + 1;
                    self.notes[i].meta.last_interaction = now;
                    let meta = self.notes[i].meta.clone();
                    proof {
                        let target_row = self.notes@[i as int]@;
                        assert(rows_view(self.notes@) =~= m0.rows.update(i as int, target_row));
                        assert(meta@ =~= spec_set_pinned(m0, id@, pinned, now as int).1.unwrap());
                        assert(self@ =~= spec_set_pinned(m0, id@, pinned, now as int).0);
                    }
                    Ok(meta)
                }
            },
        }
    }

    /// Assigns each listed non-trashed note its position in the list as its
    /// sort key, in one pass with nothing partial ever observable; a trashed
    /// or unknown listed id changes nothing.
    pub fn reorder(&mut self, ids: &Vec<String>) -> (r: Result<(), NoteError>)
        requires
            old(self).wf(),
            old(self)@.rows.len() < i64::MAX,
            ids@.len() <= i64::MAX,
        ensures
            final(self).wf(),
            r is Ok,
            final(self)@ == (StoreModel {
                rows: spec_reorder(old(self)@.rows, ids@.map_values(|s: String| s@)),
                ..old(self)@
            }),
    {
        let ghost m0 = self@;
        let ghost idsv = ids@.map_values(|s: String| s@);
        let n = ids.len();
        let mut k: usize = 0;
        proof {
            assert(idsv.take(0) =~~= Seq::<Seq<char>>::empty());
            assert(spec_reorder(m0.rows, idsv.take(0)) == m0.rows);
            assert(self@ =~= (StoreModel { rows: spec_reorder(m0.rows, idsv.take(0)), ..m0 }));
        }
        while k < n
            invariant
                k <= n,
                n == ids@.len(),
                n <= i64::MAX,
                idsv == ids@.map_values(|s: String| s@),
                self.wf(),
                self@ == (StoreModel { rows: spec_reorder(m0.rows, idsv.take(k as int)), ..m0 }),
                self@.rows.len() == m0.rows.len(),
                m0 == old(self)@,
            decreases n - k,
        {
            let ghost rows_pre = self@.rows;
            proof {
                assert(idsv.take(k + 1).drop_last() =~~= idsv.take(k as int));
                assert(idsv.take(k + 1).last() == idsv[k as int]);
                assert(ids@[k as int]@ == idsv[k as int]);
            }
            match self.find_note_idx(ids[k].as_str()) {
                None => {
                    proof {
                        assert(spec_reorder(m0.rows, idsv.take(k + 1)) == spec_reorder_one(
                            rows_pre,
                            idsv[k as int],
                            k as int,
                        ));
                        assert(spec_reorder_one(rows_pre, idsv[k as int], k as int) == rows_pre);
                    }
                },
                Some(i) => {
                    if !self.notes[i].meta.is_trashed {
                        self.notes[i].meta.sort_order = k as i64;
                        proof {
                            let target_row = self.notes@[i as int]@;
                            assert(rows_view(self.notes@) =~= rows_pre.update(
                                i as int,
                                target_row,
                            ));
                            assert(rows_view(self.notes@) =~= spec_reorder_one(
                                rows_pre,
                                idsv[k as int],
                                k as int,
                            ));
                            assert(self@ =~= (StoreModel {
                                rows: spec_reorder(m0.rows, idsv.take(k + 1)),
                                ..m0
                            }));
                        }
                    } else {
                        proof {
                            assert(spec_reorder_one(rows_pre, idsv[k as int], k as int)
                                == rows_pre);
                        }
                    }
                },
            }
            k = k + 1;
        }
        proof {
            assert(idsv.take(n as int) =~~= idsv);
        }
        Ok(())
    }

    /// How many non-trashed notes are pinned.
    pub fn pinned_count_now(&self) -> (r: u64)
        ensures
            r as int == pinned_count(self@.rows),
    {
        let n = self.notes.len();
        let mut cur: u64 = 0;
        let mut i: usize = 0;
        proof {
            assert(self@.rows.take(0) =~= Seq::<RowModel>::empty());
        }
        while i < n
            invariant
                i <= n,
                n == self@.rows.len(),
                cur as int == pinned_count(self@.rows.take(i as int)),
                cur <= i,
            decreases n - i,
        {
            let ghost pre = self@.rows.take(i as int);
            let ghost post = self@.rows.take(i + 1);
            proof {
                assert(post.drop_last() =~= pre);
                assert(post.last() == self@.rows[i as int]);
            }
            let row = &self.notes[i];
            assert(self@.rows[i as int] == row@);
            if row.meta.is_pinned && !row.meta.is_trashed {
                cur = cur + 1;
            }
            i = i + 1;
        }
        proof {
            assert(self@.rows.take(n as int) =~= self@.rows);
        }
        cur
    }
}

} // verus!
