//! The expiry sweep: time-based trashing and trash retention.
//!
//! A sweep reads the expiry and retention settings (writing defaults back on
//! first access), trashes every unpinned active note whose last interaction
//! lies at or before the expiry cutoff — one note's failure never blocks the
//! rest — and then permanently drops every note trashed at or before the
//! retention cutoff.

use vstd::prelude::*;

use crate::error::NoteError;
use crate::settings::spec_setting_i64;
use crate::store::{NoteStore, RowModel, StoreModel};
use crate::trash::{spec_delete, spec_trash};

verus! {

/// The ids of unpinned active notes whose last interaction is at or before
/// the cutoff, in row order.
pub open spec fn candidate_ids(rows: Seq<RowModel>, cutoff: int) -> Seq<Seq<char>>
    decreases rows.len(),
{
    if rows.len() == 0 {
        Seq::<Seq<char>>::empty()
    } else {
        (if !rows[0].note.is_trashed && !rows[0].note.is_pinned && rows[0].note.last_interaction
            <= cutoff {
            seq![rows[0].note.id]
        } else {
            Seq::<Seq<char>>::empty()
        }) + candidate_ids(rows.skip(1), cutoff)
    }
}

/// The ids of notes trashed at or before the cutoff, in row order.
pub open spec fn drop_ids(rows: Seq<RowModel>, cutoff: int) -> Seq<Seq<char>>
    decreases rows.len(),
{
    if rows.len() == 0 {
        Seq::<Seq<char>>::empty()
    } else {
        (if rows[0].note.is_trashed && (match rows[0].note.trashed_at {
            Some(t) => t <= cutoff,
            None => false,
        }) {
            seq![rows[0].note.id]
        } else {
            Seq::<Seq<char>>::empty()
        }) + drop_ids(rows.skip(1), cutoff)
    }
}

/// Trashing each listed id in turn, failures skipped.
pub open spec fn trash_fold(m: StoreModel, ids: Seq<Seq<char>>, now: int) -> StoreModel
    decreases ids.len(),
{
    if ids.len() == 0 {
        m
    } else {
        trash_fold(spec_trash(m, ids[0], now).0, ids.skip(1), now)
    }
}

/// Deleting each listed id in turn.
pub open spec fn drop_fold(m: StoreModel, ids: Seq<Seq<char>>) -> StoreModel
    decreases ids.len(),
{
    if ids.len() == 0 {
        m
    } else {
        drop_fold(spec_delete(m, ids[0]).0, ids.skip(1))
    }
}

/// What one sweep does, from the settings read to the final drop.
pub open spec fn spec_sweep(m: StoreModel, now: int) -> StoreModel {
    let (m1, em) = spec_setting_i64(m, "expiry_minutes"@, 10080);
    let (m2, td) = spec_setting_i64(m1, "trash_retention_days"@, 30);
    let m3 = trash_fold(m2, candidate_ids(m2.rows, now - em * 60000), now);
    drop_fold(m3, drop_ids(m3.rows, now - td * 86400000))
}

impl NoteStore {
    /// The ids the expiry pass will trash, given the cutoff parts.
    fn collect_expiry_candidates(&self, now: i64, expiry_minutes: i64) -> (r: Vec<String>)
        ensures
            r@.map_values(|s: String| s@) == candidate_ids(
                self@.rows,
                now as int - expiry_minutes as int * 60000,
            ),
    {
        let ghost cutoff = now as int - expiry_minutes as int * 60000;
        let n = self.notes.len();
        let mut out: Vec<String> = Vec::new();
        let mut i: usize = 0;
        proof {
            assert(self@.rows.skip(0) =~= self@.rows);
            assert(out@.map_values(|s: String| s@) + candidate_ids(self@.rows, cutoff)
                =~~= candidate_ids(self@.rows, cutoff));
        }
        while i < n
            invariant
                i <= n,
                n == self@.rows.len(),
                candidate_ids(self@.rows, now as int - expiry_minutes as int * 60000)
                    =~~= out@.map_values(|s: String| s@) + candidate_ids(
                    self@.rows.skip(i as int),
                    now as int - expiry_minutes as int * 60000,
                ),
            decreases n - i,
        {
            let ghost rest = self@.rows.skip(i as int);
            proof {
                assert(rest[0] == self@.rows[i as int]);
                assert(rest.skip(1) =~= self@.rows.skip(i + 1));
            }
            let row = &self.notes[i];
            assert(self@.rows[i as int] == row@);
            if !row.meta.is_trashed && !row.meta.is_pinned && (row.meta.last_interaction as i128)
                <= (now as i128) - (expiry_minutes as i128) * 60000 {
                let ghost out0 = out@;
                out.push(row.meta.id.clone());
                proof {
                    assert(out@.map_values(|s: String| s@) =~~= out0.map_values(|s: String| s@)
                        + seq![row.meta.id@]);
                }
            }
            i = i + 1;
        }
        proof {
            assert(self@.rows.skip(n as int) =~= Seq::<RowModel>::empty());
            assert(out@.map_values(|s: String| s@) + Seq::<Seq<char>>::empty()
                =~~= out@.map_values(|s: String| s@));
        }
        out
    }

    /// The ids the retention pass will drop, given the cutoff parts.
    fn collect_drop_candidates(&self, now: i64, trash_days: i64) -> (r: Vec<String>)
        ensures
            r@.map_values(|s: String| s@) == drop_ids(
                self@.rows,
                now as int - trash_days as int * 86400000,
            ),
    {
        let ghost cutoff = now as int - trash_days as int * 86400000;
        let n = self.notes.len();
        let mut out: Vec<String> = Vec::new();
        let mut i: usize = 0;
        proof {
            assert(self@.rows.skip(0) =~= self@.rows);
            assert(out@.map_values(|s: String| s@) + drop_ids(self@.rows, cutoff) =~~= drop_ids(
                self@.rows,
                cutoff,
            ));
        }
        while i < n
            invariant
                i <= n,
                n == self@.rows.len(),
                drop_ids(self@.rows, now as int - trash_days as int * 86400000)
                    =~~= out@.map_values(|s: String| s@) + drop_ids(
                    self@.rows.skip(i as int),
                    now as int - trash_days as int * 86400000,
                ),
            decreases n - i,
        {
            let ghost rest = self@.rows.skip(i as int);
            proof {
                assert(rest[0] == self@.rows[i as int]);
                assert(rest.skip(1) =~= self@.rows.skip(i + 1));
            }
            let row = &self.notes[i];
            assert(self@.rows[i as int] == row@);
            let hit = row.meta.is_trashed && (match row.meta.trashed_at {
                Some(t) => (t as i128) <= (now as i128) - (trash_days as i128) * 86400000,
                None => false,
            });
            if hit {
                let ghost out0 = out@;
                out.push(row.meta.id.clone());
                proof {
                    assert(out@.map_values(|s: String| s@) =~~= out0.map_values(|s: String| s@)
                        + seq![row.meta.id@]);
                }
            }
            i = i + 1;
        }
        proof {
            assert(self@.rows.skip(n as int) =~= Seq::<RowModel>::empty());
            assert(out@.map_values(|s: String| s@) + Seq::<Seq<char>>::empty()
                =~~= out@.map_values(|s: String| s@));
        }
        out
    }

    /// One sweep: read the settings, trash what expired, drop what outlived
    /// the trash retention. One note's failure never blocks the rest.
    pub fn sweep(&mut self, now: i64) -> (r: Result<(), NoteError>)
        requires
            old(self).wf(),
        ensures
            final(self).wf(),
            r is Ok,
            final(self)@ == spec_sweep(old(self)@, now as int),
    {
        let ghost m0 = self@;
        let em = self.get_setting_int("expiry_minutes", 10080);
        let td = self.get_setting_int("trash_retention_days", 30);
        let ghost m2 = self@;
        let cand = self.collect_expiry_candidates(now, em);
        let ghost candv = cand@.map_values(|s: String| s@);
        let cn = cand.len();
        let mut k: usize = 0;
        proof {
            assert(candv.skip(0) =~~= candv);
        }
        while k < cn
            invariant
                k <= cn,
                cn == cand@.len(),
                candv == cand@.map_values(|s: String| s@),
                self.wf(),
                trash_fold(m2, candv, now as int) == trash_fold(
                    self@,
                    candv.skip(k as int),
                    now as int,
                ),
            decreases cn - k,
        {
            proof {
                assert(candv.skip(k as int)[0] == candv[k as int]);
                assert(candv.skip(k as int).skip(1) =~~= candv.skip(k + 1));
                assert(cand@[k as int]@ == candv[k as int]);
            }
            let ghost pre = self@;
            let res = self.trash(cand[k].as_str(), now);
            proof {
                assert(self@ == spec_trash(pre, candv[k as int], now as int).0);
            }
            k = k + 1;
        }
        proof {
            assert(candv.skip(cn as int) =~~= Seq::<Seq<char>>::empty());
        }
        let ghost m3 = self@;
        let drops = self.collect_drop_candidates(now, td);
        let ghost dropv = drops@.map_values(|s: String| s@);
        let dn = drops.len();
        let mut q: usize = 0;
        proof {
            assert(dropv.skip(0) =~~= dropv);
        }
        while q < dn
            invariant
                q <= dn,
                dn == drops@.len(),
                dropv == drops@.map_values(|s: String| s@),
                self.wf(),
                drop_fold(m3, dropv) == drop_fold(self@, dropv.skip(q as int)),
            decreases dn - q,
        {
            proof {
                assert(dropv.skip(q as int)[0] == dropv[q as int]);
                assert(dropv.skip(q as int).skip(1) =~~= dropv.skip(q + 1));
                assert(drops@[q as int]@ == dropv[q as int]);
            }
            let ghost pre = self@;
            let res = self.delete_forever(drops[q].as_str());
            proof {
                assert(self@ == spec_delete(pre, dropv[q as int]).0);
            }
            q = q + 1;
        }
        proof {
            assert(dropv.skip(dn as int) =~~= Seq::<Seq<char>>::empty());
        }
        Ok(())
    }
}

} // verus!
