//! One raid: the untried codes, the tried codes and the leases of one
//! search through the code list, and the operations on them.

use crate::ascending::{
    ascending, indices_below, lemma_ascending_indices_below, lemma_ascending_is_unique,
    lemma_ascending_len, lemma_ascending_lists, lemma_lowest, lemma_lowest_all, lemma_lowest_next,
    lists_ascending, lowest,
};
use crate::bitmap::{bitmap_from_iter, bitmap_insert_range, bitmap_iter, bitmap_values};
use crate::clock::{utc_now, Timestamp};
use crate::codes::{
    code_index_to_string, code_texts, string_to_code_index, texts, CodeList, CODE_COUNT,
};
use crate::error::RaidError;
use crate::model::{live_at, LeaseView, RaidView};
use crate::snapshot::{
    every_code_is_held, have_nothing_in_common, holds_indices_only, is_valid_snapshot,
    leased_codes, leases_from, reservations_from, reservations_of, restored, views_of,
};
use crate::validity::{
    lemma_complete_keeps_valid, lemma_fresh_is_valid, lemma_reclaim_keeps_valid,
    lemma_reserve_keeps_valid, lemma_skip_keeps_valid,
};
use roaring::RoaringBitmap;
use std::ops::{BitOrAssign, BitXorAssign};
use vstd::prelude::*;
use vstd::set_lib::lemma_len_subset;

verus! {

/// A batch of codes handed to a worker, to be tried before `expires_at`.
#[derive(Debug, Clone)]
pub struct CodeReservation {
    pub codes: Vec<String>,
    pub expires_at: Timestamp,
}

/// What a reservation says: the texts of its codes, in order, and the
/// instant at which it runs out.
pub struct ReservationView {
    pub codes: Seq<Seq<char>>,
    pub expires_at: Timestamp,
}

impl View for CodeReservation {
    type V = ReservationView;

    open spec fn view(&self) -> ReservationView {
        ReservationView { codes: texts(self.codes@), expires_at: self.expires_at }
    }
}

/// A lease as the raid keeps it: the indices of its codes.
#[derive(Debug)]
pub(crate) struct Lease {
    pub(crate) codes: Vec<u32>,
    pub(crate) expires_at: Timestamp,
}

pub(crate) open spec fn lease_view(lease: Lease) -> LeaseView {
    LeaseView { codes: lease.codes@, expires_at: lease.expires_at }
}

pub(crate) open spec fn lease_views(leases: Seq<Lease>) -> Seq<LeaseView> {
    leases.map_values(|lease: Lease| lease_view(lease))
}

/// The counts that are reported of a raid. Raw codes are never reported.
#[derive(Debug, Clone, Copy, PartialEq, Eq, Structural)]
pub struct RaidInfo {
    pub remaining_code_count: u32,
    pub tried_code_count: u32,
}

/// The counts that are reported of a raid in the given state.
pub open spec fn info_of(v: RaidView) -> RaidInfo {
    RaidInfo {
        remaining_code_count: v.tally(CODE_COUNT as nat).remaining as u32,
        tried_code_count: v.tally(CODE_COUNT as nat).tried as u32,
    }
}

/// One search through the code list.
#[derive(Debug)]
pub struct Raid {
    remaining_codes: RoaringBitmap,
    tried_codes: RoaringBitmap,
    code_reservations: Vec<Lease>,
}

impl View for Raid {
    type V = RaidView;

    closed spec fn view(&self) -> RaidView {
        RaidView {
            remaining: bitmap_values(self.remaining_codes),
            tried: bitmap_values(self.tried_codes),
            leases: lease_views(self.code_reservations@),
        }
    }
}

impl Raid {
    /// The raid is in a valid state over the `CODE_COUNT` codes of the
    /// list.
    pub open spec fn wf(&self) -> bool {
        self@.inv(CODE_COUNT as nat)
    }

    /// The bitmap in which the raid keeps the codes that are neither tried
    /// nor checked out. It holds `self@.remaining`.
    pub closed spec fn remaining_bitmap(&self) -> RoaringBitmap {
        self.remaining_codes
    }

    /// The bitmap in which the raid keeps the codes that have been tried.
    /// It holds `self@.tried`.
    pub closed spec fn tried_bitmap(&self) -> RoaringBitmap {
        self.tried_codes
    }

    /// The two bitmaps of a raid hold the two sets of its state.
    pub proof fn lemma_bitmaps_hold_the_sets(&self)
        ensures
            bitmap_values(self.remaining_bitmap()) == self@.remaining,
            bitmap_values(self.tried_bitmap()) == self@.tried,
    {
    }

    /// A raid on which nothing has happened: every code is untried and
    /// free.
    pub fn new() -> (raid: Raid)
        ensures
            raid.wf(),
            raid@ == RaidView::fresh(CODE_COUNT as nat),
    {
        let mut bitmap = RoaringBitmap::new();
        let _ = bitmap_insert_range(&mut bitmap, 0, CODE_COUNT);
        let raid = Raid {
            remaining_codes: bitmap,
            tried_codes: RoaringBitmap::new(),
            code_reservations: Vec::new(),
        };
        proof {
            assert(raid@.remaining =~= indices_below(CODE_COUNT as nat));
            assert(raid@.leases =~= Seq::empty());
            lemma_fresh_is_valid(CODE_COUNT as nat);
        }
        raid
    }

    /// Puts a raid together from its parts, as they are read from a
    /// snapshot. The parts are accepted only where they make up a valid
    /// state over codes of the list.
    pub fn from_parts(
        codes: &CodeList,
        remaining_codes: RoaringBitmap,
        tried_codes: RoaringBitmap,
        code_reservations: &Vec<CodeReservation>,
    ) -> (r: Result<Raid, RaidError>)
        requires
            codes.wf(),
        ensures
            match r {
                Ok(raid) => {
                    &&& is_valid_snapshot(
                        codes@,
                        bitmap_values(remaining_codes),
                        bitmap_values(tried_codes),
                        views_of(code_reservations@),
                    )
                    &&& raid.wf()
                    &&& raid@ == restored(
                        codes@,
                        bitmap_values(remaining_codes),
                        bitmap_values(tried_codes),
                        views_of(code_reservations@),
                    )
                    &&& raid.remaining_bitmap() == remaining_codes
                    &&& raid.tried_bitmap() == tried_codes
                },
                Err(e) => e == RaidError::PersistenceFailure && !is_valid_snapshot(
                    codes@,
                    bitmap_values(remaining_codes),
                    bitmap_values(tried_codes),
                    views_of(code_reservations@),
                ),
            },
    {
        let ghost v = restored(
            codes@,
            bitmap_values(remaining_codes),
            bitmap_values(tried_codes),
            views_of(code_reservations@),
        );
        let leases = match leases_from(codes, code_reservations) {
            Some(leases) => leases,
            None => {
                return Err(RaidError::PersistenceFailure);
            },
        };
        assert forall|lease: int, place: int| #[trigger] v.is_slot(lease, place) implies v.code_at(
            lease,
            place,
        ) < CODE_COUNT by {
            assert(lease_view(leases@[lease]) == v.leases[lease]);
            assert(leases@[lease].codes@[place] < CODE_COUNT);
        }
        if !holds_indices_only(&remaining_codes) {
            proof {
                let code = choose|code: u32|
                    bitmap_values(remaining_codes).contains(code) && code >= CODE_COUNT;
                assert(v.remaining.contains(code));
            }
            return Err(RaidError::PersistenceFailure);
        }
        if !holds_indices_only(&tried_codes) {
            proof {
                let code = choose|code: u32|
                    bitmap_values(tried_codes).contains(code) && code >= CODE_COUNT;
                assert(v.tried.contains(code));
            }
            return Err(RaidError::PersistenceFailure);
        }
        if !have_nothing_in_common(&remaining_codes, &tried_codes) {
            proof {
                let code = choose|code: u32|
                    bitmap_values(remaining_codes).contains(code) && bitmap_values(
                        tried_codes,
                    ).contains(code);
                assert(v.remaining.contains(code) && v.tried.contains(code));
            }
            return Err(RaidError::PersistenceFailure);
        }
        let held = match leased_codes(&leases, &remaining_codes, Ghost(v)) {
            Some(held) => held,
            None => {
                return Err(RaidError::PersistenceFailure);
            },
        };
        if !every_code_is_held(&remaining_codes, &tried_codes, &held) {
            proof {
                let code = choose|code: u32|
                    code < CODE_COUNT && !bitmap_values(remaining_codes).contains(code)
                        && !bitmap_values(tried_codes).contains(code) && !bitmap_values(
                        held,
                    ).contains(code);
                assert(!v.remaining.contains(code) && !v.tried.contains(code) && !v.is_leased(
                    code,
                ));
            }
            return Err(RaidError::PersistenceFailure);
        }
        Ok(Raid { remaining_codes, tried_codes, code_reservations: leases })
    }

    /// The bitmap of the codes that are neither tried nor checked out.
    pub fn remaining_codes(&self) -> (bitmap: &RoaringBitmap)
        ensures
            *bitmap == self.remaining_bitmap(),
            bitmap_values(*bitmap) == self@.remaining,
    {
        &self.remaining_codes
    }

    /// The bitmap of the codes that have been tried.
    pub fn tried_codes(&self) -> (bitmap: &RoaringBitmap)
        ensures
            *bitmap == self.tried_bitmap(),
            bitmap_values(*bitmap) == self@.tried,
    {
        &self.tried_codes
    }

    /// The leases of the raid, oldest first, each with the texts of its
    /// codes.
    pub fn code_reservations(&self, codes: &CodeList) -> (reservations: Vec<CodeReservation>)
        requires
            self.wf(),
            codes.wf(),
        ensures
            views_of(reservations@) == reservations_of(codes@, self@.leases),
    {
        assert forall|a: int, b: int|
            0 <= a < self.code_reservations.len() && 0 <= b
                < self.code_reservations@[a].codes.len() implies (
        #[trigger] self.code_reservations@[a].codes@[b]) < CODE_COUNT by {
            assert(lease_view(self.code_reservations@[a]) == self@.leases[a]);
            assert(self@.is_slot(a, b));
        }
        reservations_from(codes, &self.code_reservations)
    }

    /// The counts of the raid: how many codes have been tried, and how
    /// many have not. A code that is checked out counts as not tried.
    pub fn info(&self) -> (info: RaidInfo)
        requires
            self.wf(),
        ensures
            info == info_of(self@),
            info.tried_code_count == self@.tally(CODE_COUNT as nat).tried,
            info.remaining_code_count == self@.tally(CODE_COUNT as nat).remaining,
    {
        proof {
            lemma_ascending_indices_below(CODE_COUNT as nat);
            assert(self@.tried.subset_of(indices_below(CODE_COUNT as nat)));
            lemma_len_subset(self@.tried, indices_below(CODE_COUNT as nat));
        }
        let tried_codes = self.tried_codes.len() as u32;
        RaidInfo { tried_code_count: tried_codes, remaining_code_count: CODE_COUNT - tried_codes }
    }

    /// Marks one submitted code as tried, whether or not it is checked
    /// out. A text that is not in the code list is refused, and nothing
    /// changes.
    pub fn try_code(&mut self, codes: &CodeList, code: String) -> (r: Result<(), RaidError>)
        requires
            old(self).wf(),
            codes.wf(),
        ensures
            final(self).wf(),
            match r {
                Ok(()) => codes@.contains(code@) && final(self)@ == old(self)@.complete(
                    codes@.index_of(code@) as u32,
                ),
                Err(e) => e == RaidError::UnknownCode && !codes@.contains(code@) && final(self)@
                    == old(self)@,
            },
    {
        match string_to_code_index(codes, code.as_str()) {
            Ok(code_idx) => {
                let _ = self.remaining_codes.remove(code_idx);
                let _ = self.tried_codes.insert(code_idx);
                proof {
                    assert(codes@.contains(code@));
                    assert(codes@.index_of(code@) == code_idx);
                    lemma_complete_keeps_valid(old(self)@, CODE_COUNT as nat, code_idx);
                }
                Ok(())
            },
            Err(e) => Err(e),
        }
    }

    /// Marks the `skip_count` lowest free codes as tried, without a
    /// lease; all free codes where there are fewer.
    pub fn skip_codes(&mut self, skip_count: u64)
        requires
            old(self).wf(),
        ensures
            final(self).wf(),
            final(self)@ == old(self)@.skip(skip_count as nat),
    {
        let mut lowest_codes = bitmap_iter(&self.remaining_codes);
        proof {
            lemma_ascending_is_unique(lowest_codes@, self@.remaining);
        }
        if skip_count < lowest_codes.len() as u64 {
            lowest_codes.truncate(skip_count as usize);
        }
        assert(lowest_codes@ == lowest(self@.remaining, skip_count as nat));
        let skipped_codes = bitmap_from_iter(lowest_codes);
        self.remaining_codes.bitxor_assign(&skipped_codes);
        self.tried_codes.bitor_assign(skipped_codes);
        proof {
            let before = old(self)@;
            lemma_lowest(before.remaining, skip_count as nat);
            assert(self@.remaining =~= before.skip(skip_count as nat).remaining);
            assert(self@.tried =~= before.skip(skip_count as nat).tried);
            lemma_skip_keeps_valid(before, CODE_COUNT as nat, skip_count as nat);
        }
    }

    /// Checks out the `count` lowest free codes, or all free codes where
    /// there are fewer, under a lease granted at `now`. The lease lists
    /// its codes highest index first; it joins the leases also where it
    /// holds no code.
    pub fn reserve_codes_at(&mut self, codes: &CodeList, count: usize, now: Timestamp) -> (reservation:
        CodeReservation)
        requires
            old(self).wf(),
            codes.wf(),
        ensures
            final(self).wf(),
            final(self)@ == old(self)@.reserve(count as nat, now.lease_deadline()),
            reservation@.codes == code_texts(codes@, old(self)@.batch(count as nat)),
            reservation@.expires_at == now.lease_deadline(),
    {
        let ghost before = self@;
        let ghost all = ascending(before.remaining);
        proof {
            lemma_ascending_lists(before.remaining);
            lemma_ascending_len(before.remaining);
        }
        let mut picked: Vec<u32> = Vec::new();
        let mut next = self.remaining_codes.min();
        assert(picked@ =~= all.take(0));
        while picked.len() < count && next.is_some()
            invariant
                all == ascending(before.remaining),
                lists_ascending(all, before.remaining),
                picked.len() <= all.len(),
                picked.len() <= count,
                picked@ == all.take(picked.len() as int),
                self@.remaining == before.remaining.difference(picked@.to_set()),
                self@.tried == before.tried,
                self@.leases == before.leases,
                match next {
                    Some(least) => self@.remaining.contains(least) && forall|x: u32|
                        self@.remaining.contains(x) ==> least <= x,
                    None => self@.remaining == Set::<u32>::empty(),
                },
            decreases all.len() - picked.len(),
        {
            let code = next.unwrap();
            proof {
                assert forall|x: u32|
                    before.remaining.contains(x) && !picked@.contains(x) implies code <= x by {
                    assert(self@.remaining.contains(x));
                }
                lemma_lowest_next(before.remaining, picked.len() as nat, code);
                picked@.lemma_push_to_set_commute(code);
            }
            let _ = self.remaining_codes.remove(code);
            picked.push(code);
            next = self.remaining_codes.min();
            assert(self@.remaining =~= before.remaining.difference(picked@.to_set()));
        }
        proof {
            if picked.len() < count {
                assert forall|x: u32| before.remaining.contains(x) implies all.take(
                    picked.len() as int,
                ).contains(x) by {
                    assert(!self@.remaining.contains(x));
                    assert(picked@.to_set().contains(x));
                }
                lemma_lowest_all(before.remaining, picked.len() as nat);
            }
            assert(picked@ =~= before.lowest_free(count as nat));
            lemma_lowest(before.remaining, count as nat);
            assert forall|t: int| 0 <= t < picked.len() implies #[trigger] picked@[t]
                < CODE_COUNT by {
                assert(picked@.contains(picked@[t]));
            }
        }
        let mut lease_codes: Vec<u32> = Vec::new();
        let mut code_strings: Vec<String> = Vec::new();
        let mut j: usize = picked.len();
        while j > 0
            invariant
                codes.wf(),
                j <= picked.len(),
                lease_codes.len() == picked.len() - j,
                code_strings.len() == picked.len() - j,
                forall|t: int| 0 <= t < picked.len() ==> #[trigger] picked@[t] < CODE_COUNT,
                forall|t: int|
                    0 <= t < lease_codes.len() ==> #[trigger] lease_codes@[t] == picked@[picked.len()
                        - 1 - t],
                forall|t: int|
                    0 <= t < code_strings.len() ==> (#[trigger] code_strings@[t])@
                        == codes@[picked@[picked.len() - 1 - t] as int],
            decreases j,
        {
            j -= 1;
            let code = picked[j];
            lease_codes.push(code);
            code_strings.push(code_index_to_string(codes, code).clone());
        }
        let expires_at = now.deadline();
        self.code_reservations.push(Lease { codes: lease_codes, expires_at });
        let reservation = CodeReservation { codes: code_strings, expires_at };
        proof {
            let batch = before.batch(count as nat);
            assert(lease_codes@ =~= batch);
            assert(self@.leases =~= before.leases.push(
                LeaseView { codes: batch, expires_at: now.lease_deadline() },
            ));
            assert(reservation@.codes =~= code_texts(codes@, batch));
            lemma_reserve_keeps_valid(
                before,
                CODE_COUNT as nat,
                count as nat,
                now.lease_deadline(),
            );
        }
        reservation
    }

    /// Checks out codes as `reserve_codes_at` does, at the instant that
    /// the clock shows.
    pub fn reserve_codes(&mut self, codes: &CodeList, count: usize) -> (reservation: CodeReservation)
        requires
            old(self).wf(),
            codes.wf(),
        ensures
            final(self).wf(),
            reservation@.codes == code_texts(codes@, old(self)@.batch(count as nat)),
            final(self)@ == old(self)@.reserve(count as nat, reservation@.expires_at),
            exists|now: Timestamp| reservation@.expires_at == now.lease_deadline(),
    {
        let now = utc_now();
        self.reserve_codes_at(codes, count, now)
    }

    /// Sweeps the leases that ran out before `now`: each of their codes
    /// that has not been tried is free again, and the leases are gone. A
    /// lease that has not run out stays as it is.
    pub fn expire_reservations_at(&mut self, now: Timestamp)
        requires
            old(self).wf(),
        ensures
            final(self).wf(),
            final(self)@ == old(self)@.reclaim(now),
    {
        let ghost before = self@;
        let ghost mut seen: int = 0;
        let mut codes_to_retry: Vec<u32> = Vec::new();
        let mut i: usize = 0;
        proof {
            assert(before.leases.take(0).filter(live_at(now)) =~= Seq::empty()) by {
                reveal(Seq::filter);
            }
            assert(self@.leases =~= before.leases.take(0).filter(live_at(now))
                + before.leases.skip(0));
            assert(codes_to_retry@.to_set() =~= handed_back_so_far(before, now, 0, 0));
        }
        while i < self.code_reservations.len()
            invariant
                self@.remaining == before.remaining,
                self@.tried == before.tried,
                0 <= seen <= before.leases.len(),
                i == before.leases.take(seen).filter(live_at(now)).len(),
                self@.leases == before.leases.take(seen).filter(live_at(now)) + before.leases.skip(
                    seen,
                ),
                codes_to_retry@.to_set() == handed_back_so_far(before, now, seen, 0),
            decreases before.leases.len() - seen,
        {
            let ghost kept = before.leases.take(seen).filter(live_at(now));
            proof {
                assert(self@.leases[i as int] == before.leases[seen]);
                assert(lease_view(self.code_reservations@[i as int]) == self@.leases[i as int]);
                assert(before.leases.take(seen + 1) =~= before.leases.take(seen).push(
                    before.leases[seen],
                ));
                before.leases.take(seen).lemma_filter_push(before.leases[seen], live_at(now));
            }
            let ghost held = self.code_reservations@;
            assert(lease_views(held) == kept + before.leases.skip(seen));
            assert(lease_views(held).len() == held.len());
            if self.code_reservations[i].expires_at.is_before(&now) {
                let lease = self.code_reservations.remove(i);
                assert(lease_view(lease) == before.leases[seen]);
                proof {
                    let rest = kept + before.leases.skip(seen + 1);
                    assert(self.code_reservations@ == held.remove(i as int));
                    assert(self@.leases == lease_views(self.code_reservations@));
                    assert(self@.leases.len() == rest.len());
                    assert forall|t: int| 0 <= t < rest.len() implies self@.leases[t] == rest[t] by {
                        if t < i {
                            assert(self.code_reservations@[t] == held[t]);
                            assert(lease_views(held)[t] == kept[t]);
                        } else {
                            assert(self.code_reservations@[t] == held[t + 1]);
                            assert(lease_views(held)[t + 1] == before.leases[seen + 1 + t - i]);
                        }
                    }
                    assert(self@.leases =~= rest);
                }
                let mut j: usize = 0;
                while j < lease.codes.len()
                    invariant
                        self@.tried == before.tried,
                        0 <= seen < before.leases.len(),
                        lease_view(lease) == before.leases[seen],
                        before.leases[seen].is_expired(now),
                        j <= lease.codes.len(),
                        codes_to_retry@.to_set() == handed_back_so_far(before, now, seen, j as int),
                    decreases lease.codes.len() - j,
                {
                    let code = lease.codes[j];
                    let ghost so_far = codes_to_retry@;
                    assert(before.is_slot(seen, j as int) && before.code_at(seen, j as int) == code);
                    if !self.tried_codes.contains(code) {
                        codes_to_retry.push(code);
                        proof {
                            so_far.lemma_push_to_set_commute(code);
                        }
                    }
                    j += 1;
                    assert(codes_to_retry@.to_set() =~= handed_back_so_far(
                        before,
                        now,
                        seen,
                        j as int,
                    ));
                }
                assert(handed_back_so_far(before, now, seen, j as int) =~= handed_back_so_far(
                    before,
                    now,
                    seen + 1,
                    0,
                ));
            } else {
                i += 1;
                assert(self@.leases =~= kept.push(before.leases[seen]) + before.leases.skip(
                    seen + 1,
                ));
                assert(handed_back_so_far(before, now, seen, 0) =~= handed_back_so_far(
                    before,
                    now,
                    seen + 1,
                    0,
                ));
            }
            proof {
                seen = seen + 1;
            }
        }
        self.remaining_codes.bitor_assign(bitmap_from_iter(codes_to_retry));
        proof {
            assert(before.leases.take(seen) =~= before.leases);
            assert(self@.leases =~= before.reclaim(now).leases);
            assert(handed_back_so_far(before, now, seen, 0) =~= before.handed_back(now));
            lemma_reclaim_keeps_valid(before, CODE_COUNT as nat, now);
        }
    }

    /// Sweeps the leases that have run out by the clock, as
    /// `expire_reservations_at` does for a given instant.
    pub fn expire_reservations(&mut self)
        requires
            old(self).wf(),
        ensures
            final(self).wf(),
            exists|now: Timestamp| final(self)@ == old(self)@.reclaim(now),
    {
        let now = utc_now();
        self.expire_reservations_at(now);
    }
}

/// The codes that a sweep at `now` has found to hand back when it has read
/// the leases before `lease` and the first `place` codes of that lease.
spec fn handed_back_so_far(v: RaidView, now: Timestamp, lease: int, place: int) -> Set<u32> {
    Set::new(
        |code: u32|
            !v.tried.contains(code) && exists|l: int, p: int| #[trigger]
                v.is_slot(l, p) && v.code_at(l, p) == code && v.leases[l].is_expired(now) && (l
                    < lease || (l == lease && p < place)),
    )
}

} // verus!
