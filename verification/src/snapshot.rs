//! Storing a raid and reading it back.
//!
//! A stored raid is two bitmaps, each written as text, and a list of
//! reservations. This file says which state such parts stand for, if any,
//! and holds what decides it.

use crate::ascending::lists_ascending;
use crate::bitmap::{bitmap_iter, bitmap_values};
use crate::codes::{code_index_to_string, code_texts, string_to_code_index, CodeList, CODE_COUNT};
use crate::encoding::{
    bitmap_from_bytes, bitmap_of_text, bitmap_text, bitmap_to_bytes, can_be_written,
    is_written_text,
};
use crate::error::RaidError;
use crate::model::{LeaseView, RaidView};
use crate::raid::{lease_view, lease_views, CodeReservation, Lease, Raid, ReservationView};
use roaring::RoaringBitmap;
use vstd::prelude::*;

verus! {

/// What a sequence of reservations says, reservation by reservation.
pub open spec fn views_of(reservations: Seq<CodeReservation>) -> Seq<ReservationView> {
    reservations.map_values(|reservation: CodeReservation| reservation@)
}

/// The lease that a reservation describes: the indices of its codes.
pub open spec fn lease_of(list: Seq<Seq<char>>, reservation: ReservationView) -> LeaseView {
    LeaseView {
        codes: reservation.codes.map_values(|text: Seq<char>| list.index_of(text) as u32),
        expires_at: reservation.expires_at,
    }
}

/// The leases that reservations describe, in their order.
pub open spec fn leases_of(list: Seq<Seq<char>>, reservations: Seq<ReservationView>) -> Seq<
    LeaseView,
> {
    reservations.map_values(|reservation: ReservationView| lease_of(list, reservation))
}

/// The reservation that describes a lease: the texts of its codes.
pub open spec fn reservation_of(list: Seq<Seq<char>>, lease: LeaseView) -> ReservationView {
    ReservationView { codes: code_texts(list, lease.codes), expires_at: lease.expires_at }
}

/// The reservations that describe leases, in their order.
pub open spec fn reservations_of(list: Seq<Seq<char>>, leases: Seq<LeaseView>) -> Seq<
    ReservationView,
> {
    leases.map_values(|lease: LeaseView| reservation_of(list, lease))
}

/// Every code of every reservation is in the list.
pub open spec fn all_known(list: Seq<Seq<char>>, reservations: Seq<ReservationView>) -> bool {
    forall|i: int, j: int|
        0 <= i < reservations.len() && 0 <= j < reservations[i].codes.len() ==> list.contains(
            #[trigger] reservations[i].codes[j],
        )
}

/// The state that the parts of a stored raid stand for.
pub open spec fn restored(
    list: Seq<Seq<char>>,
    remaining: Set<u32>,
    tried: Set<u32>,
    reservations: Seq<ReservationView>,
) -> RaidView {
    RaidView { remaining, tried, leases: leases_of(list, reservations) }
}

/// The parts make up a raid: the reservations hold codes of the list only,
/// and the state that the parts stand for is valid.
pub open spec fn is_valid_snapshot(
    list: Seq<Seq<char>>,
    remaining: Set<u32>,
    tried: Set<u32>,
    reservations: Seq<ReservationView>,
) -> bool {
    &&& all_known(list, reservations)
    &&& restored(list, remaining, tried, reservations).inv(CODE_COUNT as nat)
}

/// A raid as a snapshot stores it: each of its two bitmaps as text, and its
/// leases with the texts of their codes.
#[derive(Debug, Clone)]
pub struct RaidSnapshot {
    pub remaining_codes: String,
    pub tried_codes: String,
    pub code_reservations: Vec<CodeReservation>,
}

/// What a stored raid says.
pub struct SnapshotView {
    pub remaining_codes: Seq<char>,
    pub tried_codes: Seq<char>,
    pub code_reservations: Seq<ReservationView>,
}

impl View for RaidSnapshot {
    type V = SnapshotView;

    open spec fn view(&self) -> SnapshotView {
        SnapshotView {
            remaining_codes: self.remaining_codes@,
            tried_codes: self.tried_codes@,
            code_reservations: views_of(self.code_reservations@),
        }
    }
}

/// The state that a stored raid stands for, and `None` where one of its
/// texts stands for no set or its parts make up no raid.
pub open spec fn stored_raid(list: Seq<Seq<char>>, snapshot: SnapshotView) -> Option<RaidView> {
    match (bitmap_of_text(snapshot.remaining_codes), bitmap_of_text(snapshot.tried_codes)) {
        (Some(remaining), Some(tried)) => if is_valid_snapshot(
            list,
            remaining,
            tried,
            snapshot.code_reservations,
        ) {
            Some(restored(list, remaining, tried, snapshot.code_reservations))
        } else {
            None
        },
        _ => None,
    }
}

/// A raid reads back from its parts. The two sets of a valid raid and the
/// reservations that describe its leases make up a valid snapshot, and
/// the state that the snapshot stands for is the state of the raid.
pub proof fn lemma_snapshot_reads_back(list: Seq<Seq<char>>, v: RaidView)
    requires
        list.len() == CODE_COUNT,
        list.no_duplicates(),
        v.inv(CODE_COUNT as nat),
    ensures
        is_valid_snapshot(list, v.remaining, v.tried, reservations_of(list, v.leases)),
        restored(list, v.remaining, v.tried, reservations_of(list, v.leases)) == v,
{
    let stored = reservations_of(list, v.leases);
    let read = leases_of(list, stored);
    assert forall|i: int, j: int|
        0 <= i < stored.len() && 0 <= j < stored[i].codes.len() implies list.contains(
        #[trigger] stored[i].codes[j],
    ) by {
        assert(v.is_slot(i, j));
        assert(stored[i].codes[j] == list[v.code_at(i, j) as int]);
    }
    assert forall|i: int| 0 <= i < v.leases.len() implies read[i] == v.leases[i] by {
        assert forall|j: int| 0 <= j < v.leases[i].codes.len() implies read[i].codes[j]
            == v.leases[i].codes[j] by {
            assert(v.is_slot(i, j));
            let code = v.code_at(i, j);
            assert(stored[i].codes[j] == list[code as int]);
            assert(list.contains(list[code as int]));
        }
        assert(read[i].codes =~= v.leases[i].codes);
    }
    assert(read =~= v.leases);
}

/// Both texts of the stored raid are what stores some bitmap.
pub open spec fn is_written_snapshot(snapshot: SnapshotView) -> bool {
    is_written_text(snapshot.remaining_codes) && is_written_text(snapshot.tried_codes)
}

/// Reservations whose codes are all in the list are described again by the
/// leases that they describe.
pub proof fn lemma_reservations_read_back(
    list: Seq<Seq<char>>,
    reservations: Seq<ReservationView>,
)
    requires
        list.len() <= u32::MAX,
        all_known(list, reservations),
    ensures
        reservations_of(list, leases_of(list, reservations)) == reservations,
{
    let read = reservations_of(list, leases_of(list, reservations));
    assert forall|i: int| 0 <= i < reservations.len() implies read[i] == reservations[i] by {
        assert forall|j: int| 0 <= j < reservations[i].codes.len() implies read[i].codes[j]
            == reservations[i].codes[j] by {
            let text = reservations[i].codes[j];
            assert(list.contains(text));
            assert(0 <= list.index_of(text) < list.len());
            assert(list[list.index_of(text)] == text);
        }
        assert(read[i].codes =~= reservations[i].codes);
    }
    assert(read =~= reservations);
}

impl Raid {
    /// Both bitmaps of the raid can be stored as text.
    pub open spec fn can_be_stored(&self) -> bool {
        can_be_written(self.remaining_bitmap()) && can_be_written(self.tried_bitmap())
    }

    /// What is stored of the raid: the text of each of its bitmaps, and
    /// the reservations that describe its leases.
    pub open spec fn snapshot_of(&self, list: Seq<Seq<char>>) -> SnapshotView {
        SnapshotView {
            remaining_codes: bitmap_text(self.remaining_bitmap()),
            tried_codes: bitmap_text(self.tried_bitmap()),
            code_reservations: reservations_of(list, self@.leases),
        }
    }

    /// The raid as a snapshot stores it. A snapshot comes back exactly
    /// where both bitmaps can be stored as text. It holds the text of each
    /// bitmap and the reservations that describe the leases, and it stands
    /// for the state of the raid: nothing is lost.
    pub fn to_snapshot(&self, codes: &CodeList) -> (r: Result<RaidSnapshot, RaidError>)
        requires
            self.wf(),
            codes.wf(),
        ensures
            r is Ok <==> self.can_be_stored(),
            match r {
                Ok(snapshot) => {
                    &&& snapshot@ == self.snapshot_of(codes@)
                    &&& stored_raid(codes@, snapshot@) == Some(self@)
                    &&& is_written_snapshot(snapshot@)
                },
                Err(e) => e == RaidError::PersistenceFailure,
            },
    {
        let remaining_codes = match bitmap_to_bytes(self.remaining_codes()) {
            Ok(text) => text,
            Err(e) => {
                return Err(e);
            },
        };
        let tried_codes = match bitmap_to_bytes(self.tried_codes()) {
            Ok(text) => text,
            Err(e) => {
                return Err(e);
            },
        };
        let code_reservations = self.code_reservations(codes);
        proof {
            lemma_snapshot_reads_back(codes@, self@);
        }
        Ok(RaidSnapshot { remaining_codes, tried_codes, code_reservations })
    }

    /// The raid that a snapshot stores. A raid comes back exactly where
    /// the snapshot stands for a state, and it is in that state. Where the
    /// texts of the snapshot are what stores some bitmaps, the raid that
    /// comes back can be stored, and it is stored as that snapshot again.
    pub fn from_snapshot(codes: &CodeList, snapshot: &RaidSnapshot) -> (r: Result<Raid, RaidError>)
        requires
            codes.wf(),
        ensures
            match r {
                Ok(raid) => {
                    &&& raid.wf()
                    &&& stored_raid(codes@, snapshot@) == Some(raid@)
                    &&& is_written_snapshot(snapshot@) ==> raid.can_be_stored() && raid.snapshot_of(
                        codes@,
                    ) == snapshot@
                },
                Err(e) => e == RaidError::PersistenceFailure && stored_raid(codes@, snapshot@)
                    is None,
            },
    {
        let remaining_codes = match bitmap_from_bytes(snapshot.remaining_codes.as_str()) {
            Ok(bitmap) => bitmap,
            Err(e) => {
                return Err(e);
            },
        };
        let tried_codes = match bitmap_from_bytes(snapshot.tried_codes.as_str()) {
            Ok(bitmap) => bitmap,
            Err(e) => {
                return Err(e);
            },
        };
        let r = Raid::from_parts(codes, remaining_codes, tried_codes, &snapshot.code_reservations);
        proof {
            if r is Ok {
                lemma_reservations_read_back(codes@, snapshot@.code_reservations);
            }
        }
        r
    }
}

/// The leases that the reservations describe, where every code of them is
/// in the list.
pub(crate) fn leases_from(codes: &CodeList, reservations: &Vec<CodeReservation>) -> (r: Option<
    Vec<Lease>,
>)
    requires
        codes.wf(),
    ensures
        match r {
            Some(leases) => {
                &&& all_known(codes@, views_of(reservations@))
                &&& lease_views(leases@) == leases_of(codes@, views_of(reservations@))
                &&& forall|a: int, b: int|
                    0 <= a < leases.len() && 0 <= b < leases@[a].codes.len() ==> (
                    #[trigger] leases@[a].codes@[b]) < CODE_COUNT
            },
            None => !all_known(codes@, views_of(reservations@)),
        },
{
    let ghost given = views_of(reservations@);
    let mut leases: Vec<Lease> = Vec::new();
    let mut i: usize = 0;
    while i < reservations.len()
        invariant
            codes.wf(),
            given == views_of(reservations@),
            i <= reservations.len(),
            leases.len() == i,
            forall|a: int, b: int|
                0 <= a < i && 0 <= b < given[a].codes.len() ==> codes@.contains(
                    #[trigger] given[a].codes[b],
                ),
            forall|a: int| 0 <= a < i ==> lease_view(#[trigger] leases@[a]) == lease_of(codes@, given[a]),
            forall|a: int, b: int|
                0 <= a < i && 0 <= b < leases@[a].codes.len() ==> (#[trigger] leases@[a].codes@[b])
                    < CODE_COUNT,
        decreases reservations.len() - i,
    {
        let reservation = &reservations[i];
        assert(reservation@ == given[i as int]);
        let mut indices: Vec<u32> = Vec::new();
        let mut j: usize = 0;
        while j < reservation.codes.len()
            invariant
                codes.wf(),
                given == views_of(reservations@),
                0 <= i < given.len(),
                reservation@ == given[i as int],
                j <= reservation.codes.len(),
                indices.len() == j,
                forall|b: int| 0 <= b < j ==> codes@.contains(#[trigger] given[i as int].codes[b]),
                forall|b: int|
                    0 <= b < j ==> #[trigger] indices@[b] == codes@.index_of(
                        given[i as int].codes[b],
                    ),
                forall|b: int| 0 <= b < j ==> #[trigger] indices@[b] < CODE_COUNT,
            decreases reservation.codes.len() - j,
        {
            assert(reservation.codes@[j as int]@ == given[i as int].codes[j as int]);
            match string_to_code_index(codes, reservation.codes[j].as_str()) {
                Ok(code_idx) => {
                    assert(codes@.contains(given[i as int].codes[j as int]));
                    assert(codes@.index_of(given[i as int].codes[j as int]) == code_idx);
                    indices.push(code_idx);
                },
                Err(_) => {
                    assert(!codes@.contains(given[i as int].codes[j as int]));
                    return None;
                },
            }
            j += 1;
        }
        let lease = Lease { codes: indices, expires_at: reservation.expires_at };
        assert(lease_view(lease).codes =~= lease_of(codes@, given[i as int]).codes);
        leases.push(lease);
        i += 1;
    }
    assert(lease_views(leases@) =~= leases_of(codes@, given));
    Some(leases)
}

/// The reservations that describe the given leases.
pub(crate) fn reservations_from(codes: &CodeList, leases: &Vec<Lease>) -> (reservations: Vec<
    CodeReservation,
>)
    requires
        codes.wf(),
        forall|a: int, b: int|
            0 <= a < leases.len() && 0 <= b < leases@[a].codes.len() ==> (
            #[trigger] leases@[a].codes@[b]) < CODE_COUNT,
    ensures
        views_of(reservations@) == reservations_of(codes@, lease_views(leases@)),
{
    let mut reservations: Vec<CodeReservation> = Vec::new();
    let mut i: usize = 0;
    while i < leases.len()
        invariant
            codes.wf(),
            forall|a: int, b: int|
                0 <= a < leases.len() && 0 <= b < leases@[a].codes.len() ==> (
                #[trigger] leases@[a].codes@[b]) < CODE_COUNT,
            i <= leases.len(),
            reservations.len() == i,
            forall|a: int|
                0 <= a < i ==> (#[trigger] reservations@[a])@ == reservation_of(
                    codes@,
                    lease_view(leases@[a]),
                ),
        decreases leases.len() - i,
    {
        let lease = &leases[i];
        let mut code_strings: Vec<String> = Vec::new();
        let mut j: usize = 0;
        while j < lease.codes.len()
            invariant
                codes.wf(),
                0 <= i < leases.len(),
                *lease == leases@[i as int],
                forall|b: int|
                    0 <= b < lease.codes.len() ==> (#[trigger] lease.codes@[b]) < CODE_COUNT,
                j <= lease.codes.len(),
                code_strings.len() == j,
                forall|b: int|
                    0 <= b < j ==> (#[trigger] code_strings@[b])@ == codes@[lease.codes@[b] as int],
            decreases lease.codes.len() - j,
        {
            code_strings.push(code_index_to_string(codes, lease.codes[j]).clone());
            j += 1;
        }
        let reservation = CodeReservation { codes: code_strings, expires_at: lease.expires_at };
        assert(reservation@.codes =~= reservation_of(codes@, lease_view(*lease)).codes);
        reservations.push(reservation);
        i += 1;
    }
    assert(views_of(reservations@) =~= reservations_of(codes@, lease_views(leases@)));
    reservations
}

/// Whether the bitmap holds indices of the code list only.
pub(crate) fn holds_indices_only(bitmap: &RoaringBitmap) -> (r: bool)
    ensures
        r == forall|code: u32| bitmap_values(*bitmap).contains(code) ==> code < CODE_COUNT,
{
    let values = bitmap_iter(bitmap);
    let mut i: usize = 0;
    while i < values.len()
        invariant
            lists_ascending(values@, bitmap_values(*bitmap)),
            i <= values.len(),
            forall|a: int| 0 <= a < i ==> values@[a] < CODE_COUNT,
        decreases values.len() - i,
    {
        if values[i] >= CODE_COUNT {
            assert(values@.contains(values@[i as int]));
            return false;
        }
        i += 1;
    }
    assert forall|code: u32| bitmap_values(*bitmap).contains(code) implies code < CODE_COUNT by {
        assert(values@.contains(code));
    }
    true
}

/// Whether the two bitmaps have no value in common.
pub(crate) fn have_nothing_in_common(first: &RoaringBitmap, second: &RoaringBitmap) -> (r: bool)
    ensures
        r == forall|code: u32|
            !(bitmap_values(*first).contains(code) && bitmap_values(*second).contains(code)),
{
    let values = bitmap_iter(first);
    let mut i: usize = 0;
    while i < values.len()
        invariant
            lists_ascending(values@, bitmap_values(*first)),
            i <= values.len(),
            forall|a: int| 0 <= a < i ==> !bitmap_values(*second).contains(values@[a]),
        decreases values.len() - i,
    {
        if second.contains(values[i]) {
            assert(values@.contains(values@[i as int]));
            return false;
        }
        i += 1;
    }
    assert forall|code: u32|
        !(bitmap_values(*first).contains(code) && bitmap_values(*second).contains(code)) by {
        if bitmap_values(*first).contains(code) {
            assert(values@.contains(code));
        }
    }
    true
}

/// The place `(l, p)` comes before the place `(lease, place)` when the
/// leases are read one after the other.
pub(crate) open spec fn comes_before(l: int, p: int, lease: int, place: int) -> bool {
    l < lease || (l == lease && p < place)
}

/// The codes at the places before `(lease, place)`.
pub(crate) open spec fn held_before(v: RaidView, lease: int, place: int) -> Set<u32> {
    Set::new(
        |code: u32|
            exists|l: int, p: int| #[trigger]
                v.is_slot(l, p) && v.code_at(l, p) == code && comes_before(l, p, lease, place),
    )
}

/// No lease holds a free code, and no code is held twice.
pub(crate) open spec fn leases_are_sound(v: RaidView) -> bool {
    &&& forall|lease: int, place: int| #[trigger]
        v.is_slot(lease, place) ==> !v.remaining.contains(v.code_at(lease, place))
    &&& forall|lease_a: int, place_a: int, lease_b: int, place_b: int|
        #![trigger v.is_slot(lease_a, place_a), v.is_slot(lease_b, place_b)]
        v.is_slot(lease_a, place_a) && v.is_slot(lease_b, place_b) && v.code_at(lease_a, place_a) == v.code_at(lease_b, place_b) ==> lease_a
            == lease_b && place_a == place_b
}

/// The set of the codes that the leases hold, where no lease holds a free
/// code and no code is held twice.
pub(crate) fn leased_codes(
    leases: &Vec<Lease>,
    remaining: &RoaringBitmap,
    Ghost(v): Ghost<RaidView>,
) -> (r: Option<RoaringBitmap>)
    requires
        v.leases == lease_views(leases@),
        v.remaining == bitmap_values(*remaining),
    ensures
        match r {
            Some(held) => leases_are_sound(v) && forall|code: u32|
                bitmap_values(held).contains(code) <==> v.is_leased(code),
            None => !leases_are_sound(v),
        },
{
    let mut held = RoaringBitmap::new();
    let mut i: usize = 0;
    assert(bitmap_values(held) =~= held_before(v, 0, 0));
    while i < leases.len()
        invariant
            v.leases == lease_views(leases@),
            v.remaining == bitmap_values(*remaining),
            i <= leases.len(),
            bitmap_values(held) == held_before(v, i as int, 0),
            forall|l: int, p: int| #[trigger]
                v.is_slot(l, p) && comes_before(l, p, i as int, 0) ==> !v.remaining.contains(
                    v.code_at(l, p),
                ),
            forall|lease_a: int, place_a: int, lease_b: int, place_b: int|
                #![trigger v.is_slot(lease_a, place_a), v.is_slot(lease_b, place_b)]
                v.is_slot(lease_a, place_a) && v.is_slot(lease_b, place_b) && comes_before(lease_a, place_a, i as int, 0)
                    && comes_before(lease_b, place_b, i as int, 0) && v.code_at(lease_a, place_a) == v.code_at(lease_b, place_b)
                    ==> lease_a == lease_b && place_a == place_b,
        decreases leases.len() - i,
    {
        let lease = &leases[i];
        assert(lease_view(*lease) == v.leases[i as int]);
        let mut j: usize = 0;
        while j < lease.codes.len()
            invariant
                v.leases == lease_views(leases@),
                v.remaining == bitmap_values(*remaining),
                i < leases.len(),
                lease_view(*lease) == v.leases[i as int],
                j <= lease.codes.len(),
                bitmap_values(held) == held_before(v, i as int, j as int),
                forall|l: int, p: int| #[trigger]
                    v.is_slot(l, p) && comes_before(l, p, i as int, j as int)
                        ==> !v.remaining.contains(v.code_at(l, p)),
                forall|lease_a: int, place_a: int, lease_b: int, place_b: int|
                    #![trigger v.is_slot(lease_a, place_a), v.is_slot(lease_b, place_b)]
                    v.is_slot(lease_a, place_a) && v.is_slot(lease_b, place_b) && comes_before(lease_a, place_a, i as int, j as int)
                        && comes_before(lease_b, place_b, i as int, j as int) && v.code_at(lease_a, place_a) == v.code_at(
                        lease_b,
                        place_b,
                    ) ==> lease_a == lease_b && place_a == place_b,
            decreases lease.codes.len() - j,
        {
            let code = lease.codes[j];
            assert(v.is_slot(i as int, j as int) && v.code_at(i as int, j as int) == code);
            if remaining.contains(code) {
                return None;
            }
            if held.contains(code) {
                proof {
                    let (l, p) = choose|l: int, p: int| #[trigger]
                        v.is_slot(l, p) && v.code_at(l, p) == code && comes_before(
                            l,
                            p,
                            i as int,
                            j as int,
                        );
                    assert(v.is_slot(l, p));
                }
                return None;
            }
            let _ = held.insert(code);
            j += 1;
            assert(bitmap_values(held) =~= held_before(v, i as int, j as int)) by {
                assert forall|c: u32| held_before(v, i as int, j as int).contains(c) implies (c
                    == code || held_before(v, i as int, j - 1).contains(c)) by {
                    let (l, p) = choose|l: int, p: int| #[trigger]
                        v.is_slot(l, p) && v.code_at(l, p) == c && comes_before(
                            l,
                            p,
                            i as int,
                            j as int,
                        );
                    if !(l == i && p == j - 1) {
                        assert(v.is_slot(l, p) && comes_before(l, p, i as int, j - 1));
                    }
                }
                assert forall|c: u32|
                    held_before(v, i as int, j - 1).contains(c) implies held_before(
                    v,
                    i as int,
                    j as int,
                ).contains(c) by {
                    let (l, p) = choose|l: int, p: int| #[trigger]
                        v.is_slot(l, p) && v.code_at(l, p) == c && comes_before(
                            l,
                            p,
                            i as int,
                            j - 1,
                        );
                    assert(v.is_slot(l, p) && comes_before(l, p, i as int, j as int));
                }
            }
        }
        i += 1;
        assert(held_before(v, i - 1, j as int) =~= held_before(v, i as int, 0)) by {
            assert forall|c: u32| held_before(v, i - 1, j as int).contains(c) implies held_before(
                v,
                i as int,
                0,
            ).contains(c) by {
                let (l, p) = choose|l: int, p: int| #[trigger]
                    v.is_slot(l, p) && v.code_at(l, p) == c && comes_before(l, p, i - 1, j as int);
                assert(v.is_slot(l, p) && comes_before(l, p, i as int, 0));
            }
            assert forall|c: u32| held_before(v, i as int, 0).contains(c) implies held_before(
                v,
                i - 1,
                j as int,
            ).contains(c) by {
                let (l, p) = choose|l: int, p: int| #[trigger]
                    v.is_slot(l, p) && v.code_at(l, p) == c && comes_before(l, p, i as int, 0);
                assert(v.is_slot(l, p) && comes_before(l, p, i - 1, j as int));
            }
        }
    }
    proof {
        assert forall|code: u32| bitmap_values(held).contains(code) <==> v.is_leased(code) by {
            if bitmap_values(held).contains(code) {
                let (l, p) = choose|l: int, p: int| #[trigger]
                    v.is_slot(l, p) && v.code_at(l, p) == code && comes_before(l, p, i as int, 0);
                assert(v.is_slot(l, p));
            }
            if v.is_leased(code) {
                let (l, p) = choose|l: int, p: int| #[trigger]
                    v.is_slot(l, p) && v.code_at(l, p) == code;
                assert(v.is_slot(l, p) && comes_before(l, p, i as int, 0));
            }
        }
    }
    Some(held)
}

/// Whether every index of the code list is in one of the three bitmaps.
pub(crate) fn every_code_is_held(
    first: &RoaringBitmap,
    second: &RoaringBitmap,
    third: &RoaringBitmap,
) -> (r: bool)
    ensures
        r == forall|code: u32|
            code < CODE_COUNT ==> bitmap_values(*first).contains(code) || bitmap_values(
                *second,
            ).contains(code) || bitmap_values(*third).contains(code),
{
    let mut code: u32 = 0;
    while code < CODE_COUNT
        invariant
            code <= CODE_COUNT,
            forall|c: u32|
                c < code ==> bitmap_values(*first).contains(c) || bitmap_values(*second).contains(c)
                    || bitmap_values(*third).contains(c),
        decreases CODE_COUNT - code,
    {
        if !first.contains(code) && !second.contains(code) && !third.contains(code) {
            return false;
        }
        code += 1;
    }
    true
}

} // verus!
