//! The state of one raid as mathematics: two sets of code indices and a
//! sequence of leases, with the steps that lead from one state to the next.
//!
//! The executable operations of the library are stated against these
//! definitions.

use crate::ascending::{indices_below, lowest};
use crate::clock::Timestamp;
use vstd::prelude::*;

verus! {

/// A batch of codes checked out to one worker until `expires_at`.
pub struct LeaseView {
    pub codes: Seq<u32>,
    pub expires_at: Timestamp,
}

/// The tally that is reported of a raid.
pub struct Tally {
    pub tried: nat,
    pub remaining: nat,
}

/// The state of one raid.
pub struct RaidView {
    /// The codes that are neither tried nor checked out.
    pub remaining: Set<u32>,
    /// The codes that have been tried.
    pub tried: Set<u32>,
    /// The leases that have not been swept away yet, oldest first.
    pub leases: Seq<LeaseView>,
}

impl LeaseView {
    /// The lease ran out before `now`.
    pub open spec fn is_expired(self, now: Timestamp) -> bool {
        self.expires_at.precedes(now)
    }
}

/// The test that a sweep at `now` puts to each lease: has it not run out?
pub open spec fn live_at(now: Timestamp) -> spec_fn(LeaseView) -> bool {
    |lease: LeaseView| !lease.is_expired(now)
}

impl RaidView {
    /// `(lease, place)` is a place in one of the leases.
    pub open spec fn is_slot(self, lease: int, place: int) -> bool {
        0 <= lease < self.leases.len() && 0 <= place < self.leases[lease].codes.len()
    }

    /// The code at a place of a lease.
    pub open spec fn code_at(self, lease: int, place: int) -> u32 {
        self.leases[lease].codes[place]
    }

    /// Some lease holds `code`.
    pub open spec fn is_leased(self, code: u32) -> bool {
        exists|lease: int, place: int| #[trigger]
            self.is_slot(lease, place) && self.code_at(lease, place) == code
    }

    /// Some lease that ran out before `now` holds `code`.
    pub open spec fn is_abandoned(self, code: u32, now: Timestamp) -> bool {
        exists|lease: int, place: int| #[trigger]
            self.is_slot(lease, place) && self.code_at(lease, place) == code
                && self.leases[lease].is_expired(now)
    }

    /// What holds of every state of a raid over `n` codes. Every index
    /// below `n` is in exactly one of three conditions: untried and free
    /// (in `remaining`), tried (in `tried`), or untried and held by exactly
    /// one lease. A tried code may still stand in the one lease that held
    /// it when it was tried.
    pub open spec fn inv(self, n: nat) -> bool {
        &&& forall|code: u32| self.remaining.contains(code) ==> code < n
        &&& forall|code: u32| self.tried.contains(code) ==> code < n
        &&& forall|code: u32| !(self.remaining.contains(code) && self.tried.contains(code))
        &&& forall|lease: int, place: int| #[trigger]
            self.is_slot(lease, place) ==> self.code_at(lease, place) < n
                && !self.remaining.contains(self.code_at(lease, place))
        &&& forall|lease_a: int, place_a: int, lease_b: int, place_b: int|
            #![trigger self.is_slot(lease_a, place_a), self.is_slot(lease_b, place_b)]
            self.is_slot(lease_a, place_a) && self.is_slot(lease_b, place_b) && self.code_at(lease_a, place_a) == self.code_at(
                lease_b,
                place_b,
            ) ==> lease_a == lease_b && place_a == place_b
        &&& forall|code: u32|
            #![trigger self.remaining.contains(code)]
            #![trigger self.tried.contains(code)]
            #![trigger self.is_leased(code)]
            code < n ==> self.remaining.contains(code) || self.tried.contains(code)
                || self.is_leased(code)
    }

    /// A raid on which nothing has happened: every code is untried and
    /// free.
    pub open spec fn fresh(n: nat) -> RaidView {
        RaidView { remaining: indices_below(n), tried: Set::empty(), leases: Seq::empty() }
    }

    /// The codes that `skip(count)` moves and that `reserve(count, ..)`
    /// checks out: the `count` lowest free codes, lowest first.
    pub open spec fn lowest_free(self, count: nat) -> Seq<u32> {
        lowest(self.remaining, count)
    }

    /// Marks the `count` lowest free codes as tried, without a lease.
    pub open spec fn skip(self, count: nat) -> RaidView {
        RaidView {
            remaining: self.remaining.difference(self.lowest_free(count).to_set()),
            tried: self.tried.union(self.lowest_free(count).to_set()),
            leases: self.leases,
        }
    }

    /// The codes of the lease that `reserve(count, ..)` grants, in the
    /// order in which the lease lists them: the `count` lowest free codes,
    /// highest first.
    pub open spec fn batch(self, count: nat) -> Seq<u32> {
        self.lowest_free(count).reverse()
    }

    /// Checks the `count` lowest free codes out under a new lease, which
    /// joins the leases as the last one.
    pub open spec fn reserve(self, count: nat, expires_at: Timestamp) -> RaidView {
        RaidView {
            remaining: self.remaining.difference(self.lowest_free(count).to_set()),
            tried: self.tried,
            leases: self.leases.push(LeaseView { codes: self.batch(count), expires_at }),
        }
    }

    /// Marks one code as tried, wherever it was.
    pub open spec fn complete(self, code: u32) -> RaidView {
        RaidView {
            remaining: self.remaining.remove(code),
            tried: self.tried.insert(code),
            leases: self.leases,
        }
    }

    /// The codes that a sweep at `now` hands back: those in a lease that
    /// ran out before `now`, unless they have been tried.
    pub open spec fn handed_back(self, now: Timestamp) -> Set<u32> {
        Set::new(|code: u32| self.is_abandoned(code, now) && !self.tried.contains(code))
    }

    /// Sweeps the leases that ran out before `now`: their untried codes
    /// are free again, and the leases are gone. The others stay as they
    /// are, in their order.
    pub open spec fn reclaim(self, now: Timestamp) -> RaidView {
        RaidView {
            remaining: self.remaining.union(self.handed_back(now)),
            tried: self.tried,
            leases: self.leases.filter(live_at(now)),
        }
    }

    /// The tally of a raid over `n` codes. A code that is checked out
    /// counts as remaining.
    pub open spec fn tally(self, n: nat) -> Tally {
        Tally { tried: self.tried.len(), remaining: (n - self.tried.len()) as nat }
    }
}

} // verus!
