//! Every step keeps the state of a raid valid.
//!
//! `RaidView::inv` holds of a fresh raid, and `skip`, `reserve`, `complete`
//! and `reclaim` each lead from a valid state to a valid state.

use crate::ascending::{is_ascending, lemma_lowest};
use crate::clock::Timestamp;
use crate::model::{live_at, LeaseView, RaidView};
use vstd::prelude::*;

verus! {

/// A raid on which nothing has happened is in a valid state.
pub proof fn lemma_fresh_is_valid(n: nat)
    ensures
        RaidView::fresh(n).inv(n),
{
}

/// What carries over to a state `w` with the leases of a valid state `v`
/// and no free code that `v` does not have.
proof fn lemma_same_leases(v: RaidView, w: RaidView, n: nat)
    requires
        v.inv(n),
        w.leases == v.leases,
        forall|code: u32| w.remaining.contains(code) ==> v.remaining.contains(code),
    ensures
        forall|lease: int, place: int| #[trigger]
            w.is_slot(lease, place) ==> w.code_at(lease, place) < n && !w.remaining.contains(
                w.code_at(lease, place),
            ),
        forall|lease_a: int, place_a: int, lease_b: int, place_b: int|
            #![trigger w.is_slot(lease_a, place_a), w.is_slot(lease_b, place_b)]
            w.is_slot(lease_a, place_a) && w.is_slot(lease_b, place_b) && w.code_at(lease_a, place_a) == w.code_at(lease_b, place_b)
                ==> lease_a == lease_b && place_a == place_b,
        forall|code: u32| #[trigger] v.is_leased(code) ==> w.is_leased(code),
{
    assert forall|lease: int, place: int| #[trigger] w.is_slot(lease, place) implies w.code_at(
        lease,
        place,
    ) < n && !w.remaining.contains(w.code_at(lease, place)) by {
        assert(v.is_slot(lease, place));
    }
    assert forall|lease_a: int, place_a: int, lease_b: int, place_b: int|
        #![trigger w.is_slot(lease_a, place_a), w.is_slot(lease_b, place_b)]
        w.is_slot(lease_a, place_a) && w.is_slot(lease_b, place_b) && w.code_at(lease_a, place_a) == w.code_at(
            lease_b,
            place_b,
        ) implies lease_a == lease_b && place_a == place_b by {
        assert(v.is_slot(lease_a, place_a));
        assert(v.is_slot(lease_b, place_b));
    }
    assert forall|code: u32| #[trigger] v.is_leased(code) implies w.is_leased(code) by {
        let (lease, place) = choose|lease: int, place: int| #[trigger]
            v.is_slot(lease, place) && v.code_at(lease, place) == code;
        assert(w.is_slot(lease, place) && w.code_at(lease, place) == code);
    }
}

/// Marking a code of the list as tried keeps the state valid.
pub proof fn lemma_complete_keeps_valid(v: RaidView, n: nat, code: u32)
    requires
        v.inv(n),
        code < n,
    ensures
        v.complete(code).inv(n),
{
    lemma_same_leases(v, v.complete(code), n);
}

/// Skipping codes keeps the state valid.
pub proof fn lemma_skip_keeps_valid(v: RaidView, n: nat, count: nat)
    requires
        v.inv(n),
    ensures
        v.skip(count).inv(n),
{
    lemma_lowest(v.remaining, count);
    lemma_same_leases(v, v.skip(count), n);
}

/// Checking codes out keeps the state valid.
pub proof fn lemma_reserve_keeps_valid(v: RaidView, n: nat, count: nat, expires_at: Timestamp)
    requires
        v.inv(n),
    ensures
        v.reserve(count, expires_at).inv(n),
{
    let w = v.reserve(count, expires_at);
    let picked = v.lowest_free(count);
    let batch = v.batch(count);
    let last = v.leases.len() as int;
    lemma_lowest(v.remaining, count);
    assert(is_ascending(picked));
    assert forall|place: int| 0 <= place < batch.len() implies #[trigger] batch[place]
        == picked[picked.len() - 1 - place] && picked.contains(batch[place]) by {}
    assert forall|lease: int, place: int| #[trigger] w.is_slot(lease, place) implies w.code_at(
        lease,
        place,
    ) < n && !w.remaining.contains(w.code_at(lease, place)) by {
        if lease < last {
            assert(v.is_slot(lease, place));
        } else {
            assert(w.code_at(lease, place) == batch[place]);
        }
    }
    assert forall|lease_a: int, place_a: int, lease_b: int, place_b: int|
        #![trigger w.is_slot(lease_a, place_a), w.is_slot(lease_b, place_b)]
        w.is_slot(lease_a, place_a) && w.is_slot(lease_b, place_b) && w.code_at(lease_a, place_a) == w.code_at(
            lease_b,
            place_b,
        ) implies lease_a == lease_b && place_a == place_b by {
        if lease_a < last {
            assert(v.is_slot(lease_a, place_a));
        } else {
            assert(w.code_at(lease_a, place_a) == batch[place_a]);
        }
        if lease_b < last {
            assert(v.is_slot(lease_b, place_b));
        } else {
            assert(w.code_at(lease_b, place_b) == batch[place_b]);
        }
        if lease_a == last && lease_b == last && place_a != place_b {
            let a = picked.len() - 1 - place_a;
            let b = picked.len() - 1 - place_b;
            if a < b {
                assert(picked[a] < picked[b]);
            } else {
                assert(picked[b] < picked[a]);
            }
        }
    }
    assert forall|code: u32| code < n implies w.remaining.contains(code) || w.tried.contains(code)
        || w.is_leased(code) by {
        if v.remaining.contains(code) {
            if picked.contains(code) {
                let i = choose|i: int| 0 <= i < picked.len() && picked[i] == code;
                let place = picked.len() - 1 - i;
                assert(w.is_slot(last, place) && w.code_at(last, place) == code);
            }
        } else if v.is_leased(code) {
            let (lease, place) = choose|lease: int, place: int| #[trigger]
                v.is_slot(lease, place) && v.code_at(lease, place) == code;
            assert(w.is_slot(lease, place) && w.code_at(lease, place) == code);
        }
    }
}

/// The place among `leases` of the `k`-th of them that has not run out
/// before `now`.
pub open spec fn origin(leases: Seq<LeaseView>, now: Timestamp, k: int) -> int
    decreases leases.len(),
{
    if leases.len() == 0 {
        0
    } else if k < leases.drop_last().filter(live_at(now)).len() {
        origin(leases.drop_last(), now, k)
    } else {
        leases.len() - 1
    }
}

/// The leases that a sweep keeps are the leases that have not run out, in
/// their order: `origin` says where each of them stood.
pub proof fn lemma_kept_leases(leases: Seq<LeaseView>, now: Timestamp)
    ensures
        forall|k: int|
            0 <= k < leases.filter(live_at(now)).len() ==> {
                let at = #[trigger] origin(leases, now, k);
                &&& 0 <= at < leases.len()
                &&& leases[at] == leases.filter(live_at(now))[k]
                &&& !leases[at].is_expired(now)
            },
        forall|k1: int, k2: int|
            0 <= k1 < k2 < leases.filter(live_at(now)).len() ==> #[trigger] origin(leases, now, k1)
                < #[trigger] origin(leases, now, k2),
        forall|at: int|
            0 <= at < leases.len() && !(#[trigger] leases[at]).is_expired(now) ==> exists|k: int|
                0 <= k < leases.filter(live_at(now)).len() && #[trigger] origin(leases, now, k)
                    == at,
    decreases leases.len(),
{
    reveal(Seq::filter);
    let kept = leases.filter(live_at(now));
    if leases.len() > 0 {
        let front = leases.drop_last();
        let front_kept = front.filter(live_at(now));
        lemma_kept_leases(front, now);
        assert forall|k: int| 0 <= k < kept.len() implies {
            let at = #[trigger] origin(leases, now, k);
            &&& 0 <= at < leases.len()
            &&& leases[at] == kept[k]
            &&& !leases[at].is_expired(now)
        } by {
            if k < front_kept.len() {
                let at = origin(front, now, k);
                assert(front[at] == leases[at]);
            }
        }
        assert forall|k1: int, k2: int| 0 <= k1 < k2 < kept.len() implies #[trigger] origin(
            leases,
            now,
            k1,
        ) < #[trigger] origin(leases, now, k2) by {
            if k2 < front_kept.len() {
                assert(origin(front, now, k1) < origin(front, now, k2));
            } else {
                assert(origin(leases, now, k1) == origin(front, now, k1));
            }
        }
        assert forall|at: int|
            0 <= at < leases.len() && !(#[trigger] leases[at]).is_expired(now) implies exists|
            k: int,
        |
            0 <= k < kept.len() && #[trigger] origin(leases, now, k) == at by {
            if at < front.len() {
                assert(!front[at].is_expired(now));
                let k = choose|k: int|
                    0 <= k < front_kept.len() && #[trigger] origin(front, now, k) == at;
                assert(origin(leases, now, k) == at);
            } else {
                assert(origin(leases, now, front_kept.len() as int) == at);
            }
        }
    }
}

/// Sweeping the leases that ran out keeps the state valid.
pub proof fn lemma_reclaim_keeps_valid(v: RaidView, n: nat, now: Timestamp)
    requires
        v.inv(n),
    ensures
        v.reclaim(now).inv(n),
{
    let w = v.reclaim(now);
    lemma_kept_leases(v.leases, now);
    assert forall|k: int, place: int| #[trigger] w.is_slot(k, place) implies {
        let at = origin(v.leases, now, k);
        &&& v.is_slot(at, place)
        &&& v.code_at(at, place) == w.code_at(k, place)
        &&& !v.leases[at].is_expired(now)
    } by {
        let at = origin(v.leases, now, k);
        assert(v.leases[at] == w.leases[k]);
    }
    assert forall|code: u32| w.remaining.contains(code) implies code < n by {
        if !v.remaining.contains(code) {
            let (lease, place) = choose|lease: int, place: int| #[trigger]
                v.is_slot(lease, place) && v.code_at(lease, place) == code
                    && v.leases[lease].is_expired(now);
            assert(v.is_slot(lease, place));
        }
    }
    assert forall|k: int, place: int| #[trigger] w.is_slot(k, place) implies w.code_at(k, place)
        < n && !w.remaining.contains(w.code_at(k, place)) by {
        let at = origin(v.leases, now, k);
        let code = w.code_at(k, place);
        assert(v.is_slot(at, place));
        if v.is_abandoned(code, now) {
            let (lease_b, place_b) = choose|lease_b: int, place_b: int| #[trigger]
                v.is_slot(lease_b, place_b) && v.code_at(lease_b, place_b) == code && v.leases[lease_b].is_expired(now);
            assert(v.is_slot(lease_b, place_b));
            assert(lease_b == at);
        }
    }
    assert forall|k1: int, place_a: int, k2: int, place_b: int|
        #![trigger w.is_slot(k1, place_a), w.is_slot(k2, place_b)]
        w.is_slot(k1, place_a) && w.is_slot(k2, place_b) && w.code_at(k1, place_a) == w.code_at(
            k2,
            place_b,
        ) implies k1 == k2 && place_a == place_b by {
        let a1 = origin(v.leases, now, k1);
        let a2 = origin(v.leases, now, k2);
        assert(v.is_slot(a1, place_a));
        assert(v.is_slot(a2, place_b));
        assert(a1 == a2 && place_a == place_b);
        if k1 < k2 {
            assert(origin(v.leases, now, k1) < origin(v.leases, now, k2));
        }
        if k2 < k1 {
            assert(origin(v.leases, now, k2) < origin(v.leases, now, k1));
        }
    }
    assert forall|code: u32| code < n implies w.remaining.contains(code) || w.tried.contains(code)
        || w.is_leased(code) by {
        if !v.remaining.contains(code) && !v.tried.contains(code) {
            assert(v.is_leased(code));
            let (lease, place) = choose|lease: int, place: int| #[trigger]
                v.is_slot(lease, place) && v.code_at(lease, place) == code;
            if v.leases[lease].is_expired(now) {
                assert(v.is_abandoned(code, now));
            } else {
                let k = choose|k: int|
                    0 <= k < w.leases.len() && #[trigger] origin(v.leases, now, k) == lease;
                assert(w.leases[k] == v.leases[lease]);
                assert(w.is_slot(k, place) && w.code_at(k, place) == code);
            }
        }
    }
}

} // verus!
