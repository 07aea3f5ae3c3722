//! What holds of every raid, whatever is asked of it.
//!
//! Each law is stated over the states of `crate::model` and proved for all
//! of them.

use crate::ascending::{
    index_run, index_span, indices_below, least_of, lemma_ascending_counts,
    lemma_ascending_indices_below, lemma_ascending_len, lemma_lowest, lemma_lowest_of_index_span,
};
use crate::clock::Timestamp;
use crate::model::{RaidView, Tally};
use vstd::arithmetic::div_mod::{
    lemma_fundamental_div_mod, lemma_fundamental_div_mod_converse, lemma_mod_bound,
};
use vstd::prelude::*;
use vstd::set_lib::lemma_set_disjoint_lens;

verus! {

/// A raid on which nothing has happened reports no code as tried and every
/// code as remaining, however many codes there are.
pub proof fn lemma_fresh_tally(n: nat)
    ensures
        RaidView::fresh(n).tally(n) == (Tally { tried: 0, remaining: n }),
{
}

/// Skipping `k` codes of a fresh raid over `n` codes marks the `k` lowest
/// indices as tried, all of them where `k` is more than `n`, and leaves
/// the others free; the tally reports as many tried codes.
pub proof fn lemma_skip_of_fresh(n: nat, k: nat)
    requires
        n <= 0x1_0000_0000,
    ensures
        RaidView::fresh(n).skip(k).tried == indices_below(least_of(k, n)),
        RaidView::fresh(n).skip(k).remaining == index_span(least_of(k, n), n),
        RaidView::fresh(n).skip(k).tally(n) == (Tally {
            tried: least_of(k, n),
            remaining: (n - least_of(k, n)) as nat,
        }),
{
    let skipped = least_of(k, n);
    let v = RaidView::fresh(n).skip(k);
    assert(indices_below(n) =~= index_span(0, n));
    lemma_lowest_of_index_span(0, n, k);
    assert(index_run(0, skipped).to_set() =~= indices_below(skipped)) by {
        assert forall|x: u32| indices_below(skipped).contains(x) implies index_run(
            0,
            skipped,
        ).contains(x) by {
            assert(index_run(0, skipped)[x as int] == x);
        }
    }
    assert(v.tried =~= indices_below(skipped));
    assert(v.remaining =~= index_span(skipped, n));
    lemma_ascending_indices_below(skipped);
}

/// The codes that are checked out and have not been tried.
pub open spec fn in_flight(v: RaidView) -> Set<u32> {
    Set::new(|code: u32| v.is_leased(code) && !v.tried.contains(code))
}

/// Every code is counted once: the free codes, the tried codes and the
/// untried codes that are checked out add up to all codes.
pub proof fn lemma_codes_add_up(v: RaidView, n: nat)
    requires
        n <= 0x1_0000_0000,
        v.inv(n),
    ensures
        v.remaining.len() + v.tried.len() + in_flight(v).len() == n,
        v.remaining.disjoint(v.tried),
        v.remaining.disjoint(in_flight(v)),
        v.tried.disjoint(in_flight(v)),
{
    let held = in_flight(v);
    lemma_ascending_len(v.remaining);
    lemma_ascending_len(v.tried);
    lemma_ascending_len(held);
    lemma_ascending_indices_below(n);
    assert forall|code: u32| !(v.remaining.contains(code) && held.contains(code)) by {
        if held.contains(code) {
            let (lease, place) = choose|lease: int, place: int| #[trigger]
                v.is_slot(lease, place) && v.code_at(lease, place) == code;
            assert(v.is_slot(lease, place));
        }
    }
    assert forall|code: u32| held.contains(code) implies code < n by {
        let (lease, place) = choose|lease: int, place: int| #[trigger]
            v.is_slot(lease, place) && v.code_at(lease, place) == code;
        assert(v.is_slot(lease, place));
    }
    let settled = v.remaining + v.tried;
    lemma_set_disjoint_lens(v.remaining, v.tried);
    lemma_ascending_len(settled);
    assert(settled.disjoint(held));
    lemma_set_disjoint_lens(settled, held);
    assert(settled + held =~= indices_below(n));
}

/// Skipping moves codes from the free to the tried and nowhere else: `k`
/// of them, or all free codes where there are fewer.
pub proof fn lemma_skip_moves(v: RaidView, n: nat, k: nat)
    requires
        v.inv(n),
    ensures
        v.skip(k).tried.len() == v.tried.len() + least_of(k, v.remaining.len()),
        v.skip(k).remaining.len() == v.remaining.len() - least_of(k, v.remaining.len()),
        v.skip(k).remaining.disjoint(v.skip(k).tried),
{
    lemma_moved_codes(v, n, k);
    let moved = v.lowest_free(k).to_set();
    lemma_ascending_len(v.tried);
    lemma_ascending_len(moved);
    assert(v.tried.disjoint(moved));
    lemma_set_disjoint_lens(v.tried, moved);
}

/// Checking out takes codes from the free and from nowhere else: `count`
/// of them, or all free codes where there are fewer. The batch is empty
/// exactly where nothing is asked for or no code is free.
pub proof fn lemma_reserve_takes(v: RaidView, n: nat, count: nat, deadline: Timestamp)
    requires
        v.inv(n),
    ensures
        v.batch(count).len() == least_of(count, v.remaining.len()),
        v.reserve(count, deadline).remaining.len() == v.remaining.len() - least_of(
            count,
            v.remaining.len(),
        ),
        v.reserve(count, deadline).tried == v.tried,
{
    lemma_moved_codes(v, n, count);
}

/// The codes that `skip` and `reserve` take out of the free codes are as
/// many as asked for, or all free codes, and they leave as many fewer.
proof fn lemma_moved_codes(v: RaidView, n: nat, k: nat)
    requires
        v.inv(n),
    ensures
        v.lowest_free(k).len() == least_of(k, v.remaining.len()),
        v.batch(k).len() == least_of(k, v.remaining.len()),
        v.lowest_free(k).to_set().len() == least_of(k, v.remaining.len()),
        v.lowest_free(k).to_set().subset_of(v.remaining),
        v.remaining.difference(v.lowest_free(k).to_set()).len() == v.remaining.len() - least_of(
            k,
            v.remaining.len(),
        ),
{
    let picked = v.lowest_free(k);
    let moved = picked.to_set();
    let rest = v.remaining.difference(moved);
    lemma_lowest(v.remaining, k);
    lemma_ascending_counts(picked);
    lemma_ascending_len(v.remaining);
    lemma_ascending_len(rest);
    assert(moved.subset_of(v.remaining)) by {
        assert forall|code: u32| moved.contains(code) implies v.remaining.contains(code) by {
            assert(picked.contains(code));
        }
    }
    assert(rest.disjoint(moved));
    lemma_set_disjoint_lens(rest, moved);
    assert(rest + moved =~= v.remaining);
}

/// A tried code is never handed out: no reservation holds a code that was
/// tried before, and in particular none that was skipped.
pub proof fn lemma_tried_codes_are_not_reserved(v: RaidView, n: nat, count: nat, code: u32)
    requires
        v.inv(n),
        v.tried.contains(code),
    ensures
        !v.batch(count).contains(code),
{
    lemma_lowest(v.remaining, count);
    if v.batch(count).contains(code) {
        let place = choose|place: int| 0 <= place < v.batch(count).len() && v.batch(count)[place]
            == code;
        let picked = v.lowest_free(count);
        assert(picked[picked.len() - 1 - place] == code);
        assert(picked.contains(code));
    }
}

/// Once a code is tried it stays tried, whatever happens to the raid.
pub proof fn lemma_tried_is_final(
    v: RaidView,
    code: u32,
    count: nat,
    other: u32,
    instant: Timestamp,
)
    requires
        v.tried.contains(code),
    ensures
        v.skip(count).tried.contains(code),
        v.reserve(count, instant).tried.contains(code),
        v.complete(other).tried.contains(code),
        v.reclaim(instant).tried.contains(code),
{
}

/// Submitting a code twice leaves the raid as submitting it once does, and
/// so leaves the same tally.
pub proof fn lemma_complete_twice(v: RaidView, n: nat, code: u32)
    ensures
        v.complete(code).complete(code) == v.complete(code),
        v.complete(code).complete(code).tally(n) == v.complete(code).tally(n),
{
    assert(v.complete(code).complete(code).remaining =~= v.complete(code).remaining);
    assert(v.complete(code).complete(code).tried =~= v.complete(code).tried);
}

/// A sweep hands a code of a lease that ran out back exactly where the
/// code has not been tried: an abandoned code is free again, and a code
/// that was tried in the meantime never is.
pub proof fn lemma_reclaim_hands_back(v: RaidView, n: nat, now: Timestamp, lease: int, place: int)
    requires
        v.inv(n),
        v.is_slot(lease, place),
        v.leases[lease].is_expired(now),
    ensures
        v.reclaim(now).remaining.contains(v.code_at(lease, place)) <==> !v.tried.contains(
            v.code_at(lease, place),
        ),
{
    let code = v.code_at(lease, place);
    if !v.tried.contains(code) {
        assert(v.is_abandoned(code, now));
    }
}

/// A sweep leaves the codes of a lease that has not run out where they
/// are: none of them is free afterwards.
pub proof fn lemma_reclaim_keeps_live_codes(
    v: RaidView,
    n: nat,
    now: Timestamp,
    lease: int,
    place: int,
)
    requires
        v.inv(n),
        v.is_slot(lease, place),
        !v.leases[lease].is_expired(now),
    ensures
        !v.reclaim(now).remaining.contains(v.code_at(lease, place)),
{
    let code = v.code_at(lease, place);
    if v.is_abandoned(code, now) {
        let (lease_b, place_b) = choose|lease_b: int, place_b: int| #[trigger]
            v.is_slot(lease_b, place_b) && v.code_at(lease_b, place_b) == code && v.leases[lease_b].is_expired(now);
        assert(v.is_slot(lease_b, place_b));
    }
}

/// A batch that is checked out and abandoned comes back. Where codes are
/// checked out, one code is submitted, and the lease runs out, the sweep
/// frees every code of the batch but the submitted one.
pub proof fn lemma_abandoned_batch_returns(
    v: RaidView,
    n: nat,
    count: nat,
    deadline: Timestamp,
    submitted: u32,
    now: Timestamp,
    code: u32,
)
    requires
        v.inv(n),
        deadline.precedes(now),
        v.batch(count).contains(code),
    ensures
        v.reserve(count, deadline).reclaim(now).remaining.contains(code),
        v.reserve(count, deadline).complete(submitted).reclaim(now).remaining.contains(code)
            <==> code != submitted,
{
    let reserved = v.reserve(count, deadline);
    let last = v.leases.len() as int;
    let place = choose|place: int| 0 <= place < v.batch(count).len() && v.batch(count)[place]
        == code;
    lemma_lowest(v.remaining, count);
    let picked = v.lowest_free(count);
    assert(picked[picked.len() - 1 - place] == code);
    assert(picked.contains(code));
    assert(v.remaining.contains(code));
    assert(reserved.is_slot(last, place) && reserved.code_at(last, place) == code);
    assert(reserved.is_abandoned(code, now));
    let tried = reserved.complete(submitted);
    assert(tried.is_slot(last, place) && tried.code_at(last, place) == code);
    if code != submitted {
        assert(tried.is_abandoned(code, now));
    }
}

/// How many rounds it takes to hand `n` codes out in batches of `size`:
/// `n / size`, rounded up.
pub open spec fn rounds_needed(n: nat, size: nat) -> int {
    (n + size - 1) / (size as int)
}

/// The batch that round `round` hands out where a fresh raid over `n`
/// codes is drained in batches of `size`.
pub open spec fn batch_of_round(
    n: nat,
    size: nat,
    deadlines: spec_fn(nat) -> Timestamp,
    round: nat,
) -> Seq<u32> {
    drained(n, size, round, deadlines).batch(size)
}

/// How many codes the last batch holds that is not empty, where `n` codes
/// are handed out in batches of `size`: what is left over of `n`, or a
/// full batch where nothing is left over.
pub open spec fn last_batch_len(n: nat, size: nat) -> nat {
    if n % size == 0 {
        size
    } else {
        n % size
    }
}

/// The raid over `n` codes after `rounds` reservations of `size` codes
/// each and nothing else, where the reservation of round `i` runs out at
/// `deadlines(i)`. Rounds are counted from 0.
pub open spec fn drained(n: nat, size: nat, rounds: nat, deadlines: spec_fn(nat) -> Timestamp) -> RaidView
    decreases rounds,
{
    if rounds == 0 {
        RaidView::fresh(n)
    } else {
        drained(n, size, (rounds - 1) as nat, deadlines).reserve(
            size,
            deadlines((rounds - 1) as nat),
        )
    }
}

/// Draining a fresh raid batch by batch. After `rounds` reservations of
/// `size` codes the lowest `rounds * size` indices are gone, and the next
/// batch holds the `size` indices that follow, as far as there are any,
/// highest first.
pub proof fn lemma_drained(n: nat, size: nat, rounds: nat, deadlines: spec_fn(nat) -> Timestamp)
    requires
        n <= 0x1_0000_0000,
    ensures
        drained(n, size, rounds, deadlines).remaining == index_span(least_of(rounds * size, n), n),
        drained(n, size, rounds, deadlines).batch(size) == index_run(
            least_of(rounds * size, n),
            least_of(rounds * size + size, n),
        ).reverse(),
    decreases rounds,
{
    let v = drained(n, size, rounds, deadlines);
    let from = least_of(rounds * size, n);
    if rounds == 0 {
        assert(rounds * size == 0) by (nonlinear_arith)
            requires
                rounds == 0,
        ;
        assert(v.remaining =~= index_span(from, n));
    } else {
        let before = drained(n, size, (rounds - 1) as nat, deadlines);
        let earlier = least_of(((rounds - 1) as nat) * size, n);
        lemma_drained(n, size, (rounds - 1) as nat, deadlines);
        assert(((rounds - 1) as nat) * size + size == rounds * size) by (nonlinear_arith)
            requires
                rounds > 0,
        ;
        lemma_lowest_of_index_span(earlier, n, size);
        assert(before.lowest_free(size) == index_run(earlier, from));
        assert(v.remaining =~= index_span(from, n)) by {
            assert forall|x: u32| index_run(earlier, from).contains(x) <==> earlier <= x
                < from by {
                if earlier <= x < from {
                    assert(index_run(earlier, from)[x - earlier] == x);
                }
            }
        }
    }
    lemma_lowest_of_index_span(from, n, size);
}

/// Draining to the end. Where batches of `size` codes are checked out of
/// a fresh raid over `n` codes one after the other, the batch of round
/// `round` is not empty exactly in the first `ceil(n / size)` rounds; each
/// of these batches but the last holds `size` codes, and the last holds
/// `n mod size` codes, or `size` where that is 0; and every code is in
/// exactly one batch, that of round `code / size`.
pub proof fn lemma_exhaustion(
    n: nat,
    size: nat,
    deadlines: spec_fn(nat) -> Timestamp,
    round: nat,
    code: u32,
)
    requires
        n <= 0x1_0000_0000,
        size > 0,
    ensures
        batch_of_round(n, size, deadlines, round).len() > 0 <==> round < rounds_needed(n, size),
        round + 1 < rounds_needed(n, size) ==> batch_of_round(n, size, deadlines, round).len()
            == size,
        round + 1 == rounds_needed(n, size) ==> batch_of_round(n, size, deadlines, round).len()
            == last_batch_len(n, size),
        code < n ==> (batch_of_round(n, size, deadlines, round).contains(code) <==> round == (
        code as int) / (size as int)),
{
    let batch = batch_of_round(n, size, deadlines, round);
    let from = least_of(round * size, n);
    let upto = least_of(round * size + size, n);
    let run = index_run(from, upto);
    lemma_drained(n, size, round, deadlines);
    assert(batch.len() == upto - from);
    assert forall|x: u32| batch.contains(x) <==> from <= x < upto by {
        if batch.contains(x) {
            let place = choose|place: int| 0 <= place < batch.len() && batch[place] == x;
            assert(run[run.len() - 1 - place] == x);
        }
        if from <= x < upto {
            assert(batch[upto - 1 - x] == x);
        }
    }
    lemma_round_bounds(n, size, round);
    lemma_round_of_code(size, round, code);
}

/// How the number of rounds that it takes to drain `n` codes in batches of
/// `size` bounds the codes that a round finds.
proof fn lemma_round_bounds(n: nat, size: nat, round: nat)
    requires
        size > 0,
    ensures
        round < rounds_needed(n, size) <==> round * size < n,
        round + 1 < rounds_needed(n, size) ==> round * size + size < n,
        round + 1 == rounds_needed(n, size) ==> round * size < n <= round * size + size && n
            - round * size == last_batch_len(n, size),
{
    let d = size as int;
    let x = n + size - 1;
    let q = x / d;
    let r = x % d;
    let done = round * d;
    lemma_fundamental_div_mod(x, d);
    lemma_mod_bound(x, d);
    assert(d * q == q * d) by (nonlinear_arith);
    assert((round + 1) * d == done + d) by (nonlinear_arith)
        requires
            done == round * d,
    ;
    assert((round + 2) * d == done + d + d) by (nonlinear_arith)
        requires
            done == round * d,
    ;
    assert(round + 1 <= q ==> (round + 1) * d <= q * d) by (nonlinear_arith)
        requires
            d > 0,
    ;
    assert(round + 2 <= q ==> (round + 2) * d <= q * d) by (nonlinear_arith)
        requires
            d > 0,
    ;
    assert(round >= q ==> round * d >= q * d) by (nonlinear_arith)
        requires
            d > 0,
    ;
    if round + 1 == q {
        assert(n == done + 1 + r);
        if 1 + r < d {
            lemma_fundamental_div_mod_converse(n as int, d, round as int, 1 + r);
        } else {
            lemma_fundamental_div_mod_converse(n as int, d, round as int + 1, 0);
        }
    }
}

/// A code is found in the round that its index divided by the size of the
/// batches gives.
proof fn lemma_round_of_code(size: nat, round: nat, code: u32)
    requires
        size > 0,
    ensures
        round == (code as int) / (size as int) <==> round * size <= code < round * size + size,
{
    let d = size as int;
    let x = code as int;
    lemma_fundamental_div_mod(x, d);
    lemma_mod_bound(x, d);
    assert(d * (x / d) == (x / d) * d) by (nonlinear_arith);
    if round * size <= code < round * size + size {
        lemma_fundamental_div_mod_converse(x, d, round as int, x - round * d);
    }
}

} // verus!
