//! Sets of code indices read in ascending order.
//!
//! Codes are handed out and skipped lowest index first. This file says what
//! "the `k` lowest members of a set" means and proves the facts about it
//! that the rest of the library needs.

use vstd::prelude::*;
use vstd::seq_lib::seq_to_set_is_finite;

verus! {

/// `q` is strictly increasing.
pub open spec fn is_ascending(q: Seq<u32>) -> bool {
    forall|i: int, j: int| 0 <= i < j < q.len() ==> q[i] < q[j]
}

/// `q` lists the members of `s` in ascending order, each of them once.
pub open spec fn lists_ascending(q: Seq<u32>, s: Set<u32>) -> bool {
    &&& is_ascending(q)
    &&& forall|x: u32|
        #![trigger q.contains(x)]
        #![trigger s.contains(x)]
        q.contains(x) <==> s.contains(x)
}

/// The members of `s` that are below `bound`, in ascending order.
pub open spec fn members_below(s: Set<u32>, bound: nat) -> Seq<u32>
    decreases bound,
{
    if bound == 0 {
        Seq::empty()
    } else {
        let rest = members_below(s, (bound - 1) as nat);
        if bound - 1 <= u32::MAX && s.contains((bound - 1) as u32) {
            rest.push((bound - 1) as u32)
        } else {
            rest
        }
    }
}

/// The members of `s` in ascending order: the one sequence `q` with
/// `lists_ascending(q, s)`, see [`lemma_ascending_lists`] and
/// [`lemma_ascending_is_unique`].
pub open spec fn ascending(s: Set<u32>) -> Seq<u32> {
    members_below(s, 0x1_0000_0000)
}

/// The smaller of two numbers.
pub open spec fn least_of(a: nat, b: nat) -> nat {
    if a < b {
        a
    } else {
        b
    }
}

/// The `k` lowest members of `s` in ascending order, and all of `s` where
/// it has fewer than `k` members.
pub open spec fn lowest(s: Set<u32>, k: nat) -> Seq<u32> {
    let all = ascending(s);
    if k < all.len() {
        all.take(k as int)
    } else {
        all
    }
}

/// The set of all indices below `n`.
pub open spec fn indices_below(n: nat) -> Set<u32> {
    Set::new(|x: u32| x < n)
}

/// The set of the indices from `from` up to, and without, `to`.
pub open spec fn index_span(from: nat, to: nat) -> Set<u32> {
    Set::new(|x: u32| from <= x < to)
}

/// The indices from `from` up to, and without, `to`, in ascending order.
pub open spec fn index_run(from: nat, to: nat) -> Seq<u32> {
    Seq::new((to - from) as nat, |i: int| (from + i) as u32)
}

proof fn lemma_members_below(s: Set<u32>, bound: nat)
    requires
        bound <= 0x1_0000_0000,
    ensures
        is_ascending(members_below(s, bound)),
        forall|x: u32|
            #![trigger members_below(s, bound).contains(x)]
            #![trigger s.contains(x)]
            members_below(s, bound).contains(x) <==> (s.contains(x) && x < bound),
    decreases bound,
{
    if bound > 0 {
        lemma_members_below(s, (bound - 1) as nat);
        let rest = members_below(s, (bound - 1) as nat);
        let top = (bound - 1) as u32;
        let q = members_below(s, bound);
        if s.contains(top) {
            assert(q == rest.push(top));
            assert forall|i: int, j: int| 0 <= i < j < q.len() implies q[i] < q[j] by {
                assert(q[i] == rest[i]);
                if j == rest.len() {
                    assert(rest.contains(rest[i]));
                    assert(rest[i] < bound - 1);
                    assert(q[j] == top);
                } else {
                    assert(q[j] == rest[j]);
                    assert(rest[i] < rest[j]);
                }
            }
            assert forall|x: u32| q.contains(x) <==> (s.contains(x) && x < bound) by {
                if q.contains(x) {
                    let i = choose|i: int| 0 <= i < q.len() && q[i] == x;
                    if i < rest.len() {
                        assert(rest.contains(rest[i]));
                    }
                }
                if s.contains(x) && x < bound {
                    if x == top {
                        assert(q[rest.len() as int] == x);
                    } else {
                        assert(rest.contains(x));
                        let i = choose|i: int| 0 <= i < rest.len() && rest[i] == x;
                        assert(q[i] == x);
                    }
                }
            }
        } else {
            assert(q == rest);
        }
    }
}

/// `ascending(s)` lists the members of `s` in ascending order.
pub proof fn lemma_ascending_lists(s: Set<u32>)
    ensures
        lists_ascending(ascending(s), s),
{
    lemma_members_below(s, 0x1_0000_0000);
}

/// Two ascending sequences with the same members are the same sequence.
pub proof fn lemma_ascending_same_members(q1: Seq<u32>, q2: Seq<u32>)
    requires
        is_ascending(q1),
        is_ascending(q2),
        forall|x: u32|
            #![trigger q1.contains(x)]
            #![trigger q2.contains(x)]
            q1.contains(x) <==> q2.contains(x),
    ensures
        q1 == q2,
    decreases q1.len(),
{
    if q1.len() == 0 {
        if q2.len() > 0 {
            assert(q2.contains(q2[0]));
        }
        assert(q1 =~= q2);
    } else if q2.len() == 0 {
        assert(q1.contains(q1[0]));
    } else {
        let m1 = q1.last();
        let m2 = q2.last();
        assert(q1.contains(m1));
        assert(q2.contains(m2));
        let j = choose|j: int| 0 <= j < q2.len() && q2[j] == m1;
        let i = choose|i: int| 0 <= i < q1.len() && q1[i] == m2;
        assert(m1 == m2);
        let r1 = q1.drop_last();
        let r2 = q2.drop_last();
        assert forall|x: u32| r1.contains(x) <==> r2.contains(x) by {
            if r1.contains(x) {
                let a = choose|a: int| 0 <= a < r1.len() && r1[a] == x;
                assert(q1[a] == x);
                assert(q1.contains(x));
                let b = choose|b: int| 0 <= b < q2.len() && q2[b] == x;
                assert(r2[b] == x);
            }
            if r2.contains(x) {
                let b = choose|b: int| 0 <= b < r2.len() && r2[b] == x;
                assert(q2[b] == x);
                assert(q2.contains(x));
                let a = choose|a: int| 0 <= a < q1.len() && q1[a] == x;
                assert(r1[a] == x);
            }
        }
        lemma_ascending_same_members(r1, r2);
        assert(q1 =~= r1.push(m1));
        assert(q2 =~= r2.push(m2));
    }
}

/// A sequence that lists the members of `s` in ascending order is
/// `ascending(s)`.
pub proof fn lemma_ascending_is_unique(q: Seq<u32>, s: Set<u32>)
    requires
        lists_ascending(q, s),
    ensures
        q == ascending(s),
{
    lemma_ascending_lists(s);
    lemma_ascending_same_members(q, ascending(s));
}

/// An ascending sequence holds nothing twice, and its set has as many
/// members as the sequence has places.
pub proof fn lemma_ascending_counts(q: Seq<u32>)
    requires
        is_ascending(q),
    ensures
        q.no_duplicates(),
        q.to_set().finite(),
        q.to_set().len() == q.len(),
{
    seq_to_set_is_finite(q);
    assert(q.no_duplicates()) by {
        assert forall|i: int, j: int| 0 <= i < q.len() && 0 <= j < q.len() && i != j implies q[i]
            != q[j] by {
            if i < j {
                assert(q[i] < q[j]);
            } else {
                assert(q[j] < q[i]);
            }
        }
    }
    q.unique_seq_to_set();
}

/// Every set of indices is finite, and `ascending` has one place for each
/// of its members.
pub proof fn lemma_ascending_len(s: Set<u32>)
    ensures
        s.finite(),
        s.len() == ascending(s).len(),
        ascending(s).to_set() == s,
{
    lemma_ascending_lists(s);
    let q = ascending(s);
    assert(q.to_set() =~= s);
    lemma_ascending_counts(q);
}

/// The indices below `n`, in ascending order, are `0, 1, .., n - 1`.
pub proof fn lemma_ascending_indices_below(n: nat)
    requires
        n <= 0x1_0000_0000,
    ensures
        ascending(indices_below(n)) == index_run(0, n),
        indices_below(n).finite(),
        indices_below(n).len() == n,
{
    let q = index_run(0, n);
    assert forall|x: u32| q.contains(x) <==> indices_below(n).contains(x) by {
        if indices_below(n).contains(x) {
            assert(q[x as int] == x);
        }
    }
    lemma_ascending_is_unique(q, indices_below(n));
    lemma_ascending_len(indices_below(n));
}

/// The `k` lowest members of `s` are members of `s`, ascending, and as
/// many as asked for, or all of `s` where it has fewer.
pub proof fn lemma_lowest(s: Set<u32>, k: nat)
    ensures
        is_ascending(lowest(s, k)),
        lowest(s, k).len() == least_of(k, s.len()),
        forall|i: int| 0 <= i < lowest(s, k).len() ==> lowest(s, k)[i] == ascending(s)[i],
        forall|x: u32| #[trigger] lowest(s, k).contains(x) ==> s.contains(x),
{
    lemma_ascending_lists(s);
    lemma_ascending_len(s);
    let all = ascending(s);
    let q = lowest(s, k);
    assert forall|x: u32| #[trigger] q.contains(x) implies s.contains(x) by {
        let i = choose|i: int| 0 <= i < q.len() && q[i] == x;
        assert(all[i] == x);
        assert(all.contains(x));
    }
}

/// Picking lowest first. Where the `i` lowest members of `s` are gone and
/// `least` is the lowest of the rest, `least` is the next member of `s` in
/// ascending order.
pub proof fn lemma_lowest_next(s: Set<u32>, i: nat, least: u32)
    requires
        i <= ascending(s).len(),
        s.contains(least),
        !ascending(s).take(i as int).contains(least),
        forall|x: u32| s.contains(x) && !ascending(s).take(i as int).contains(x) ==> least <= x,
    ensures
        i < ascending(s).len(),
        ascending(s)[i as int] == least,
        ascending(s).take(i as int + 1) == ascending(s).take(i as int).push(least),
{
    lemma_ascending_lists(s);
    let all = ascending(s);
    let gone = all.take(i as int);
    assert(all.contains(least));
    let j = choose|j: int| 0 <= j < all.len() && all[j] == least;
    if j < i {
        assert(gone[j] == least);
        assert(gone.contains(least));
    }
    assert(all.contains(all[i as int]));
    if gone.contains(all[i as int]) {
        let t = choose|t: int| 0 <= t < gone.len() && gone[t] == all[i as int];
        assert(all[t] < all[i as int]);
    }
    if i < j {
        assert(all[i as int] < all[j]);
    }
    assert(all.take(i as int + 1) =~= gone.push(least));
}

/// Picking lowest first. Where the `i` lowest members of `s` are gone and
/// nothing is left, `s` had only those.
pub proof fn lemma_lowest_all(s: Set<u32>, i: nat)
    requires
        i <= ascending(s).len(),
        forall|x: u32| s.contains(x) ==> ascending(s).take(i as int).contains(x),
    ensures
        i == ascending(s).len(),
{
    lemma_ascending_lists(s);
    let all = ascending(s);
    let gone = all.take(i as int);
    if i < all.len() {
        assert(all.contains(all[i as int]));
        let t = choose|t: int| 0 <= t < gone.len() && gone[t] == all[i as int];
        assert(all[t] < all[i as int]);
    }
}

/// The indices from `from` up to `to`, in ascending order, are `from`,
/// `from + 1`, and so on.
pub proof fn lemma_ascending_index_span(from: nat, to: nat)
    requires
        from <= to <= 0x1_0000_0000,
    ensures
        ascending(index_span(from, to)) == index_run(from, to),
        index_span(from, to).finite(),
        index_span(from, to).len() == to - from,
{
    let q = index_run(from, to);
    assert forall|x: u32| q.contains(x) <==> index_span(from, to).contains(x) by {
        if index_span(from, to).contains(x) {
            assert(q[x - from] == x);
        }
    }
    lemma_ascending_is_unique(q, index_span(from, to));
    lemma_ascending_len(index_span(from, to));
}

/// The `k` lowest of the indices from `from` up to `to` are the indices
/// from `from` up to `from + k`, or up to `to` where that comes first.
pub proof fn lemma_lowest_of_index_span(from: nat, to: nat, k: nat)
    requires
        from <= to <= 0x1_0000_0000,
    ensures
        lowest(index_span(from, to), k) == index_run(from, least_of(from + k, to)),
{
    lemma_ascending_index_span(from, to);
    assert(lowest(index_span(from, to), k) =~= index_run(from, least_of(from + k, to)));
}

} // verus!
