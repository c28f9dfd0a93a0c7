//! The event graph that a map of events describes, and what a topological
//! order of it taken greedily by priority is.
use vstd::prelude::*;
use crate::event::{LeanEvent, StateResVersion, takes_precedence};
use crate::ids::id_seq;

verus! {

/// The identifiers that an event names as its parents.
pub open spec fn parent_ids(e: LeanEvent) -> Seq<Seq<char>> {
    id_seq(e.prev_events@)
}

/// Every key of the map is the identifier of the event it maps to.
pub open spec fn keys_match_ids(m: Map<Seq<char>, LeanEvent>) -> bool {
    forall|k: Seq<char>| #[trigger] m.dom().contains(k) ==> m[k].event_id@ == k
}

/// Every parent of `m[k]` that is itself in the map occurs in `done`.
pub open spec fn parents_done(m: Map<Seq<char>, LeanEvent>, k: Seq<char>, done: Seq<Seq<char>>) -> bool {
    forall|j: int|
        0 <= j < parent_ids(m[k]).len() && m.dom().contains(#[trigger] parent_ids(m[k])[j])
            ==> done.contains(parent_ids(m[k])[j])
}

/// `k` can be taken next after the events of `done`: it is in the map, not
/// yet taken, and each of its parents in the map has been taken.
pub open spec fn is_ready(m: Map<Seq<char>, LeanEvent>, k: Seq<char>, done: Seq<Seq<char>>) -> bool {
    &&& m.dom().contains(k)
    &&& !done.contains(k)
    &&& parents_done(m, k, done)
}

/// `order` is what Kahn's sort yields on `m` under the rules of `version`:
/// each identifier in it was ready when it was taken (so it is a key of the
/// map, occurs once, and comes after each of its parents in the map); of the
/// events ready at that point it is the one that takes precedence; and once
/// it ends, no event is ready (those left out each wait on a parent that
/// never comes, as on a cycle).
pub open spec fn is_kahn_order(
    m: Map<Seq<char>, LeanEvent>,
    version: StateResVersion,
    order: Seq<Seq<char>>,
) -> bool {
    &&& forall|i: int| 0 <= i < order.len() ==> is_ready(m, #[trigger] order[i], order.take(i))
    &&& forall|i: int, k: Seq<char>|
        0 <= i < order.len() && is_ready(m, k, order.take(i)) && k != #[trigger] order[i]
            ==> #[trigger] takes_precedence(m[order[i]], m[k], version)
    &&& forall|k: Seq<char>| !#[trigger] is_ready(m, k, order)
}

/// The number of times `x` occurs in `s`.
pub open spec fn count_occ(s: Seq<Seq<char>>, x: Seq<char>) -> nat
    decreases s.len(),
{
    if s.len() == 0 {
        0
    } else {
        count_occ(s.drop_last(), x) + if s.last() == x {
            1nat
        } else {
            0nat
        }
    }
}

/// The number of entries of `s` that are in `keys` and not in `done`.
pub open spec fn pending(s: Seq<Seq<char>>, keys: Set<Seq<char>>, done: Seq<Seq<char>>) -> nat
    decreases s.len(),
{
    if s.len() == 0 {
        0
    } else {
        pending(s.drop_last(), keys, done) + if keys.contains(s.last()) && !done.contains(
            s.last(),
        ) {
            1nat
        } else {
            0nat
        }
    }
}

pub proof fn lemma_count_occ_push(s: Seq<Seq<char>>, a: Seq<char>, x: Seq<char>)
    ensures
        count_occ(s.push(a), x) == count_occ(s, x) + if a == x {
            1nat
        } else {
            0nat
        },
{
    assert(s.push(a).drop_last() =~= s);
}

pub proof fn lemma_count_occ_first(s: Seq<Seq<char>>, x: Seq<char>)
    requires
        s.len() > 0,
    ensures
        count_occ(s, x) == count_occ(s.drop_first(), x) + if s[0] == x {
            1nat
        } else {
            0nat
        },
    decreases s.len(),
{
    if s.len() > 1 {
        lemma_count_occ_first(s.drop_last(), x);
        assert(s.drop_last().drop_first() =~= s.drop_first().drop_last());
    } else {
        assert(s.drop_first() =~= Seq::<Seq<char>>::empty());
        assert(s.drop_last() =~= Seq::<Seq<char>>::empty());
    }
}

/// An entry of `s` is counted.
pub proof fn lemma_count_occ_positive(s: Seq<Seq<char>>, j: int)
    requires
        0 <= j < s.len(),
    ensures
        count_occ(s, s[j]) >= 1,
    decreases s.len(),
{
    if j < s.len() - 1 {
        lemma_count_occ_positive(s.drop_last(), j);
    }
}

/// What is counted occurs.
pub proof fn lemma_count_occ_witness(s: Seq<Seq<char>>, x: Seq<char>)
    requires
        count_occ(s, x) >= 1,
    ensures
        exists|j: int| 0 <= j < s.len() && s[j] == x,
    decreases s.len(),
{
    if s.last() != x {
        lemma_count_occ_witness(s.drop_last(), x);
        let j = choose|j: int| 0 <= j < s.drop_last().len() && s.drop_last()[j] == x;
        assert(s[j] == x);
    } else {
        assert(s[s.len() - 1] == x);
    }
}

pub proof fn lemma_pending_push(s: Seq<Seq<char>>, a: Seq<char>, keys: Set<Seq<char>>, done: Seq<Seq<char>>)
    ensures
        pending(s.push(a), keys, done) == pending(s, keys, done) + if keys.contains(a)
            && !done.contains(a) {
            1nat
        } else {
            0nat
        },
{
    assert(s.push(a).drop_last() =~= s);
}

pub proof fn lemma_pending_bounded(s: Seq<Seq<char>>, keys: Set<Seq<char>>, done: Seq<Seq<char>>)
    ensures
        pending(s, keys, done) <= s.len(),
    decreases s.len(),
{
    if s.len() > 0 {
        lemma_pending_bounded(s.drop_last(), keys, done);
    }
}

/// Taking `x` lowers the pending count by the number of times `x` occurs.
pub proof fn lemma_pending_take(s: Seq<Seq<char>>, keys: Set<Seq<char>>, done: Seq<Seq<char>>, x: Seq<char>)
    requires
        keys.contains(x),
        !done.contains(x),
    ensures
        pending(s, keys, done) == pending(s, keys, done.push(x)) + count_occ(s, x),
    decreases s.len(),
{
    if s.len() > 0 {
        lemma_pending_take(s.drop_last(), keys, done, x);
        assert(done.push(x).contains(s.last()) <==> done.contains(s.last()) || s.last() == x) by {
            if s.last() == x {
                assert(done.push(x)[done.len() as int] == x);
            }
            if done.contains(s.last()) {
                let t = choose|t: int| 0 <= t < done.len() && done[t] == s.last();
                assert(done.push(x)[t] == s.last());
            }
            if done.push(x).contains(s.last()) {
                let t = choose|t: int| 0 <= t < done.push(x).len() && done.push(x)[t] == s.last();
                if t < done.len() {
                    assert(done[t] == s.last());
                }
            }
        }
    }
}

/// Nothing is pending exactly when each entry in `keys` is done.
pub proof fn lemma_pending_zero(s: Seq<Seq<char>>, keys: Set<Seq<char>>, done: Seq<Seq<char>>)
    ensures
        (pending(s, keys, done) == 0) <==> (forall|j: int|
            0 <= j < s.len() && keys.contains(#[trigger] s[j]) ==> done.contains(s[j])),
    decreases s.len(),
{
    if s.len() > 0 {
        lemma_pending_zero(s.drop_last(), keys, done);
        if pending(s, keys, done) == 0 {
            assert forall|j: int| 0 <= j < s.len() && keys.contains(#[trigger] s[j]) implies done.contains(s[j]) by {
                if j < s.len() - 1 {
                    assert(s.drop_last()[j] == s[j]);
                }
            }
        }
        if forall|j: int| 0 <= j < s.len() && keys.contains(#[trigger] s[j]) ==> done.contains(s[j]) {
            assert forall|j: int| 0 <= j < s.drop_last().len() && keys.contains(#[trigger] s.drop_last()[j]) implies done.contains(s.drop_last()[j]) by {
                assert(s.drop_last()[j] == s[j]);
            }
            assert(keys.contains(s[s.len() - 1]) ==> done.contains(s[s.len() - 1]));
        }
    }
}

/// A sequence without repetitions whose entries all occur in another such
/// sequence is no longer than it.
pub proof fn lemma_distinct_within(a: Seq<Seq<char>>, b: Seq<Seq<char>>)
    requires
        a.no_duplicates(),
        b.no_duplicates(),
        forall|i: int| 0 <= i < a.len() ==> b.contains(#[trigger] a[i]),
    ensures
        a.len() <= b.len(),
{
    a.unique_seq_to_set();
    b.unique_seq_to_set();
    assert(a.to_set().subset_of(b.to_set())) by {
        assert forall|x: Seq<char>| a.to_set().contains(x) implies b.to_set().contains(x) by {
            let i = choose|i: int| 0 <= i < a.len() && a[i] == x;
            assert(b.contains(a[i]));
        }
    }
    vstd::set_lib::lemma_len_subset(a.to_set(), b.to_set());
}

} // verus!
