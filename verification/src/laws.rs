//! Properties of the sort's result that hold for every map of events.
use vstd::prelude::*;
use crate::event::{LeanEvent, StateResVersion, lemma_precedence_asymmetric, takes_precedence};
use crate::graph::{is_kahn_order, is_ready, parent_ids, parents_done};

verus! {

/// Two maps hold the same keys, and under each key events that agree on all
/// that the sort reads: identifier, power level, timestamp, depth, parents.
pub open spec fn same_sort_data(m1: Map<Seq<char>, LeanEvent>, m2: Map<Seq<char>, LeanEvent>) -> bool {
    &&& m1.dom() == m2.dom()
    &&& forall|k: Seq<char>|
        #![trigger m1[k]]
        #![trigger m2[k]]
        m1.dom().contains(k) ==> {
            &&& m1[k].event_id@ == m2[k].event_id@
            &&& m1[k].power_level == m2[k].power_level
            &&& m1[k].origin_server_ts == m2[k].origin_server_ts
            &&& m1[k].depth == m2[k].depth
            &&& parent_ids(m1[k]) == parent_ids(m2[k])
        }
}

proof fn lemma_ready_same_data(
    m1: Map<Seq<char>, LeanEvent>,
    m2: Map<Seq<char>, LeanEvent>,
    k: Seq<char>,
    done: Seq<Seq<char>>,
)
    requires
        same_sort_data(m1, m2),
    ensures
        is_ready(m1, k, done) == is_ready(m2, k, done),
{
    if m1.dom().contains(k) {
        assert(parent_ids(m1[k]) == parent_ids(m2[k]));
        assert(parents_done(m1, k, done) == parents_done(m2, k, done));
    }
}

proof fn lemma_prefixes_agree(
    m1: Map<Seq<char>, LeanEvent>,
    m2: Map<Seq<char>, LeanEvent>,
    version: StateResVersion,
    o1: Seq<Seq<char>>,
    o2: Seq<Seq<char>>,
    i: int,
)
    requires
        same_sort_data(m1, m2),
        is_kahn_order(m1, version, o1),
        is_kahn_order(m2, version, o2),
        0 <= i <= o1.len(),
        i <= o2.len(),
    ensures
        o1.take(i) == o2.take(i),
    decreases i,
{
    if i > 0 {
        lemma_prefixes_agree(m1, m2, version, o1, o2, i - 1);
        let done = o1.take(i - 1);
        assert(o2.take(i - 1) == done);
        let a = o1[i - 1];
        let b = o2[i - 1];
        assert(is_ready(m1, a, o1.take(i - 1)));
        assert(is_ready(m2, b, o2.take(i - 1)));
        if a != b {
            lemma_ready_same_data(m1, m2, a, done);
            lemma_ready_same_data(m1, m2, b, done);
            assert(takes_precedence(m1[o1[i - 1]], m1[b], version));
            assert(takes_precedence(m2[o2[i - 1]], m2[a], version));
            assert(m1.dom().contains(a) && m1.dom().contains(b));
            assert(m1[a].event_id@ == m2[a].event_id@);
            assert(m1[b].event_id@ == m2[b].event_id@);
            lemma_precedence_asymmetric(m1[a], m1[b], version);
        }
        assert(o1.take(i) =~= o1.take(i - 1).push(a));
        assert(o2.take(i) =~= o2.take(i - 1).push(b));
    }
}

/// The sort's result is determined by what the sort reads of the events: two
/// maps that agree on it (in particular, one map and itself) have the same
/// sorted order under each version.
pub proof fn lemma_kahn_order_unique(
    m1: Map<Seq<char>, LeanEvent>,
    m2: Map<Seq<char>, LeanEvent>,
    version: StateResVersion,
    o1: Seq<Seq<char>>,
    o2: Seq<Seq<char>>,
)
    requires
        same_sort_data(m1, m2),
        is_kahn_order(m1, version, o1),
        is_kahn_order(m2, version, o2),
    ensures
        o1 == o2,
{
    if o1.len() <= o2.len() {
        lemma_prefixes_agree(m1, m2, version, o1, o2, o1.len() as int);
        assert(o1.take(o1.len() as int) =~= o1);
        if o1.len() < o2.len() {
            let k = o2[o1.len() as int];
            assert(is_ready(m2, k, o2.take(o1.len() as int)));
            lemma_ready_same_data(m1, m2, k, o1);
            assert(!is_ready(m1, k, o1));
        }
    } else {
        lemma_prefixes_agree(m1, m2, version, o1, o2, o2.len() as int);
        assert(o2.take(o2.len() as int) =~= o2);
        let k = o1[o2.len() as int];
        assert(is_ready(m1, k, o1.take(o2.len() as int)));
        lemma_ready_same_data(m1, m2, k, o2);
        assert(!is_ready(m2, k, o2));
    }
    assert(o1 =~= o2);
}

/// The sorted order lists keys of the map, each once, and each after every
/// one of its parents that is in the map.
pub proof fn lemma_kahn_order_topological(
    m: Map<Seq<char>, LeanEvent>,
    version: StateResVersion,
    order: Seq<Seq<char>>,
)
    requires
        is_kahn_order(m, version, order),
    ensures
        order.no_duplicates(),
        forall|i: int| 0 <= i < order.len() ==> m.dom().contains(#[trigger] order[i]),
        forall|i: int, j: int|
            0 <= i < order.len() && 0 <= j < parent_ids(m[order[i]]).len() && m.dom().contains(
                #[trigger] parent_ids(m[#[trigger] order[i]])[j],
            ) ==> exists|t: int| 0 <= t < i && order[t] == parent_ids(m[order[i]])[j],
{
    assert forall|i: int, j: int| 0 <= i < order.len() && 0 <= j < order.len() && i != j implies order[i] != order[j] by {
        if i < j {
            assert(is_ready(m, order[j], order.take(j)));
            assert(order.take(j)[i] == order[i]);
        } else {
            assert(is_ready(m, order[i], order.take(i)));
            assert(order.take(i)[j] == order[j]);
        }
    }
    assert forall|i: int, j: int|
        0 <= i < order.len() && 0 <= j < parent_ids(m[order[i]]).len() && m.dom().contains(
            #[trigger] parent_ids(m[#[trigger] order[i]])[j],
        ) implies exists|t: int| 0 <= t < i && order[t] == parent_ids(m[order[i]])[j] by {
        assert(is_ready(m, order[i], order.take(i)));
        assert(parents_done(m, order[i], order.take(i)));
        let p = parent_ids(m[order[i]])[j];
        assert(order.take(i).contains(p));
        let t = choose|t: int| 0 <= t < order.take(i).len() && order.take(i)[t] == p;
        assert(order[t] == p);
    }
}

/// A ranking of the map's events in which every parent in the map ranks
/// below its child: the events form no cycle.
pub open spec fn is_ranking(m: Map<Seq<char>, LeanEvent>, rank: spec_fn(Seq<char>) -> nat) -> bool {
    forall|k: Seq<char>, j: int|
        m.dom().contains(k) && 0 <= j < parent_ids(m[k]).len() && m.dom().contains(
            #[trigger] parent_ids(m[k])[j],
        ) ==> rank(parent_ids(m[k])[j]) < rank(k)
}

proof fn lemma_ranked_below(
    m: Map<Seq<char>, LeanEvent>,
    version: StateResVersion,
    order: Seq<Seq<char>>,
    rank: spec_fn(Seq<char>) -> nat,
    n: nat,
)
    requires
        is_kahn_order(m, version, order),
        is_ranking(m, rank),
    ensures
        forall|k: Seq<char>| m.dom().contains(k) && rank(k) < n ==> #[trigger] order.contains(k),
    decreases n,
{
    if n > 0 {
        lemma_ranked_below(m, version, order, rank, (n - 1) as nat);
        assert forall|k: Seq<char>| m.dom().contains(k) && rank(k) < n implies #[trigger] order.contains(k) by {
            if rank(k) == n - 1 && !order.contains(k) {
                assert forall|j: int|
                    0 <= j < parent_ids(m[k]).len() && m.dom().contains(#[trigger] parent_ids(m[k])[j])
                    implies order.contains(parent_ids(m[k])[j]) by {
                    assert(rank(parent_ids(m[k])[j]) < rank(k));
                }
                assert(is_ready(m, k, order));
            }
        }
    }
}

/// When the events form no cycle, the sorted order lists every event of the map.
pub proof fn lemma_kahn_order_complete_without_cycles(
    m: Map<Seq<char>, LeanEvent>,
    version: StateResVersion,
    order: Seq<Seq<char>>,
    rank: spec_fn(Seq<char>) -> nat,
)
    requires
        is_kahn_order(m, version, order),
        is_ranking(m, rank),
    ensures
        forall|k: Seq<char>| #[trigger] m.dom().contains(k) ==> order.contains(k),
{
    assert forall|k: Seq<char>| #[trigger] m.dom().contains(k) implies order.contains(k) by {
        lemma_ranked_below(m, version, order, rank, rank(k) + 1);
    }
}

/// `cycle` is a cycle of the map's events: each entry names the next as a
/// parent, and the last names the first.
pub open spec fn is_cycle(m: Map<Seq<char>, LeanEvent>, cycle: Seq<Seq<char>>) -> bool {
    &&& cycle.len() > 0
    &&& forall|i: int| 0 <= i < cycle.len() ==> m.dom().contains(#[trigger] cycle[i])
    &&& forall|i: int|
        0 <= i < cycle.len() ==> parent_ids(m[#[trigger] cycle[i]]).contains(
            if i + 1 < cycle.len() {
                cycle[i + 1]
            } else {
                cycle[0]
            },
        )
}

proof fn lemma_parent_earlier(
    m: Map<Seq<char>, LeanEvent>,
    version: StateResVersion,
    order: Seq<Seq<char>>,
    p: int,
    y: Seq<char>,
)
    requires
        is_kahn_order(m, version, order),
        0 <= p < order.len(),
        m.dom().contains(y),
        parent_ids(m[order[p]]).contains(y),
    ensures
        exists|q: int| 0 <= q < p && order[q] == y,
{
    lemma_kahn_order_topological(m, version, order);
    let j = choose|j: int| 0 <= j < parent_ids(m[order[p]]).len() && parent_ids(m[order[p]])[j] == y;
    assert(m.dom().contains(parent_ids(m[order[p]])[j]));
}

proof fn lemma_walk_cycle(
    m: Map<Seq<char>, LeanEvent>,
    version: StateResVersion,
    order: Seq<Seq<char>>,
    cycle: Seq<Seq<char>>,
    a: int,
    b: int,
    p: int,
)
    requires
        is_kahn_order(m, version, order),
        is_cycle(m, cycle),
        0 <= a <= b < cycle.len(),
        0 <= p < order.len(),
        order[p] == cycle[a],
    ensures
        exists|q: int| 0 <= q <= p - (b - a) && order[q] == cycle[b],
    decreases b - a,
{
    if a < b {
        assert(parent_ids(m[cycle[a]]).contains(cycle[a + 1]));
        lemma_parent_earlier(m, version, order, p, cycle[a + 1]);
        let q = choose|q: int| 0 <= q < p && order[q] == cycle[a + 1];
        lemma_walk_cycle(m, version, order, cycle, a + 1, b, q);
    }
}

/// No event on a cycle is in the sorted order.
pub proof fn lemma_kahn_order_excludes_cycles(
    m: Map<Seq<char>, LeanEvent>,
    version: StateResVersion,
    order: Seq<Seq<char>>,
    cycle: Seq<Seq<char>>,
)
    requires
        is_kahn_order(m, version, order),
        is_cycle(m, cycle),
    ensures
        forall|i: int| 0 <= i < cycle.len() ==> !order.contains(#[trigger] cycle[i]),
{
    lemma_kahn_order_topological(m, version, order);
    assert forall|i: int| 0 <= i < cycle.len() implies !order.contains(#[trigger] cycle[i]) by {
        if order.contains(cycle[i]) {
            let n = cycle.len() as int;
            let p = choose|p: int| 0 <= p < order.len() && order[p] == cycle[i];
            lemma_walk_cycle(m, version, order, cycle, i, n - 1, p);
            let q1 = choose|q: int| 0 <= q <= p - (n - 1 - i) && order[q] == cycle[n - 1];
            assert(parent_ids(m[cycle[n - 1]]).contains(cycle[0]));
            lemma_parent_earlier(m, version, order, q1, cycle[0]);
            let q2 = choose|q: int| 0 <= q < q1 && order[q] == cycle[0];
            lemma_walk_cycle(m, version, order, cycle, 0, i, q2);
            let q3 = choose|q: int| 0 <= q <= q2 - i && order[q] == cycle[i];
            assert(q3 < p);
            assert(order[q3] == order[p]);
        }
    }
}

/// V2.1 takes the same precedence as V2, so a map sorts the same under both.
pub proof fn lemma_v2_1_sorts_as_v2(m: Map<Seq<char>, LeanEvent>, order: Seq<Seq<char>>)
    ensures
        is_kahn_order(m, StateResVersion::V2_1, order) == is_kahn_order(m, StateResVersion::V2, order),
{
    if is_kahn_order(m, StateResVersion::V2_1, order) {
        assert forall|i: int, k: Seq<char>|
            0 <= i < order.len() && is_ready(m, k, order.take(i)) && k != #[trigger] order[i]
            implies #[trigger] takes_precedence(m[order[i]], m[k], StateResVersion::V2) by {
            assert(takes_precedence(m[order[i]], m[k], StateResVersion::V2_1));
        }
    }
    if is_kahn_order(m, StateResVersion::V2, order) {
        assert forall|i: int, k: Seq<char>|
            0 <= i < order.len() && is_ready(m, k, order.take(i)) && k != #[trigger] order[i]
            implies #[trigger] takes_precedence(m[order[i]], m[k], StateResVersion::V2_1) by {
            assert(takes_precedence(m[order[i]], m[k], StateResVersion::V2));
        }
    }
}

/// The V2.1 order of a map is its V2 order.
pub proof fn lemma_v2_1_order_is_v2_order(
    m: Map<Seq<char>, LeanEvent>,
    o1: Seq<Seq<char>>,
    o2: Seq<Seq<char>>,
)
    requires
        is_kahn_order(m, StateResVersion::V2_1, o1),
        is_kahn_order(m, StateResVersion::V2, o2),
    ensures
        o1 == o2,
{
    lemma_v2_1_sorts_as_v2(m, o1);
    assert forall|k: Seq<char>| m.dom().contains(k) implies #[trigger] m[k] == m[k] by {}
    assert(same_sort_data(m, m));
    lemma_kahn_order_unique(m, m, StateResVersion::V2, o1, o2);
}

} // verus!
