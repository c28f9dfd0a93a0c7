//! Kahn's topological sort of a map of events, taking the ready event of
//! highest priority first, and the resolution that builds on it.
use vstd::prelude::*;
use crate::collections::{
    ChildMap, DegreeMap, EventMap, child_map_contents, degree_map_contents, event_map_contents,
};
use crate::event::{
    LeanEvent, StateResVersion, lemma_precedence_total,
    lemma_precedence_transitive, precedes, takes_precedence,
};
use crate::graph::{
    count_occ, is_kahn_order, is_ready, keys_match_ids, lemma_count_occ_first,
    lemma_count_occ_positive, lemma_count_occ_push, lemma_count_occ_witness, lemma_distinct_within,
    lemma_pending_bounded, lemma_pending_push, lemma_pending_take, lemma_pending_zero, parent_ids,
    parents_done, pending,
};
use crate::ids::{id_equal, id_seq};
use std::collections::BTreeMap;

verus! {

/// The identifiers recorded as children of `p`, none if `p` has no entry.
pub open spec fn children_of(adj: Map<Seq<char>, Seq<Seq<char>>>, p: Seq<char>) -> Seq<Seq<char>> {
    if adj.dom().contains(p) {
        adj[p]
    } else {
        Seq::empty()
    }
}

/// The counts are those of each event's parents that are not yet taken.
pub open spec fn degrees_track(
    m: Map<Seq<char>, LeanEvent>,
    deg: Map<Seq<char>, usize>,
    done: Seq<Seq<char>>,
) -> bool {
    &&& forall|c: Seq<char>| #[trigger] deg.dom().contains(c) <==> m.dom().contains(c)
    &&& forall|c: Seq<char>|
        m.dom().contains(c) && !done.contains(c) ==> #[trigger] deg[c] == pending(
            parent_ids(m[c]),
            m.dom(),
            done,
        )
}

/// Each event of the map is recorded under each of its parents in the map as
/// often as it names that parent.
pub open spec fn children_track(m: Map<Seq<char>, LeanEvent>, adj: Map<Seq<char>, Seq<Seq<char>>>) -> bool {
    forall|p: Seq<char>, c: Seq<char>|
        m.dom().contains(p) ==> #[trigger] count_occ(children_of(adj, p), c) == if m.dom().contains(
            c,
        ) {
            count_occ(parent_ids(m[c]), p)
        } else {
            0
        }
}

/// The queue holds, once each, exactly the events of the map not yet taken
/// whose count is zero.
pub open spec fn queue_tracks(
    m: Map<Seq<char>, LeanEvent>,
    deg: Map<Seq<char>, usize>,
    done: Seq<Seq<char>>,
    q: Seq<&LeanEvent>,
) -> bool {
    &&& forall|i: int, j: int|
        0 <= i < j < q.len() ==> (#[trigger] q[i]).event_id@ != (#[trigger] q[j]).event_id@
    &&& forall|i: int|
        #![trigger q[i]]
        0 <= i < q.len() ==> {
            &&& m.dom().contains(q[i].event_id@)
            &&& m[q[i].event_id@] == *q[i]
            &&& !done.contains(q[i].event_id@)
            &&& deg[q[i].event_id@] == 0
        }
    &&& forall|c: Seq<char>|
        m.dom().contains(c) && !done.contains(c) && #[trigger] deg[c] == 0 ==> exists|i: int|
            0 <= i < q.len() && (#[trigger] q[i]).event_id@ == c
}

/// Each taken event is in the map, and so is each of its parents in the map.
pub open spec fn closed_under_parents(m: Map<Seq<char>, LeanEvent>, done: Seq<Seq<char>>) -> bool {
    forall|c: Seq<char>| #[trigger] done.contains(c) ==> m.dom().contains(c) && parents_done(m, c, done)
}

/// The first two conditions of `is_kahn_order`, which hold of every prefix.
pub open spec fn greedy_prefix(m: Map<Seq<char>, LeanEvent>, version: StateResVersion, order: Seq<Seq<char>>) -> bool {
    &&& forall|i: int| 0 <= i < order.len() ==> is_ready(m, #[trigger] order[i], order.take(i))
    &&& forall|i: int, k: Seq<char>|
        0 <= i < order.len() && is_ready(m, k, order.take(i)) && k != #[trigger] order[i]
            ==> #[trigger] takes_precedence(m[order[i]], m[k], version)
}

/// The position of the queued event that takes precedence over all others.
pub(crate) fn index_of_best(queue: &Vec<&LeanEvent>, version: StateResVersion) -> (best: usize)
    requires
        queue@.len() > 0,
        forall|i: int, j: int|
            0 <= i < j < queue@.len() ==> (#[trigger] queue@[i]).event_id@ != (
            #[trigger] queue@[j]).event_id@,
    ensures
        best < queue@.len(),
        forall|j: int|
            0 <= j < queue@.len() && j != best ==> takes_precedence(
                *queue@[best as int],
                *#[trigger] queue@[j],
                version,
            ),
{
    let mut best: usize = 0;
    let mut j: usize = 1;
    while j < queue.len()
        invariant
            0 < j <= queue@.len(),
            best < j,
            forall|i: int, k: int|
                0 <= i < k < queue@.len() ==> (#[trigger] queue@[i]).event_id@ != (
                #[trigger] queue@[k]).event_id@,
            forall|t: int|
                0 <= t < j && t != best ==> takes_precedence(
                    *queue@[best as int],
                    *#[trigger] queue@[t],
                    version,
                ),
        decreases queue@.len() - j,
    {
        proof {
            lemma_precedence_total(*queue@[j as int], *queue@[best as int], version);
        }
        if precedes(queue[j], queue[best], version) {
            proof {
                assert forall|t: int| 0 <= t < j + 1 && t != j implies takes_precedence(
                    *queue@[j as int],
                    *#[trigger] queue@[t],
                    version,
                ) by {
                    lemma_precedence_transitive(
                        *queue@[j as int],
                        *queue@[best as int],
                        *queue@[t],
                        version,
                    );
                }
            }
            best = j;
        }
        j = j + 1;
    }
    best
}

/// The identifiers of a list of entries.
pub open spec fn entry_keys(entries: Seq<(&String, &LeanEvent)>) -> Seq<Seq<char>> {
    entries.map_values(|e: (&String, &LeanEvent)| e.0@)
}

/// `entries` lists every entry of `m` once, in some order.
pub open spec fn lists_entries(m: Map<Seq<char>, LeanEvent>, entries: Seq<(&String, &LeanEvent)>) -> bool {
    &&& forall|i: int|
        #![trigger entries[i]]
        0 <= i < entries.len() ==> m.dom().contains(entries[i].0@) && *entries[i].1
            == m[entries[i].0@]
    &&& forall|i: int, j: int|
        0 <= i < j < entries.len() ==> #[trigger] entries[i].0@ != #[trigger] entries[j].0@
    &&& forall|k: Seq<char>| #[trigger]
        m.dom().contains(k) ==> exists|i: int| 0 <= i < entries.len() && #[trigger] entries[i].0@ == k
}

/// Counts, for each event, its parents that are in the map, and records each
/// event under each of those parents.
fn count_parents(events: &EventMap, entries: &Vec<(&String, &LeanEvent)>) -> (maps: (DegreeMap, ChildMap))
    requires
        lists_entries(event_map_contents(*events), entries@),
    ensures
        degrees_track(event_map_contents(*events), degree_map_contents(maps.0), Seq::empty()),
        children_track(event_map_contents(*events), child_map_contents(maps.1)),
{
    let ghost m = event_map_contents(*events);
    let ghost keys = entry_keys(entries@);
    let mut in_degree = DegreeMap::new();
    let mut adjacency = ChildMap::new();
    for i in 0..entries.len()
        invariant
            m == event_map_contents(*events),
            keys == entry_keys(entries@),
            lists_entries(m, entries@),
            forall|c: Seq<char>|
                #[trigger] degree_map_contents(in_degree).dom().contains(c) <==> keys.take(
                    i as int,
                ).contains(c),
            forall|c: Seq<char>|
                #[trigger] degree_map_contents(in_degree).dom().contains(c) ==> degree_map_contents(
                    in_degree,
                )[c] == pending(parent_ids(m[c]), m.dom(), Seq::empty()),
            forall|p: Seq<char>, c: Seq<char>|
                m.dom().contains(p) ==> #[trigger] count_occ(
                    children_of(child_map_contents(adjacency), p),
                    c,
                ) == if keys.take(i as int).contains(c) {
                    count_occ(parent_ids(m[c]), p)
                } else {
                    0
                },
    {
        let (id, event) = entries[i];
        let ghost c0 = id@;
        let ghost parents = parent_ids(m[c0]);
        proof {
            assert(keys[i as int] == c0);
            assert(!keys.take(i as int).contains(c0)) by {
                if keys.take(i as int).contains(c0) {
                    let t = choose|t: int| 0 <= t < i && keys.take(i as int)[t] == c0;
                    assert(entries@[t].0@ == entries@[i as int].0@);
                }
            }
        }
        if in_degree.get(id).is_none() {
            in_degree.insert(id.clone(), 0);
        }
        proof {
            assert(parents.take(0) =~= Seq::<Seq<char>>::empty());
        }
        for j in 0..event.prev_events.len()
            invariant
                m == event_map_contents(*events),
                keys == entry_keys(entries@),
                lists_entries(m, entries@),
                0 <= i < entries@.len(),
                c0 == keys[i as int],
                c0 == id@,
                *event == m[c0],
                m.dom().contains(c0),
                parents == parent_ids(m[c0]),
                !keys.take(i as int).contains(c0),
                forall|c: Seq<char>|
                    #[trigger] degree_map_contents(in_degree).dom().contains(c) <==> (keys.take(
                        i as int,
                    ).contains(c) || c == c0),
                forall|c: Seq<char>|
                    #[trigger] degree_map_contents(in_degree).dom().contains(c) && c != c0
                        ==> degree_map_contents(in_degree)[c] == pending(
                        parent_ids(m[c]),
                        m.dom(),
                        Seq::empty(),
                    ),
                degree_map_contents(in_degree)[c0] == pending(
                    parents.take(j as int),
                    m.dom(),
                    Seq::empty(),
                ),
                forall|p: Seq<char>, c: Seq<char>|
                    m.dom().contains(p) ==> #[trigger] count_occ(
                        children_of(child_map_contents(adjacency), p),
                        c,
                    ) == if keys.take(i as int).contains(c) {
                        count_occ(parent_ids(m[c]), p)
                    } else if c == c0 {
                        count_occ(parents.take(j as int), p)
                    } else {
                        0
                    },
        {
            let prev = &event.prev_events[j];
            proof {
                assert(parents[j as int] == prev@);
                assert(parents.take(j + 1) =~= parents.take(j as int).push(prev@));
                lemma_pending_push(parents.take(j as int), prev@, m.dom(), Seq::empty());
                lemma_pending_bounded(parents.take(j as int), m.dom(), Seq::empty());
                assert forall|p: Seq<char>| true implies count_occ(parents.take(j + 1), p)
                    == count_occ(parents.take(j as int), p) + if prev@ == p {
                    1nat
                } else {
                    0nat
                } by {
                    lemma_count_occ_push(parents.take(j as int), prev@, p);
                }
            }
            let ghost old_adj = child_map_contents(adjacency);
            if events.contains_key(prev) {
                let mut children = match adjacency.remove(prev) {
                    Some(list) => list,
                    None => Vec::new(),
                };
                let ghost before = id_seq(children@);
                children.push(id.clone());
                proof {
                    assert(id_seq(children@) =~= before.push(c0));
                    assert forall|c: Seq<char>| true implies count_occ(id_seq(children@), c)
                        == count_occ(before, c) + if c0 == c {
                        1nat
                    } else {
                        0nat
                    } by {
                        lemma_count_occ_push(before, c0, c);
                    }
                }
                adjacency.insert(prev.clone(), children);
                proof {
                    assert(before == children_of(old_adj, prev@));
                    assert forall|p: Seq<char>, c: Seq<char>|
                        m.dom().contains(p) implies #[trigger] count_occ(
                        children_of(child_map_contents(adjacency), p),
                        c,
                    ) == if keys.take(i as int).contains(c) {
                        count_occ(parent_ids(m[c]), p)
                    } else if c == c0 {
                        count_occ(parents.take(j + 1), p)
                    } else {
                        0
                    } by {
                        if p == prev@ {
                            assert(children_of(child_map_contents(adjacency), p) == id_seq(children@));
                        } else {
                            assert(children_of(child_map_contents(adjacency), p) == children_of(old_adj, p));
                        }
                    }
                }
                let degree = match in_degree.get(id) {
                    Some(d) => d,
                    None => 0,
                };
                in_degree.insert(id.clone(), degree + 1);
            }
        }
        proof {
            assert(parents.take(parents.len() as int) =~= parents);
            let next_keys = keys.take(i + 1);
            assert(next_keys =~= keys.take(i as int).push(c0));
            assert forall|c: Seq<char>| #[trigger] next_keys.contains(c) <==> (keys.take(
                i as int,
            ).contains(c) || c == c0) by {
                if next_keys.contains(c) {
                    let t = choose|t: int| 0 <= t < i + 1 && next_keys[t] == c;
                    if t < i {
                        assert(keys.take(i as int)[t] == c);
                    }
                }
                if keys.take(i as int).contains(c) {
                    let t = choose|t: int| 0 <= t < i && keys.take(i as int)[t] == c;
                    assert(next_keys[t] == c);
                }
                if c == c0 {
                    assert(next_keys[i as int] == c);
                }
            }
        }
    }
    proof {
        assert forall|c: Seq<char>| #[trigger]
            degree_map_contents(in_degree).dom().contains(c) <==> m.dom().contains(c) by {
            if m.dom().contains(c) {
                let t = choose|t: int| 0 <= t < entries@.len() && #[trigger] entries@[t].0@ == c;
                assert(keys.take(entries@.len() as int)[t] == c);
            }
            if keys.take(entries@.len() as int).contains(c) {
                let t = choose|t: int|
                    0 <= t < entries@.len() && keys.take(entries@.len() as int)[t] == c;
                assert(entries@[t].0@ == c);
            }
        }
        assert forall|p: Seq<char>, c: Seq<char>|
            m.dom().contains(p) implies #[trigger] count_occ(
            children_of(child_map_contents(adjacency), p),
            c,
        ) == if m.dom().contains(c) {
            count_occ(parent_ids(m[c]), p)
        } else {
            0
        } by {
            if m.dom().contains(c) {
                let t = choose|t: int| 0 <= t < entries@.len() && #[trigger] entries@[t].0@ == c;
                assert(keys.take(entries@.len() as int)[t] == c);
            }
            if keys.take(entries@.len() as int).contains(c) {
                let t = choose|t: int|
                    0 <= t < entries@.len() && keys.take(entries@.len() as int)[t] == c;
                assert(entries@[t].0@ == c);
            }
        }
        assert(children_track(m, child_map_contents(adjacency)));
        assert forall|c: Seq<char>|
            m.dom().contains(c) && !Seq::<Seq<char>>::empty().contains(c) implies #[trigger] degree_map_contents(in_degree)[c] == pending(
            parent_ids(m[c]),
            m.dom(),
            Seq::empty(),
        ) by {
            assert(degree_map_contents(in_degree).dom().contains(c));
        }
    }
    (in_degree, adjacency)
}

/// Lowers the count of each child of the event just taken, queueing those whose
/// count reaches zero.
fn release_children<'a>(
    events: &'a EventMap,
    in_degree: &mut DegreeMap,
    queue: &mut Vec<&'a LeanEvent>,
    neighbors: &Vec<String>,
    Ghost(done): Ghost<Seq<Seq<char>>>,
)
    requires
        keys_match_ids(event_map_contents(*events)),
        forall|t: int|
            #![trigger neighbors@[t]]
            0 <= t < neighbors@.len() ==> event_map_contents(*events).dom().contains(
                neighbors@[t]@,
            ) && !done.contains(neighbors@[t]@),
        forall|c: Seq<char>| #[trigger]
            degree_map_contents(*old(in_degree)).dom().contains(c) <==> event_map_contents(
                *events,
            ).dom().contains(c),
        forall|c: Seq<char>|
            event_map_contents(*events).dom().contains(c) && !done.contains(c)
                ==> #[trigger] degree_map_contents(*old(in_degree))[c] == pending(
                parent_ids(event_map_contents(*events)[c]),
                event_map_contents(*events).dom(),
                done,
            ) + count_occ(id_seq(neighbors@), c),
        queue_tracks(
            event_map_contents(*events),
            degree_map_contents(*old(in_degree)),
            done,
            old(queue)@,
        ),
    ensures
        degrees_track(event_map_contents(*events), degree_map_contents(*final(in_degree)), done),
        queue_tracks(
            event_map_contents(*events),
            degree_map_contents(*final(in_degree)),
            done,
            final(queue)@,
        ),
{
    let ghost m = event_map_contents(*events);
    let ghost list = id_seq(neighbors@);
    proof {
        assert(list.skip(0) =~= list);
    }
    for k in 0..neighbors.len()
        invariant
            m == event_map_contents(*events),
            list == id_seq(neighbors@),
            keys_match_ids(m),
            forall|t: int|
                #![trigger neighbors@[t]]
                0 <= t < neighbors@.len() ==> m.dom().contains(neighbors@[t]@) && !done.contains(
                    neighbors@[t]@,
                ),
            forall|c: Seq<char>| #[trigger]
                degree_map_contents(*in_degree).dom().contains(c) <==> m.dom().contains(c),
            forall|c: Seq<char>|
                m.dom().contains(c) && !done.contains(c) ==> #[trigger] degree_map_contents(
                    *in_degree,
                )[c] == pending(parent_ids(m[c]), m.dom(), done) + count_occ(
                    list.skip(k as int),
                    c,
                ),
            queue_tracks(m, degree_map_contents(*in_degree), done, queue@),
    {
        let next_id = &neighbors[k];
        let ghost c0 = next_id@;
        let ghost deg0 = degree_map_contents(*in_degree);
        let ghost q0 = queue@;
        proof {
            assert(list[k as int] == c0);
            assert(list.skip(k as int).drop_first() =~= list.skip(k + 1));
            assert(list.skip(k as int)[0] == c0);
            assert forall|c: Seq<char>| true implies count_occ(list.skip(k as int), c) == count_occ(
                list.skip(k + 1),
                c,
            ) + if c0 == c {
                1nat
            } else {
                0nat
            } by {
                lemma_count_occ_first(list.skip(k as int), c);
            }
            assert(m.dom().contains(c0) && !done.contains(c0));
            assert(deg0.dom().contains(c0));
            assert(deg0[c0] >= 1);
        }
        let degree = in_degree.get(next_id).unwrap();
        let lowered = degree - 1;
        in_degree.insert(next_id.clone(), lowered);
        if lowered == 0 {
            queue.push(events.get(next_id).unwrap());
        }
        proof {
            let deg1 = degree_map_contents(*in_degree);
            assert(deg1 == deg0.insert(c0, lowered));
            assert forall|c: Seq<char>|
                m.dom().contains(c) && !done.contains(c) implies #[trigger] deg1[c] == pending(
                parent_ids(m[c]),
                m.dom(),
                done,
            ) + count_occ(list.skip(k + 1), c) by {
                if c != c0 {
                    assert(deg1[c] == deg0[c]);
                }
            }
            assert forall|c: Seq<char>| #[trigger] deg1.dom().contains(c) <==> m.dom().contains(c) by {
                assert(deg0.dom().contains(c) <==> m.dom().contains(c));
            }
            // no queued event had c0, whose count was not zero
            assert forall|i: int| 0 <= i < q0.len() implies (#[trigger] q0[i]).event_id@ != c0 by {
                assert(deg0[q0[i].event_id@] == 0);
            }
            assert forall|i: int|
                #![trigger queue@[i]]
                0 <= i < queue@.len() implies {
                &&& m.dom().contains(queue@[i].event_id@)
                &&& m[queue@[i].event_id@] == *queue@[i]
                &&& !done.contains(queue@[i].event_id@)
                &&& deg1[queue@[i].event_id@] == 0
            } by {
                if i < q0.len() {
                    assert(queue@[i] == q0[i]);
                    assert(q0[i].event_id@ != c0);
                } else {
                    assert(queue@[i].event_id@ == c0);
                }
            }
            assert forall|i: int, j: int|
                0 <= i < j < queue@.len() implies (#[trigger] queue@[i]).event_id@ != (
            #[trigger] queue@[j]).event_id@ by {
                if j < q0.len() {
                    assert(queue@[i] == q0[i] && queue@[j] == q0[j]);
                } else {
                    assert(queue@[i] == q0[i]);
                    assert(q0[i].event_id@ != c0);
                }
            }
            assert forall|c: Seq<char>|
                m.dom().contains(c) && !done.contains(c) && #[trigger] deg1[c] == 0 implies exists|i: int|
                    0 <= i < queue@.len() && (#[trigger] queue@[i]).event_id@ == c by {
                if c == c0 {
                    assert(queue@[queue@.len() - 1].event_id@ == c0);
                } else {
                    assert(deg0[c] == 0);
                    let i = choose|i: int| 0 <= i < q0.len() && (#[trigger] q0[i]).event_id@ == c;
                    assert(queue@[i] == q0[i]);
                }
            }
        }
    }
    proof {
        assert(list.skip(list.len() as int) =~= Seq::<Seq<char>>::empty());
    }
}

/// Taking the best queued event keeps the taken sequence a greedy
/// topological prefix.
proof fn lemma_take_best(
    m: Map<Seq<char>, LeanEvent>,
    version: StateResVersion,
    done: Seq<Seq<char>>,
    deg: Map<Seq<char>, usize>,
    q: Seq<&LeanEvent>,
    b: int,
)
    requires
        keys_match_ids(m),
        greedy_prefix(m, version, done),
        closed_under_parents(m, done),
        done.no_duplicates(),
        degrees_track(m, deg, done),
        queue_tracks(m, deg, done, q),
        0 <= b < q.len(),
        forall|j: int| 0 <= j < q.len() && j != b ==> takes_precedence(*q[b], *#[trigger] q[j], version),
    ensures
        is_ready(m, q[b].event_id@, done),
        greedy_prefix(m, version, done.push(q[b].event_id@)),
        closed_under_parents(m, done.push(q[b].event_id@)),
        done.push(q[b].event_id@).no_duplicates(),
{
    let x = q[b].event_id@;
    let next = done.push(x);
    assert(q[b] == q[b]);
    lemma_pending_zero(parent_ids(m[x]), m.dom(), done);
    assert(deg[x] == 0);
    assert(is_ready(m, x, done));
    assert(next.take(done.len() as int) =~= done);
    assert forall|i: int| 0 <= i < done.len() implies next.take(i) =~= done.take(i) by {}
    assert forall|i: int| 0 <= i < next.len() implies is_ready(m, #[trigger] next[i], next.take(i)) by {
        if i < done.len() {
            assert(next.take(i) =~= done.take(i));
            assert(is_ready(m, done[i], done.take(i)));
        }
    }
    assert forall|i: int, k: Seq<char>|
        0 <= i < next.len() && is_ready(m, k, next.take(i)) && k != #[trigger] next[i]
        implies #[trigger] takes_precedence(m[next[i]], m[k], version) by {
        if i < done.len() {
            assert(next.take(i) =~= done.take(i));
            assert(next[i] == done[i]);
        } else {
            assert(next.take(i) =~= done);
            lemma_pending_zero(parent_ids(m[k]), m.dom(), done);
            assert(deg[k] == 0);
            let j = choose|j: int| 0 <= j < q.len() && (#[trigger] q[j]).event_id@ == k;
            assert(j != b);
            assert(takes_precedence(*q[b], *q[j], version));
        }
    }
    assert forall|c: Seq<char>| #[trigger] next.contains(c) implies m.dom().contains(c) && parents_done(m, c, next) by {
        let t = choose|t: int| 0 <= t < next.len() && next[t] == c;
        if t < done.len() {
            assert(done[t] == c);
            assert(done.contains(c));
        }
        assert forall|j: int|
            0 <= j < parent_ids(m[c]).len() && m.dom().contains(#[trigger] parent_ids(m[c])[j])
            implies next.contains(parent_ids(m[c])[j]) by {
            let p = parent_ids(m[c])[j];
            assert(done.contains(p));
            let u = choose|u: int| 0 <= u < done.len() && done[u] == p;
            assert(next[u] == p);
        }
    }
    assert(next.no_duplicates()) by {
        assert forall|i: int, j: int| 0 <= i < next.len() && 0 <= j < next.len() && i != j implies next[i] != next[j] by {
            if j == done.len() as int {
                assert(!done.contains(x));
                if next[i] == x {
                    assert(done[i] == x);
                }
            } else if i == done.len() as int {
                if next[j] == x {
                    assert(done[j] == x);
                }
            }
        }
    }
}

/// A simplified implementation of Kahn's topological sort: repeatedly takes,
/// of the events all of whose parents in the map are taken, the one that
/// takes precedence under the rules of `version`, and yields the identifiers
/// in the order taken. Events that wait on a parent that never comes (as on
/// a cycle) are left out. The map must hold each event under its own
/// identifier: parents are looked up by key and children by identifier.
pub fn lean_kahn_sort(events: &EventMap, version: StateResVersion) -> (sorted: Vec<String>)
    requires
        keys_match_ids(event_map_contents(*events)),
    ensures
        is_kahn_order(event_map_contents(*events), version, id_seq(sorted@)),
{
    let ghost m = event_map_contents(*events);
    let entries = events.entries();
    let ghost keys = entry_keys(entries@);
    let (mut in_degree, adjacency) = count_parents(events, &entries);

    let degrees = in_degree.entries();
    let mut queue: Vec<&LeanEvent> = Vec::new();
    let mut i: usize = 0;
    while i < degrees.len()
        invariant
            i <= degrees@.len(),
            m == event_map_contents(*events),
            keys_match_ids(m),
            degrees_track(m, degree_map_contents(in_degree), Seq::empty()),
            forall|t: int|
                #![trigger degrees@[t]]
                0 <= t < degrees@.len() ==> degree_map_contents(in_degree).dom().contains(
                    degrees@[t].0@,
                ) && degrees@[t].1 == degree_map_contents(in_degree)[degrees@[t].0@],
            forall|t: int, u: int|
                0 <= t < u < degrees@.len() ==> #[trigger] degrees@[t].0@ != #[trigger] degrees@[u].0@,
            forall|k: Seq<char>| #[trigger]
                degree_map_contents(in_degree).dom().contains(k) ==> exists|t: int|
                    0 <= t < degrees@.len() && #[trigger] degrees@[t].0@ == k,
            forall|j: int|
                #![trigger queue@[j]]
                0 <= j < queue@.len() ==> exists|t: int|
                    0 <= t < i && #[trigger] degrees@[t].0@ == queue@[j].event_id@,
            forall|t: int|
                0 <= t < i && (#[trigger] degrees@[t]).1 == 0 ==> exists|j: int|
                    0 <= j < queue@.len() && (#[trigger] queue@[j]).event_id@ == degrees@[t].0@,
            forall|i1: int, j1: int|
                0 <= i1 < j1 < queue@.len() ==> (#[trigger] queue@[i1]).event_id@ != (
                #[trigger] queue@[j1]).event_id@,
            forall|j: int|
                #![trigger queue@[j]]
                0 <= j < queue@.len() ==> {
                    &&& m.dom().contains(queue@[j].event_id@)
                    &&& m[queue@[j].event_id@] == *queue@[j]
                    &&& degree_map_contents(in_degree)[queue@[j].event_id@] == 0
                },
        decreases degrees@.len() - i,
    {
        let (id, degree) = degrees[i];
        let ghost q0 = queue@;
        if degree == 0 {
            match events.get(id) {
                Some(event) => {
                    queue.push(event);
                },
                None => {},
            }
        }
        proof {
            assert(degrees@[i as int].0@ == id@);
            assert forall|j: int|
                #![trigger queue@[j]]
                0 <= j < queue@.len() implies exists|t: int|
                    0 <= t < i + 1 && #[trigger] degrees@[t].0@ == queue@[j].event_id@ by {
                if j < q0.len() {
                    assert(queue@[j] == q0[j]);
                    let t = choose|t: int| 0 <= t < i && #[trigger] degrees@[t].0@ == q0[j].event_id@;
                    assert(degrees@[t].0@ == queue@[j].event_id@);
                } else {
                    assert(degrees@[i as int].0@ == queue@[j].event_id@);
                }
            }
            assert forall|t: int|
                0 <= t < i + 1 && (#[trigger] degrees@[t]).1 == 0 implies exists|j: int|
                    0 <= j < queue@.len() && (#[trigger] queue@[j]).event_id@ == degrees@[t].0@ by {
                if t < i {
                    let j = choose|j: int| 0 <= j < q0.len() && (#[trigger] q0[j]).event_id@ == degrees@[t].0@;
                    assert(queue@[j] == q0[j]);
                } else {
                    assert(queue@[queue@.len() - 1].event_id@ == degrees@[t].0@);
                }
            }
            assert forall|i1: int, j1: int|
                0 <= i1 < j1 < queue@.len() implies (#[trigger] queue@[i1]).event_id@ != (
                #[trigger] queue@[j1]).event_id@ by {
                if j1 >= q0.len() {
                    assert(queue@[i1] == q0[i1]);
                    let t = choose|t: int| 0 <= t < i && #[trigger] degrees@[t].0@ == q0[i1].event_id@;
                    assert(degrees@[t].0@ != degrees@[i as int].0@);
                } else {
                    assert(queue@[i1] == q0[i1] && queue@[j1] == q0[j1]);
                }
            }
        }
        i = i + 1;
    }
    proof {
        assert forall|c: Seq<char>|
            m.dom().contains(c) && !Seq::<Seq<char>>::empty().contains(c) && #[trigger] degree_map_contents(in_degree)[c] == 0
            implies exists|j: int| 0 <= j < queue@.len() && (#[trigger] queue@[j]).event_id@ == c by {
            assert(degree_map_contents(in_degree).dom().contains(c));
            let t = choose|t: int| 0 <= t < degrees@.len() && #[trigger] degrees@[t].0@ == c;
            assert(degrees@[t].1 == 0);
        }
        assert(queue_tracks(m, degree_map_contents(in_degree), Seq::empty(), queue@));
        assert(greedy_prefix(m, version, Seq::empty()));
        assert(keys.no_duplicates()) by {
            assert forall|i: int, j: int| 0 <= i < keys.len() && 0 <= j < keys.len() && i != j implies keys[i] != keys[j] by {
                if i < j {
                    assert(entries@[i].0@ != entries@[j].0@);
                } else {
                    assert(entries@[j].0@ != entries@[i].0@);
                }
            }
        }
    }

    let mut result: Vec<String> = Vec::new();
    proof {
        assert(id_seq(result@) =~= Seq::<Seq<char>>::empty());
    }
    while queue.len() > 0
        invariant
            m == event_map_contents(*events),
            keys == entry_keys(entries@),
            lists_entries(m, entries@),
            keys.no_duplicates(),
            keys_match_ids(m),
            degrees_track(m, degree_map_contents(in_degree), id_seq(result@)),
            children_track(m, child_map_contents(adjacency)),
            queue_tracks(m, degree_map_contents(in_degree), id_seq(result@), queue@),
            closed_under_parents(m, id_seq(result@)),
            greedy_prefix(m, version, id_seq(result@)),
            id_seq(result@).no_duplicates(),
        decreases entries@.len() - result@.len(),
    {
        let ghost done = id_seq(result@);
        let ghost deg = degree_map_contents(in_degree);
        let best = index_of_best(&queue, version);
        let ghost q = queue@;
        proof {
            lemma_take_best(m, version, done, deg, q, best as int);
        }
        let event = queue.remove(best);
        let ghost x = event.event_id@;
        result.push(event.event_id.clone());
        proof {
            assert(id_seq(result@) =~= done.push(x));
            let next = done.push(x);
            // the taken events are distinct keys of the map, so there are no more of them than keys
            assert forall|i: int| 0 <= i < next.len() implies keys.contains(#[trigger] next[i]) by {
                assert(next.contains(next[i]));
                let t = choose|t: int| 0 <= t < entries@.len() && #[trigger] entries@[t].0@ == next[i];
                assert(keys[t] == next[i]);
            }
            lemma_distinct_within(next, keys);
            assert(q[best as int] == event);
            // the children of `x` are neither taken nor `x` itself
            let list = children_of(child_map_contents(adjacency), x);
            assert forall|c: Seq<char>| count_occ(list, c) >= 1 implies m.dom().contains(c) && !next.contains(c) by {
                if !m.dom().contains(c) {
                    assert(count_occ(list, c) == 0);
                }
                assert(count_occ(parent_ids(m[c]), x) >= 1);
                lemma_count_occ_witness(parent_ids(m[c]), x);
                let j = choose|j: int| 0 <= j < parent_ids(m[c]).len() && parent_ids(m[c])[j] == x;
                if done.contains(c) {
                    assert(parents_done(m, c, done));
                    assert(done.contains(parent_ids(m[c])[j]));
                }
                if c == x {
                    assert(parents_done(m, x, done));
                    assert(done.contains(parent_ids(m[x])[j]));
                }
                if next.contains(c) {
                    let t = choose|t: int| 0 <= t < next.len() && next[t] == c;
                    if t < done.len() {
                        assert(done[t] == c);
                    }
                }
            }
            // the counts now also owe the remaining children of `x`
            assert forall|c: Seq<char>|
                m.dom().contains(c) && !next.contains(c) implies #[trigger] deg[c] == pending(
                parent_ids(m[c]),
                m.dom(),
                next,
            ) + count_occ(list, c) by {
                if done.contains(c) {
                    let t = choose|t: int| 0 <= t < done.len() && done[t] == c;
                    assert(next[t] == c);
                }
                lemma_pending_take(parent_ids(m[c]), m.dom(), done, x);
                assert(count_occ(list, c) == count_occ(parent_ids(m[c]), x));
            }
            // the queue without `x`
            let q1 = queue@;
            assert(q1 == q.remove(best as int));
            assert forall|i: int|
                #![trigger q1[i]]
                0 <= i < q1.len() implies {
                &&& m.dom().contains(q1[i].event_id@)
                &&& m[q1[i].event_id@] == *q1[i]
                &&& !next.contains(q1[i].event_id@)
                &&& deg[q1[i].event_id@] == 0
            } by {
                let i0 = if i < best { i } else { i + 1 };
                assert(q1[i] == q[i0]);
                assert(q[i0].event_id@ != x);
                if next.contains(q1[i].event_id@) {
                    let t = choose|t: int| 0 <= t < next.len() && next[t] == q1[i].event_id@;
                    if t < done.len() {
                        assert(done[t] == q1[i].event_id@);
                    }
                }
            }
            assert forall|i: int, j: int|
                0 <= i < j < q1.len() implies (#[trigger] q1[i]).event_id@ != (#[trigger] q1[j]).event_id@ by {
                let i0 = if i < best { i } else { i + 1 };
                let j0 = if j < best { j } else { j + 1 };
                assert(q1[i] == q[i0] && q1[j] == q[j0]);
            }
            assert forall|c: Seq<char>|
                m.dom().contains(c) && !next.contains(c) && #[trigger] deg[c] == 0 implies exists|i: int|
                    0 <= i < q1.len() && (#[trigger] q1[i]).event_id@ == c by {
                assert(!done.contains(c)) by {
                    if done.contains(c) {
                        let t = choose|t: int| 0 <= t < done.len() && done[t] == c;
                        assert(next[t] == c);
                    }
                }
                let i0 = choose|i: int| 0 <= i < q.len() && (#[trigger] q[i]).event_id@ == c;
                assert(next[done.len() as int] == x);
                assert(i0 != best);
                if i0 < best {
                    assert(q1[i0] == q[i0]);
                } else {
                    assert(q1[i0 - 1] == q[i0]);
                }
            }
            assert(queue_tracks(m, deg, next, q1));
        }
        match adjacency.get(&event.event_id) {
            Some(neighbors) => {
                proof {
                    let list = children_of(child_map_contents(adjacency), x);
                    assert(id_seq(neighbors@) == list);
                    assert forall|t: int|
                        #![trigger neighbors@[t]]
                        0 <= t < neighbors@.len() implies m.dom().contains(neighbors@[t]@) && !id_seq(result@).contains(neighbors@[t]@) by {
                        assert(list[t] == neighbors@[t]@);
                        lemma_count_occ_positive(list, t);
                    }
                }
                release_children(events, &mut in_degree, &mut queue, neighbors, Ghost(id_seq(result@)));
            },
            None => {
                proof {
                    assert forall|c: Seq<char>|
                        m.dom().contains(c) && !id_seq(result@).contains(c) implies #[trigger] deg[c] == pending(
                        parent_ids(m[c]),
                        m.dom(),
                        id_seq(result@),
                    ) by {
                        assert(count_occ(children_of(child_map_contents(adjacency), x), c) == 0);
                    }
                }
            },
        }
    }
    proof {
        let done = id_seq(result@);
        assert forall|k: Seq<char>| !#[trigger] is_ready(m, k, done) by {
            if is_ready(m, k, done) {
                lemma_pending_zero(parent_ids(m[k]), m.dom(), done);
                assert(degree_map_contents(in_degree)[k] == 0);
                assert(exists|i: int| 0 <= i < queue@.len() && (#[trigger] queue@[i]).event_id@ == k);
            }
        }
    }
    result
}

/// Whether each key of the map is the identifier of the event under it, as
/// `lean_kahn_sort` requires.
pub fn keys_match_event_ids(events: &EventMap) -> (ok: bool)
    ensures
        ok == keys_match_ids(event_map_contents(*events)),
{
    let entries = events.entries();
    let ghost m = event_map_contents(*events);
    for i in 0..entries.len()
        invariant
            m == event_map_contents(*events),
            lists_entries(m, entries@),
            forall|t: int| 0 <= t < i ==> (#[trigger] entries@[t]).1.event_id@ == entries@[t].0@,
    {
        let (id, event) = entries[i];
        if !id_equal(&event.event_id, id) {
            proof {
                assert(m.dom().contains(id@) && m[id@] == *event);
            }
            return false;
        }
    }
    proof {
        assert forall|k: Seq<char>| #[trigger] m.dom().contains(k) implies m[k].event_id@ == k by {
            let t = choose|t: int| 0 <= t < entries@.len() && #[trigger] entries@[t].0@ == k;
            assert(entries@[t].1.event_id@ == entries@[t].0@);
        }
    }
    true
}

/// Resolves state: the unconflicted state is kept as it is, and the
/// conflicted events are put in order by `lean_kahn_sort` (an order that this
/// resolution does not yet apply).
pub fn resolve_lean(
    unconflicted_state: BTreeMap<(String, String), String>,
    conflicted_events: EventMap,
    version: StateResVersion,
) -> (resolved: BTreeMap<(String, String), String>)
    requires
        keys_match_ids(event_map_contents(conflicted_events)),
    ensures
        resolved == unconflicted_state,
{
    let resolved = unconflicted_state;
    let _sorted_ids = lean_kahn_sort(&conflicted_events, version);
    resolved
}

} // verus!
