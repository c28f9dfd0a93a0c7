//! Full state resolution over a room's events: sort them, let the last
//! event of each (event type, state key) win, and fingerprint the result.
use vstd::prelude::*;
use crate::collections::{EventMap, event_map_contents};
use crate::digest::{sha256, sha256_digest};
use crate::event::{LeanEvent, StateResVersion};
use crate::graph::{is_kahn_order, parent_ids};
use crate::ids::{id_equal, id_seq};
use crate::kahn::lean_kahn_sort;
use crate::laws::{lemma_kahn_order_topological, lemma_kahn_order_unique, same_sort_data};
use crate::state::{
    StateEntry, is_sorted_listing, key_of, lemma_sorted_listing_unique, listing_holds, set_state,
    state_bytes, state_bytes_of,
};

verus! {

/// A room event, with the fields that resolution and the host read.
#[derive(Debug, Clone, PartialEq, Eq)]
pub struct GuestEvent {
    pub event_id: String,
    pub room_id: String,
    pub sender: String,
    pub event_type: String,
    /// The event's `state_key`, when it has one that is a string.
    pub state_key: Option<String>,
    pub origin_server_ts: u64,
    pub depth: u64,
    /// The event's content, as JSON text.
    pub content: String,
    pub prev_events: Vec<String>,
    pub auth_events: Vec<String>,
    pub public_key: Option<Vec<u8>>,
    pub signature: Option<Vec<u8>>,
    pub verified_on_host: bool,
}

/// The input of a resolution: the room version and the events by identifier.
pub struct DAGMergeInput {
    pub room_version: String,
    /// Each event under its identifier; no identifier occurs twice.
    pub event_map: Vec<(String, GuestEvent)>,
}

/// The result of a resolution.
#[derive(Debug, PartialEq, Eq)]
pub struct DAGMergeOutput {
    pub resolved_state_hash: [u8; 32],
    pub event_count: u32,
}

/// No identifier occurs twice among the entries.
pub open spec fn keys_distinct(entries: Seq<(String, GuestEvent)>) -> bool {
    forall|i: int, j: int| 0 <= i < j < entries.len() ==> #[trigger] entries[i].0@ != #[trigger] entries[j].0@
}

/// `m` holds, under each identifier of the entries, the event that sorting
/// sees of it: the identifier, power level 0, the event's timestamp and
/// parents, depth 0.
pub open spec fn lean_events_of(entries: Seq<(String, GuestEvent)>, m: Map<Seq<char>, LeanEvent>) -> bool {
    &&& forall|k: Seq<char>|
        #[trigger] m.dom().contains(k) <==> exists|t: int| 0 <= t < entries.len() && #[trigger] entries[t].0@ == k
    &&& forall|t: int|
        #![trigger entries[t]]
        0 <= t < entries.len() ==> {
            let e = m[entries[t].0@];
            &&& e.event_id@ == entries[t].0@
            &&& e.power_level == 0
            &&& e.origin_server_ts == entries[t].1.origin_server_ts
            &&& e.depth == 0
            &&& parent_ids(e) == id_seq(entries[t].1.prev_events@)
        }
}

/// `order` is the V2 sort order of the entries' events.
pub open spec fn is_resolution_order(entries: Seq<(String, GuestEvent)>, order: Seq<Seq<char>>) -> bool {
    exists|m: Map<Seq<char>, LeanEvent>| lean_events_of(entries, m) && is_kahn_order(m, StateResVersion::V2, order)
}

/// Each event in the V2 sort order of the entries has a state key.
pub open spec fn sorted_events_have_state_keys(entries: Seq<(String, GuestEvent)>) -> bool {
    forall|order: Seq<Seq<char>>, i: int, t: int|
        is_resolution_order(entries, order) && 0 <= i < order.len() && 0 <= t < entries.len()
            && #[trigger] entries[t].0@ == #[trigger] order[i] ==> entries[t].1.state_key is Some
}

/// The state after applying, in `order`, each event of the entries: its
/// identifier is set under (event type, state key), later events overriding
/// earlier ones. Identifiers without an entry are passed over.
pub open spec fn state_after(entries: Seq<(String, GuestEvent)>, order: Seq<Seq<char>>) -> Map<(Seq<char>, Seq<char>), Seq<char>>
    decreases order.len(),
{
    if order.len() == 0 {
        Map::empty()
    } else {
        let before = state_after(entries, order.drop_last());
        if exists|t: int| 0 <= t < entries.len() && entries[t].0@ == order.last() {
            let t = choose|t: int| 0 <= t < entries.len() && entries[t].0@ == order.last();
            let g = entries[t].1;
            before.insert((g.event_type@, g.state_key.unwrap()@), g.event_id@)
        } else {
            before
        }
    }
}

/// The position of the entry under `id`, if any.
fn find_entry(entries: &Vec<(String, GuestEvent)>, id: &String) -> (found: Option<usize>)
    ensures
        match found {
            Some(t) => t < entries@.len() && entries@[t as int].0@ == id@,
            None => forall|t: int| 0 <= t < entries@.len() ==> entries@[t].0@ != id@,
        },
{
    for t in 0..entries.len()
        invariant
            forall|u: int| 0 <= u < t ==> entries@[u].0@ != id@,
    {
        if id_equal(&entries[t].0, id) {
            return Some(t);
        }
    }
    None
}

/// Applies the events under `sorted`, in turn, to an empty state (the last
/// writer of each key wins); the result lists the state in key order.
pub fn resolve_state(entries: &Vec<(String, GuestEvent)>, sorted: &Vec<String>) -> (listing: Vec<StateEntry>)
    requires
        keys_distinct(entries@),
        forall|i: int, t: int|
            0 <= i < sorted@.len() && 0 <= t < entries@.len() && #[trigger] entries@[t].0@
                == #[trigger] sorted@[i]@ ==> entries@[t].1.state_key is Some,
    ensures
        is_sorted_listing(listing@),
        listing_holds(listing@, state_after(entries@, id_seq(sorted@))),
{
    let mut listing: Vec<StateEntry> = Vec::new();
    let ghost order = id_seq(sorted@);
    proof {
        assert(order.take(0) =~= Seq::<Seq<char>>::empty());
    }
    for i in 0..sorted.len()
        invariant
            order == id_seq(sorted@),
            keys_distinct(entries@),
            forall|i: int, t: int|
                0 <= i < sorted@.len() && 0 <= t < entries@.len() && #[trigger] entries@[t].0@
                    == #[trigger] sorted@[i]@ ==> entries@[t].1.state_key is Some,
            is_sorted_listing(listing@),
            listing_holds(listing@, state_after(entries@, order.take(i as int))),
    {
        let id = &sorted[i];
        let ghost prefix = order.take(i + 1);
        proof {
            assert(prefix.drop_last() =~= order.take(i as int));
            assert(prefix.last() == id@);
        }
        match find_entry(entries, id) {
            Some(t) => {
                let event = &entries[t].1;
                proof {
                    assert(entries@[t as int].0@ == sorted@[i as int]@);
                    let u = choose|u: int| 0 <= u < entries@.len() && entries@[u].0@ == prefix.last();
                    if u != t {
                        if u < t {
                            assert(entries@[u].0@ != entries@[t as int].0@);
                        } else {
                            assert(entries@[t as int].0@ != entries@[u].0@);
                        }
                    }
                }
                match &event.state_key {
                    Some(state_key) => {
                        let entry = StateEntry {
                            event_type: event.event_type.clone(),
                            state_key: state_key.clone(),
                            event_id: event.event_id.clone(),
                        };
                        set_state(&mut listing, entry, Ghost(state_after(entries@, order.take(i as int))));
                    },
                    None => {},
                }
            },
            None => {},
        }
    }
    proof {
        assert(order.take(sorted@.len() as int) =~= order);
    }
    listing
}

/// The fingerprint of a listing: the SHA-256 digest of its bytes.
pub fn state_hash(listing: &Vec<StateEntry>) -> (digest: [u8; 32])
    ensures
        digest@ == sha256_digest(state_bytes(listing@)),
{
    let bytes = state_bytes_of(listing);
    sha256(bytes.as_slice())
}

/// A copy of a list of identifiers.
fn copy_ids(ids: &Vec<String>) -> (copy: Vec<String>)
    ensures
        id_seq(copy@) == id_seq(ids@),
{
    let mut copy: Vec<String> = Vec::new();
    for i in 0..ids.len()
        invariant
            copy@.len() == i,
            forall|j: int| 0 <= j < i ==> copy@[j]@ == ids@[j]@,
    {
        copy.push(ids[i].clone());
    }
    proof {
        assert(id_seq(copy@) =~= id_seq(ids@));
    }
    copy
}

/// The V2 sort order of the entries' events, each sorted with power level 0
/// and depth 0 (values that this resolution does not read).
pub fn resolution_order(entries: &Vec<(String, GuestEvent)>) -> (sorted: Vec<String>)
    requires
        keys_distinct(entries@),
    ensures
        is_resolution_order(entries@, id_seq(sorted@)),
{
    let mut conflicted_events = EventMap::new();
    for t in 0..entries.len()
        invariant
            keys_distinct(entries@),
            forall|k: Seq<char>|
                #[trigger] event_map_contents(conflicted_events).dom().contains(k) <==> exists|u: int|
                    0 <= u < t && #[trigger] entries@[u].0@ == k,
            forall|u: int|
                #![trigger entries@[u]]
                0 <= u < t ==> {
                    let e = event_map_contents(conflicted_events)[entries@[u].0@];
                    &&& e.event_id@ == entries@[u].0@
                    &&& e.power_level == 0
                    &&& e.origin_server_ts == entries@[u].1.origin_server_ts
                    &&& e.depth == 0
                    &&& parent_ids(e) == id_seq(entries@[u].1.prev_events@)
                },
    {
        let id = &entries[t].0;
        let guest_event = &entries[t].1;
        let lean_event = LeanEvent {
            event_id: id.clone(),
            power_level: 0,
            origin_server_ts: guest_event.origin_server_ts,
            prev_events: copy_ids(&guest_event.prev_events),
            depth: 0,
        };
        let ghost before = event_map_contents(conflicted_events);
        conflicted_events.insert(lean_event.event_id.clone(), lean_event);
        proof {
            let after = event_map_contents(conflicted_events);
            assert forall|k: Seq<char>|
                #[trigger] after.dom().contains(k) <==> exists|u: int|
                    0 <= u < t + 1 && #[trigger] entries@[u].0@ == k by {
                if before.dom().contains(k) {
                    let u = choose|u: int| 0 <= u < t && #[trigger] entries@[u].0@ == k;
                    assert(entries@[u].0@ == k);
                }
                if exists|u: int| 0 <= u < t + 1 && #[trigger] entries@[u].0@ == k {
                    let u = choose|u: int| 0 <= u < t + 1 && #[trigger] entries@[u].0@ == k;
                    if u < t {
                        assert(before.dom().contains(k));
                    }
                }
            }
            assert forall|u: int| 0 <= u < t implies entries@[u].0@ != entries@[t as int].0@ by {}
        }
    }
    let ghost m = event_map_contents(conflicted_events);
    proof {
        assert(lean_events_of(entries@, m));
        assert forall|k: Seq<char>| #[trigger] m.dom().contains(k) implies m[k].event_id@ == k by {
            let u = choose|u: int| 0 <= u < entries@.len() && #[trigger] entries@[u].0@ == k;
            assert(entries@[u] == entries@[u]);
        }
    }
    let sorted = lean_kahn_sort(&conflicted_events, StateResVersion::V2);
    proof {
        assert(is_resolution_order(entries@, id_seq(sorted@)));
    }
    sorted
}

/// Whether each event in the V2 sort order of the input's events has a state
/// key, which resolving it requires.
pub fn sorted_events_have_state_key(input: &DAGMergeInput) -> (ok: bool)
    requires
        keys_distinct(input.event_map@),
    ensures
        ok == sorted_events_have_state_keys(input.event_map@),
{
    let entries = &input.event_map;
    let sorted = resolution_order(entries);
    let ghost order = id_seq(sorted@);
    for i in 0..sorted.len()
        invariant
            order == id_seq(sorted@),
            entries@ == input.event_map@,
            keys_distinct(entries@),
            is_resolution_order(entries@, order),
            forall|a: int, t: int|
                0 <= a < i && 0 <= t < entries@.len() && #[trigger] entries@[t].0@ == #[trigger] order[a]
                    ==> entries@[t].1.state_key is Some,
    {
        match find_entry(entries, &sorted[i]) {
            Some(t) => {
                if entries[t].1.state_key.is_none() {
                    proof {
                        assert(order[i as int] == sorted@[i as int]@);
                        assert(entries@[t as int].0@ == order[i as int]);
                        assert(!(entries@[t as int].1.state_key is Some));
                        assert(!sorted_events_have_state_keys(entries@));
                    }
                    return false;
                }
                proof {
                    assert forall|a: int, u: int|
                        0 <= a < i + 1 && 0 <= u < entries@.len() && #[trigger] entries@[u].0@ == #[trigger] order[a]
                        implies entries@[u].1.state_key is Some by {
                        if a == i {
                            assert(order[a] == sorted@[a]@);
                            if u != t {
                                if u < t {
                                    assert(entries@[u].0@ != entries@[t as int].0@);
                                } else {
                                    assert(entries@[t as int].0@ != entries@[u].0@);
                                }
                            }
                        }
                    }
                }
            },
            None => {
                proof {
                    assert(order[i as int] == sorted@[i as int]@);
                }
            },
        }
    }
    proof {
        assert forall|o: Seq<Seq<char>>, a: int, t: int|
            is_resolution_order(entries@, o) && 0 <= a < o.len() && 0 <= t < entries@.len()
                && #[trigger] entries@[t].0@ == #[trigger] o[a] implies entries@[t].1.state_key is Some by {
            lemma_resolution_order_unique(entries@, o, order);
        }
    }
    true
}

/// `output` is the resolution of the entries: it counts them (modulo 2^32)
/// and holds the SHA-256 fingerprint of the listing, in key order, of the
/// state after their V2 sort order.
pub open spec fn is_resolution_of(entries: Seq<(String, GuestEvent)>, output: DAGMergeOutput) -> bool {
    &&& output.event_count == entries.len() as u32
    &&& exists|order: Seq<Seq<char>>, listing: Seq<StateEntry>|
        {
            &&& is_resolution_order(entries, order)
            &&& is_sorted_listing(listing)
            &&& listing_holds(listing, state_after(entries, order))
            &&& output.resolved_state_hash@ == sha256_digest(state_bytes(listing))
        }
}

/// Resolves a room's state: sorts its events under the V2 rules (each with
/// power level 0 and depth 0, as this resolution does not read them),
/// applies them in that order so that the last event of each (event type,
/// state key) wins, and returns the SHA-256 fingerprint of the resulting
/// state in key order, with the number of events (modulo 2^32).
pub fn resolve_full_spec(input: DAGMergeInput) -> (output: DAGMergeOutput)
    requires
        keys_distinct(input.event_map@),
        sorted_events_have_state_keys(input.event_map@),
    ensures
        is_resolution_of(input.event_map@, output),
{
    let entries = &input.event_map;
    let event_count = entries.len() as u32;

    let sorted_ids = resolution_order(entries);
    proof {
        assert forall|i: int, t: int|
            0 <= i < sorted_ids@.len() && 0 <= t < entries@.len() && #[trigger] entries@[t].0@
                == #[trigger] sorted_ids@[i]@ implies entries@[t].1.state_key is Some by {
            assert(id_seq(sorted_ids@)[i] == sorted_ids@[i]@);
        }
    }

    // The last writer of each (event type, state key) wins.
    let resolved_state = resolve_state(entries, &sorted_ids);

    // Fingerprint the resolved state.
    let resolved_state_hash = state_hash(&resolved_state);

    DAGMergeOutput { resolved_state_hash, event_count }
}

/// A room's events have one V2 sort order.
pub proof fn lemma_resolution_order_unique(
    entries: Seq<(String, GuestEvent)>,
    o1: Seq<Seq<char>>,
    o2: Seq<Seq<char>>,
)
    requires
        keys_distinct(entries),
        is_resolution_order(entries, o1),
        is_resolution_order(entries, o2),
    ensures
        o1 == o2,
{
    let m1 = choose|m: Map<Seq<char>, LeanEvent>| lean_events_of(entries, m) && is_kahn_order(m, StateResVersion::V2, o1);
    let m2 = choose|m: Map<Seq<char>, LeanEvent>| lean_events_of(entries, m) && is_kahn_order(m, StateResVersion::V2, o2);
    assert(m1.dom() =~= m2.dom()) by {
        assert forall|k: Seq<char>| m1.dom().contains(k) <==> m2.dom().contains(k) by {
            if m1.dom().contains(k) {
                let t = choose|t: int| 0 <= t < entries.len() && #[trigger] entries[t].0@ == k;
                assert(entries[t].0@ == k);
            }
            if m2.dom().contains(k) {
                let t = choose|t: int| 0 <= t < entries.len() && #[trigger] entries[t].0@ == k;
                assert(entries[t].0@ == k);
            }
        }
    }
    assert forall|k: Seq<char>| m1.dom().contains(k) implies {
        &&& m1[k].event_id@ == m2[k].event_id@
        &&& m1[k].power_level == m2[k].power_level
        &&& m1[k].origin_server_ts == m2[k].origin_server_ts
        &&& m1[k].depth == m2[k].depth
        &&& parent_ids(m1[k]) == parent_ids(m2[k])
    } by {
        let t = choose|t: int| 0 <= t < entries.len() && #[trigger] entries[t].0@ == k;
        assert(entries[t] == entries[t]);
    }
    assert(same_sort_data(m1, m2));
    lemma_kahn_order_unique(m1, m2, StateResVersion::V2, o1, o2);
}

/// The fingerprint bytes depend only on the keys and identifiers listed.
proof fn lemma_state_bytes_same(v: Seq<StateEntry>, w: Seq<StateEntry>)
    requires
        v.len() == w.len(),
        forall|i: int| 0 <= i < v.len() ==> key_of(#[trigger] v[i]) == key_of(w[i]) && v[i].event_id@ == w[i].event_id@,
    ensures
        state_bytes(v) == state_bytes(w),
    decreases v.len(),
{
    if v.len() > 0 {
        assert forall|i: int| 0 <= i < v.drop_last().len() implies key_of(#[trigger] v.drop_last()[i]) == key_of(w.drop_last()[i])
            && v.drop_last()[i].event_id@ == w.drop_last()[i].event_id@ by {
            assert(v.drop_last()[i] == v[i]);
            assert(w.drop_last()[i] == w[i]);
        }
        lemma_state_bytes_same(v.drop_last(), w.drop_last());
        assert(key_of(v[v.len() - 1]) == key_of(w[w.len() - 1]));
    }
}

/// A room's events have one resolved state, and so one fingerprint: any two
/// listings in key order of the state after the V2 sort order give the same
/// fingerprint bytes.
pub proof fn lemma_resolution_fingerprint_unique(
    entries: Seq<(String, GuestEvent)>,
    o1: Seq<Seq<char>>,
    l1: Seq<StateEntry>,
    o2: Seq<Seq<char>>,
    l2: Seq<StateEntry>,
)
    requires
        keys_distinct(entries),
        is_resolution_order(entries, o1),
        is_resolution_order(entries, o2),
        is_sorted_listing(l1),
        is_sorted_listing(l2),
        listing_holds(l1, state_after(entries, o1)),
        listing_holds(l2, state_after(entries, o2)),
    ensures
        state_bytes(l1) == state_bytes(l2),
{
    lemma_resolution_order_unique(entries, o1, o2);
    lemma_sorted_listing_unique(l1, l2, state_after(entries, o1));
    lemma_state_bytes_same(l1, l2);
}

/// `a` and `b` list the same events as far as resolution reads them: the
/// same identifiers in the same order, and for each event the same
/// identifier, event type, state key, timestamp and parents.
pub open spec fn same_resolution_data(a: Seq<(String, GuestEvent)>, b: Seq<(String, GuestEvent)>) -> bool {
    &&& a.len() == b.len()
    &&& forall|t: int|
        #![trigger a[t], b[t]]
        0 <= t < a.len() ==> {
            &&& a[t].0@ == b[t].0@
            &&& a[t].1.event_id@ == b[t].1.event_id@
            &&& a[t].1.event_type@ == b[t].1.event_type@
            &&& (a[t].1.state_key is Some <==> b[t].1.state_key is Some)
            &&& (a[t].1.state_key is Some ==> a[t].1.state_key.unwrap()@ == b[t].1.state_key.unwrap()@)
            &&& a[t].1.origin_server_ts == b[t].1.origin_server_ts
            &&& id_seq(a[t].1.prev_events@) == id_seq(b[t].1.prev_events@)
        }
}

/// Entries with the same resolution data have the same V2 sort orders.
proof fn lemma_resolution_order_transfer(
    a: Seq<(String, GuestEvent)>,
    b: Seq<(String, GuestEvent)>,
    order: Seq<Seq<char>>,
)
    requires
        same_resolution_data(a, b),
        is_resolution_order(a, order),
    ensures
        is_resolution_order(b, order),
{
    let m = choose|m: Map<Seq<char>, LeanEvent>| lean_events_of(a, m) && is_kahn_order(m, StateResVersion::V2, order);
    assert forall|k: Seq<char>|
        #[trigger] m.dom().contains(k) <==> exists|t: int| 0 <= t < b.len() && #[trigger] b[t].0@ == k by {
        if m.dom().contains(k) {
            let t = choose|t: int| 0 <= t < a.len() && #[trigger] a[t].0@ == k;
            assert(a[t].0@ == b[t].0@);
        }
        if exists|t: int| 0 <= t < b.len() && #[trigger] b[t].0@ == k {
            let t = choose|t: int| 0 <= t < b.len() && #[trigger] b[t].0@ == k;
            assert(a[t].0@ == b[t].0@);
        }
    }
    assert forall|t: int| 0 <= t < b.len() implies {
        let e = #[trigger] m[b[t].0@];
        &&& e.event_id@ == b[t].0@
        &&& e.power_level == 0
        &&& e.origin_server_ts == b[t].1.origin_server_ts
        &&& e.depth == 0
        &&& parent_ids(e) == id_seq(b[t].1.prev_events@)
    } by {
        assert(a[t].0@ == b[t].0@);
        assert(a[t] == a[t]);
    }
    assert(lean_events_of(b, m));
}

/// `same_resolution_data` holds both ways.
proof fn lemma_same_resolution_data_symmetric(a: Seq<(String, GuestEvent)>, b: Seq<(String, GuestEvent)>)
    requires
        same_resolution_data(a, b),
    ensures
        same_resolution_data(b, a),
{
    assert forall|t: int| 0 <= t < b.len() implies {
        &&& b[t].0@ == a[t].0@
        &&& b[t].1.event_id@ == a[t].1.event_id@
        &&& b[t].1.event_type@ == a[t].1.event_type@
        &&& (b[t].1.state_key is Some <==> a[t].1.state_key is Some)
        &&& (b[t].1.state_key is Some ==> b[t].1.state_key.unwrap()@ == a[t].1.state_key.unwrap()@)
        &&& b[t].1.origin_server_ts == a[t].1.origin_server_ts
        &&& id_seq(b[t].1.prev_events@) == id_seq(a[t].1.prev_events@)
    } by {
        assert(a[t] == a[t] && b[t] == b[t]);
    }
}

/// Entries with the same resolution data give the same state after any order.
proof fn lemma_state_after_same(
    a: Seq<(String, GuestEvent)>,
    b: Seq<(String, GuestEvent)>,
    order: Seq<Seq<char>>,
)
    requires
        keys_distinct(a),
        same_resolution_data(a, b),
    ensures
        state_after(a, order) == state_after(b, order),
    decreases order.len(),
{
    if order.len() > 0 {
        lemma_state_after_same(a, b, order.drop_last());
        if exists|t: int| 0 <= t < a.len() && a[t].0@ == order.last() {
            let ta = choose|t: int| 0 <= t < a.len() && a[t].0@ == order.last();
            assert(a[ta].0@ == b[ta].0@);
            let tb = choose|t: int| 0 <= t < b.len() && b[t].0@ == order.last();
            assert(a[tb].0@ == b[tb].0@);
            if ta != tb {
                if ta < tb {
                    assert(a[ta].0@ != a[tb].0@);
                } else {
                    assert(a[tb].0@ != a[ta].0@);
                }
            }
            assert(b[ta].0@ == order.last());
            assert(exists|t: int| 0 <= t < b.len() && b[t].0@ == order.last());
            assert(tb == ta);
            let ga = a[ta].1;
            let gb = b[ta].1;
            assert(ga.state_key.unwrap()@ == gb.state_key.unwrap()@) by {
                if ga.state_key is None {
                    assert(ga.state_key == gb.state_key);
                }
            }
            assert((ga.event_type@, ga.state_key.unwrap()@) == (gb.event_type@, gb.state_key.unwrap()@));
            assert(ga.event_id@ == gb.event_id@);
            assert(state_after(a, order) == state_after(a, order.drop_last()).insert(
                (ga.event_type@, ga.state_key.unwrap()@),
                ga.event_id@,
            ));
            assert(state_after(b, order) == state_after(b, order.drop_last()).insert(
                (gb.event_type@, gb.state_key.unwrap()@),
                gb.event_id@,
            ));
        } else {
            if exists|t: int| 0 <= t < b.len() && b[t].0@ == order.last() {
                let tb = choose|t: int| 0 <= t < b.len() && b[t].0@ == order.last();
                assert(a[tb].0@ == b[tb].0@);
            }
            assert(state_after(a, order) == state_after(a, order.drop_last()));
            assert(state_after(b, order) == state_after(b, order.drop_last()));
        }
    }
}

/// Resolution reads of each event only its identifier, event type, state
/// key, timestamp and parents: two inputs whose events agree on these (in
/// the same order) resolve to the same output, whatever their room version,
/// senders, rooms, contents, depths, auth events, keys and signatures.
pub proof fn lemma_resolution_ignores_other_fields(
    a: Seq<(String, GuestEvent)>,
    b: Seq<(String, GuestEvent)>,
    out_a: DAGMergeOutput,
    out_b: DAGMergeOutput,
)
    requires
        keys_distinct(a),
        same_resolution_data(a, b),
        is_resolution_of(a, out_a),
        is_resolution_of(b, out_b),
    ensures
        out_a.event_count == out_b.event_count,
        out_a.resolved_state_hash@ == out_b.resolved_state_hash@,
{
    let (o1, l1) = choose|order: Seq<Seq<char>>, listing: Seq<StateEntry>|
        {
            &&& is_resolution_order(a, order)
            &&& is_sorted_listing(listing)
            &&& listing_holds(listing, state_after(a, order))
            &&& out_a.resolved_state_hash@ == sha256_digest(state_bytes(listing))
        };
    let (o2, l2) = choose|order: Seq<Seq<char>>, listing: Seq<StateEntry>|
        {
            &&& is_resolution_order(b, order)
            &&& is_sorted_listing(listing)
            &&& listing_holds(listing, state_after(b, order))
            &&& out_b.resolved_state_hash@ == sha256_digest(state_bytes(listing))
        };
    lemma_same_resolution_data_symmetric(a, b);
    lemma_resolution_order_transfer(b, a, o2);
    lemma_state_after_same(a, b, o2);
    lemma_resolution_fingerprint_unique(a, o1, l1, o2, l2);
}

/// `k` is the identifier of one of the entries.
pub open spec fn is_input_id(entries: Seq<(String, GuestEvent)>, k: Seq<char>) -> bool {
    exists|t: int| 0 <= t < entries.len() && #[trigger] entries[t].0@ == k
}

/// The resolution order is topological over the whole input: it lists input
/// identifiers only, each once, and each event comes after every one of its
/// `prev_events` that is itself an input identifier.
pub proof fn lemma_resolution_order_respects_prev_events(
    entries: Seq<(String, GuestEvent)>,
    order: Seq<Seq<char>>,
)
    requires
        is_resolution_order(entries, order),
    ensures
        order.no_duplicates(),
        forall|i: int| 0 <= i < order.len() ==> is_input_id(entries, #[trigger] order[i]),
        forall|i: int, t: int, j: int|
            #![trigger order[i], entries[t].1.prev_events@[j]]
            0 <= i < order.len() && 0 <= t < entries.len() && entries[t].0@ == order[i]
                && 0 <= j < entries[t].1.prev_events@.len()
                && is_input_id(entries, entries[t].1.prev_events@[j]@)
                ==> exists|p: int| 0 <= p < i && order[p] == entries[t].1.prev_events@[j]@,
{
    let m = choose|m: Map<Seq<char>, LeanEvent>| lean_events_of(entries, m) && is_kahn_order(m, StateResVersion::V2, order);
    lemma_kahn_order_topological(m, StateResVersion::V2, order);
    assert forall|i: int| 0 <= i < order.len() implies is_input_id(entries, #[trigger] order[i]) by {
        assert(m.dom().contains(order[i]));
    }
    assert forall|i: int, t: int, j: int|
        #![trigger order[i], entries[t].1.prev_events@[j]]
        0 <= i < order.len() && 0 <= t < entries.len() && entries[t].0@ == order[i]
            && 0 <= j < entries[t].1.prev_events@.len()
            && is_input_id(entries, entries[t].1.prev_events@[j]@)
        implies exists|p: int| 0 <= p < i && order[p] == entries[t].1.prev_events@[j]@ by {
        let parent = entries[t].1.prev_events@[j]@;
        assert(entries[t] == entries[t]);
        assert(parent_ids(m[order[i]]) == id_seq(entries[t].1.prev_events@));
        assert(parent_ids(m[order[i]])[j] == parent);
        let u = choose|u: int| 0 <= u < entries.len() && #[trigger] entries[u].0@ == parent;
        assert(m.dom().contains(entries[u].0@));
        assert(m.dom().contains(parent_ids(m[order[i]])[j]));
    }
}

/// The `i`-th identifier of `order` is that of entry `t`.
pub open spec fn applied_at(entries: Seq<(String, GuestEvent)>, order: Seq<Seq<char>>, i: int, t: int) -> bool {
    0 <= i < order.len() && 0 <= t < entries.len() && entries[t].0@ == order[i]
}

/// The (event type, state key) that entry `t` sets.
pub open spec fn state_slot(entries: Seq<(String, GuestEvent)>, t: int) -> (Seq<char>, Seq<char>) {
    (entries[t].1.event_type@, entries[t].1.state_key.unwrap()@)
}

/// Last writer wins: the state after an order holds a key exactly when some
/// event applied in the order sets it, and then it holds the identifier of
/// the last event in the order that sets it.
pub proof fn lemma_state_after_last_writer(entries: Seq<(String, GuestEvent)>, order: Seq<Seq<char>>)
    requires
        keys_distinct(entries),
    ensures
        forall|key: (Seq<char>, Seq<char>)|
            #[trigger] state_after(entries, order).dom().contains(key) <==> exists|i: int, t: int|
                #[trigger] applied_at(entries, order, i, t) && state_slot(entries, t) == key,
        forall|i: int, t: int|
            #[trigger] applied_at(entries, order, i, t) && (forall|i2: int, t2: int|
                i < i2 && #[trigger] applied_at(entries, order, i2, t2) ==> state_slot(entries, t2)
                    != state_slot(entries, t))
                ==> state_after(entries, order)[state_slot(entries, t)] == entries[t].1.event_id@,
    decreases order.len(),
{
    if order.len() == 0 {
        assert forall|key: (Seq<char>, Seq<char>)|
            #[trigger] state_after(entries, order).dom().contains(key) <==> exists|i: int, t: int|
                #[trigger] applied_at(entries, order, i, t) && state_slot(entries, t) == key by {}
    } else {
        let n = order.len() - 1;
        let pre = order.drop_last();
        lemma_state_after_last_writer(entries, pre);
        let before = state_after(entries, pre);
        let after = state_after(entries, order);
        assert forall|i: int, t: int| 0 <= i < n implies applied_at(entries, order, i, t) == applied_at(entries, pre, i, t) by {
            assert(pre[i] == order[i]);
        }
        if exists|t: int| 0 <= t < entries.len() && entries[t].0@ == order.last() {
            let ta = choose|t: int| 0 <= t < entries.len() && entries[t].0@ == order.last();
            assert(after == before.insert(state_slot(entries, ta), entries[ta].1.event_id@));
            assert(applied_at(entries, order, n, ta));
            assert forall|t: int| applied_at(entries, order, n, t) implies t == ta by {
                if t != ta {
                    if t < ta {
                        assert(entries[t].0@ != entries[ta].0@);
                    } else {
                        assert(entries[ta].0@ != entries[t].0@);
                    }
                }
            }
            assert forall|key: (Seq<char>, Seq<char>)|
                #[trigger] after.dom().contains(key) <==> exists|i: int, t: int|
                    #[trigger] applied_at(entries, order, i, t) && state_slot(entries, t) == key by {
                if after.dom().contains(key) && key != state_slot(entries, ta) {
                    assert(before.dom().contains(key));
                    let (i, t) = choose|i: int, t: int| #[trigger] applied_at(entries, pre, i, t) && state_slot(entries, t) == key;
                    assert(applied_at(entries, order, i, t));
                }
                if exists|i: int, t: int| #[trigger] applied_at(entries, order, i, t) && state_slot(entries, t) == key {
                    let (i, t) = choose|i: int, t: int| #[trigger] applied_at(entries, order, i, t) && state_slot(entries, t) == key;
                    if i < n {
                        assert(applied_at(entries, pre, i, t));
                    }
                }
            }
            assert forall|i: int, t: int|
                #[trigger] applied_at(entries, order, i, t) && (forall|i2: int, t2: int|
                    i < i2 && #[trigger] applied_at(entries, order, i2, t2) ==> state_slot(entries, t2)
                        != state_slot(entries, t))
                implies after[state_slot(entries, t)] == entries[t].1.event_id@ by {
                if i < n {
                    assert(state_slot(entries, ta) != state_slot(entries, t));
                    assert(applied_at(entries, pre, i, t));
                    assert forall|i2: int, t2: int|
                        i < i2 && #[trigger] applied_at(entries, pre, i2, t2) implies state_slot(entries, t2)
                            != state_slot(entries, t) by {
                        assert(applied_at(entries, order, i2, t2));
                    }
                }
            }
        } else {
            assert(after == before);
            assert forall|t: int| !applied_at(entries, order, n, t) by {}
            assert forall|key: (Seq<char>, Seq<char>)|
                #[trigger] after.dom().contains(key) <==> exists|i: int, t: int|
                    #[trigger] applied_at(entries, order, i, t) && state_slot(entries, t) == key by {
                if after.dom().contains(key) {
                    let (i, t) = choose|i: int, t: int| #[trigger] applied_at(entries, pre, i, t) && state_slot(entries, t) == key;
                    assert(applied_at(entries, order, i, t));
                }
                if exists|i: int, t: int| #[trigger] applied_at(entries, order, i, t) && state_slot(entries, t) == key {
                    let (i, t) = choose|i: int, t: int| #[trigger] applied_at(entries, order, i, t) && state_slot(entries, t) == key;
                    assert(applied_at(entries, pre, i, t));
                }
            }
            assert forall|i: int, t: int|
                #[trigger] applied_at(entries, order, i, t) && (forall|i2: int, t2: int|
                    i < i2 && #[trigger] applied_at(entries, order, i2, t2) ==> state_slot(entries, t2)
                        != state_slot(entries, t))
                implies after[state_slot(entries, t)] == entries[t].1.event_id@ by {
                assert(applied_at(entries, pre, i, t));
                assert forall|i2: int, t2: int|
                    i < i2 && #[trigger] applied_at(entries, pre, i2, t2) implies state_slot(entries, t2)
                        != state_slot(entries, t) by {
                    assert(applied_at(entries, order, i2, t2));
                }
            }
        }
    }
}

} // verus!
