//! The hash maps that the sort reads and fills, keyed by event identifier.
use vstd::prelude::*;
use crate::event::LeanEvent;
use crate::ids::id_seq;

verus! {

/// A map from event identifiers to events (a `hashbrown` hash map).
#[verifier::external_body]
pub struct EventMap {
    inner: hashbrown::HashMap<String, LeanEvent>,
}

/// What an `EventMap` holds: each key, as characters, to its event.
pub uninterp spec fn event_map_contents(m: EventMap) -> Map<Seq<char>, LeanEvent>;

impl EventMap {
    /// An empty map (`hashbrown::HashMap::new`).
    #[verifier::external_body]
    pub fn new() -> (map: EventMap)
        ensures
            event_map_contents(map).dom() == Set::<Seq<char>>::empty(),
    {
        EventMap { inner: hashbrown::HashMap::new() }
    }

    /// Inserts `event` under `key` (`hashbrown::HashMap::insert`): the map then
    /// holds `event` under `key`, all other keys unchanged; the value that was
    /// there before, if any, is returned.
    #[verifier::external_body]
    pub fn insert(&mut self, key: String, event: LeanEvent) -> (previous: Option<LeanEvent>)
        ensures
            event_map_contents(*final(self)) == event_map_contents(*old(self)).insert(
                key@,
                event,
            ),
            previous == event_map_contents(*old(self)).get(key@),
    {
        self.inner.insert(key, event)
    }

    /// Whether `key` is in the map (`hashbrown::HashMap::contains_key`).
    #[verifier::external_body]
    pub fn contains_key(&self, key: &String) -> (found: bool)
        ensures
            found == event_map_contents(*self).dom().contains(key@),
    {
        self.inner.contains_key(key)
    }

    /// The event under `key`, if any (`hashbrown::HashMap::get`).
    #[verifier::external_body]
    pub fn get(&self, key: &String) -> (event: Option<&LeanEvent>)
        ensures
            match event {
                Some(e) => event_map_contents(*self).dom().contains(key@) && *e
                    == event_map_contents(*self)[key@],
                None => !event_map_contents(*self).dom().contains(key@),
            },
    {
        self.inner.get(key)
    }

    /// Every entry once, in the map's own order (`hashbrown::HashMap::iter`):
    /// the keys are pairwise distinct, each entry is one of the map's, and
    /// each of the map's keys occurs. The order is left open.
    #[verifier::external_body]
    pub(crate) fn entries(&self) -> (items: Vec<(&String, &LeanEvent)>)
        ensures
            forall|i: int| #![trigger items@[i]]
                0 <= i < items@.len() ==> event_map_contents(*self).dom().contains(
                    items@[i].0@,
                ) && *items@[i].1 == event_map_contents(*self)[items@[i].0@],
            forall|i: int, j: int|
                0 <= i < j < items@.len() ==> #[trigger] items@[i].0@ != #[trigger] items@[j].0@,
            forall|k: Seq<char>| #[trigger]
                event_map_contents(*self).dom().contains(k) ==> exists|i: int|
                    0 <= i < items@.len() && #[trigger] items@[i].0@ == k,
    {
        self.inner.iter().collect()
    }
}

/// A map from event identifiers to counts (a `hashbrown` hash map).
#[verifier::external_body]
pub struct DegreeMap {
    inner: hashbrown::HashMap<String, usize>,
}

/// What a `DegreeMap` holds.
pub uninterp spec fn degree_map_contents(m: DegreeMap) -> Map<Seq<char>, usize>;

impl DegreeMap {
    /// An empty map (`hashbrown::HashMap::new`).
    #[verifier::external_body]
    pub(crate) fn new() -> (map: DegreeMap)
        ensures
            degree_map_contents(map).dom() == Set::<Seq<char>>::empty(),
    {
        DegreeMap { inner: hashbrown::HashMap::new() }
    }

    /// Sets the count under `key` (`hashbrown::HashMap::insert`).
    #[verifier::external_body]
    pub(crate) fn insert(&mut self, key: String, count: usize)
        ensures
            degree_map_contents(*final(self)) == degree_map_contents(*old(self)).insert(
                key@,
                count,
            ),
    {
        self.inner.insert(key, count);
    }

    /// The count under `key`, if any (`hashbrown::HashMap::get`).
    #[verifier::external_body]
    pub(crate) fn get(&self, key: &String) -> (count: Option<usize>)
        ensures
            count == degree_map_contents(*self).get(key@),
    {
        self.inner.get(key).copied()
    }

    /// Every entry once, in the map's own order (`hashbrown::HashMap::iter`):
    /// the keys are pairwise distinct, each entry is one of the map's, and
    /// each of the map's keys occurs. The order is left open.
    #[verifier::external_body]
    pub(crate) fn entries(&self) -> (items: Vec<(&String, usize)>)
        ensures
            forall|i: int| #![trigger items@[i]]
                0 <= i < items@.len() ==> degree_map_contents(*self).dom().contains(
                    items@[i].0@,
                ) && items@[i].1 == degree_map_contents(*self)[items@[i].0@],
            forall|i: int, j: int|
                0 <= i < j < items@.len() ==> #[trigger] items@[i].0@ != #[trigger] items@[j].0@,
            forall|k: Seq<char>| #[trigger]
                degree_map_contents(*self).dom().contains(k) ==> exists|i: int|
                    0 <= i < items@.len() && #[trigger] items@[i].0@ == k,
    {
        self.inner.iter().map(|(k, v)| (k, *v)).collect()
    }
}

/// A map from an event identifier to the identifiers of the events that name
/// it as a parent (a `hashbrown` hash map).
#[verifier::external_body]
pub struct ChildMap {
    inner: hashbrown::HashMap<String, Vec<String>>,
}

/// What a `ChildMap` holds.
pub uninterp spec fn child_map_contents(m: ChildMap) -> Map<Seq<char>, Seq<Seq<char>>>;

impl ChildMap {
    /// An empty map (`hashbrown::HashMap::new`).
    #[verifier::external_body]
    pub(crate) fn new() -> (map: ChildMap)
        ensures
            child_map_contents(map).dom() == Set::<Seq<char>>::empty(),
    {
        ChildMap { inner: hashbrown::HashMap::new() }
    }

    /// Sets the list under `key` (`hashbrown::HashMap::insert`).
    #[verifier::external_body]
    pub(crate) fn insert(&mut self, key: String, children: Vec<String>)
        ensures
            child_map_contents(*final(self)) == child_map_contents(*old(self)).insert(
                key@,
                id_seq(children@),
            ),
    {
        self.inner.insert(key, children);
    }

    /// Takes the list under `key` out of the map (`hashbrown::HashMap::remove`).
    #[verifier::external_body]
    pub(crate) fn remove(&mut self, key: &String) -> (children: Option<Vec<String>>)
        ensures
            child_map_contents(*final(self)) == child_map_contents(*old(self)).remove(key@),
            match children {
                Some(v) => child_map_contents(*old(self)).dom().contains(key@) && id_seq(v@)
                    == child_map_contents(*old(self))[key@],
                None => !child_map_contents(*old(self)).dom().contains(key@),
            },
    {
        self.inner.remove(key)
    }

    /// The list under `key`, if any (`hashbrown::HashMap::get`).
    #[verifier::external_body]
    pub(crate) fn get(&self, key: &String) -> (children: Option<&Vec<String>>)
        ensures
            match children {
                Some(v) => child_map_contents(*self).dom().contains(key@) && id_seq(v@)
                    == child_map_contents(*self)[key@],
                None => !child_map_contents(*self).dom().contains(key@),
            },
    {
        self.inner.get(key)
    }
}

} // verus!
