//! Events, state resolution versions and the tie-breaking orders on events.
use vstd::prelude::*;
use core::cmp::Ordering;
use vstd::std_specs::cmp::PartialOrdSpecImpl;
use crate::ids::{
    differs_first_at, lemma_id_lt_lexicographic, id_lt, id_less_than, id_equal, lemma_id_lt_asymmetric, lemma_id_lt_total, lemma_id_lt_irreflexive,
    lemma_id_lt_transitive,
};

verus! {

/// The version of the Matrix State Resolution algorithm to use.
#[allow(non_camel_case_types)]
#[derive(Debug, Clone, Copy, PartialEq, Eq, Structural)]
pub enum StateResVersion {
    V1,
    V2,
    V2_1,
}

/// A lightweight Matrix event, as state resolution sees it.
#[derive(Debug, Clone, PartialEq, Eq)]
pub struct LeanEvent {
    pub event_id: String,
    pub power_level: i64,
    pub origin_server_ts: u64,
    pub prev_events: Vec<String>,
    /// Used by the V1 tie-breaking rule.
    pub depth: u64,
}

/// The order of two identifiers: lexicographic by code point.
pub open spec fn id_order(a: Seq<char>, b: Seq<char>) -> Ordering {
    if id_lt(a, b) {
        Ordering::Less
    } else if a == b {
        Ordering::Equal
    } else {
        Ordering::Greater
    }
}

/// The order of two events under the V2 rules: higher power level first,
/// then earlier timestamp, then smaller identifier. `Less` means `a` comes first.
pub open spec fn event_order(a: LeanEvent, b: LeanEvent) -> Ordering {
    if a.power_level > b.power_level {
        Ordering::Less
    } else if a.power_level < b.power_level {
        Ordering::Greater
    } else if a.origin_server_ts < b.origin_server_ts {
        Ordering::Less
    } else if a.origin_server_ts > b.origin_server_ts {
        Ordering::Greater
    } else {
        id_order(a.event_id@, b.event_id@)
    }
}

/// Whether `a` is taken before `b` when both are ready in the topological sort.
pub open spec fn takes_precedence(a: LeanEvent, b: LeanEvent, version: StateResVersion) -> bool {
    match version {
        StateResVersion::V1 => a.depth < b.depth || (a.depth == b.depth && id_lt(
            a.event_id@,
            b.event_id@,
        )),
        _ => a.power_level > b.power_level || (a.power_level == b.power_level && (
        a.origin_server_ts < b.origin_server_ts || (a.origin_server_ts == b.origin_server_ts
            && id_lt(a.event_id@, b.event_id@)))),
    }
}

/// The priority order of the sort's queue: `Greater` means `a` is taken first.
pub open spec fn priority_order(a: LeanEvent, b: LeanEvent, version: StateResVersion) -> Ordering {
    if takes_precedence(a, b, version) {
        Ordering::Greater
    } else if takes_precedence(b, a, version) {
        Ordering::Less
    } else {
        Ordering::Equal
    }
}

/// The order of two identifiers, computed character by character.
pub fn compare_ids(a: &String, b: &String) -> (o: Ordering)
    ensures
        o == id_order(a@, b@),
{
    if id_less_than(a, b) {
        Ordering::Less
    } else if id_equal(a, b) {
        Ordering::Equal
    } else {
        Ordering::Greater
    }
}

impl LeanEvent {
    /// Compares two events by the V2 rules: power level (descending), then
    /// origin server timestamp (ascending), then event id (ascending).
    pub fn cmp(&self, other: &Self) -> (o: Ordering)
        ensures
            o == event_order(*self, *other),
    {
        match other.power_level.cmp(&self.power_level) {
            Ordering::Equal => {
                match self.origin_server_ts.cmp(&other.origin_server_ts) {
                    Ordering::Equal => compare_ids(&self.event_id, &other.event_id),
                    ord => ord,
                }
            },
            ord => ord,
        }
    }
}

impl PartialOrd for LeanEvent {
    fn partial_cmp(&self, other: &Self) -> (o: Option<Ordering>) {
        Some(self.cmp(other))
    }
}

impl PartialOrdSpecImpl for LeanEvent {
    open spec fn obeys_partial_cmp_spec() -> bool {
        true
    }

    open spec fn partial_cmp_spec(&self, other: &Self) -> Option<Ordering> {
        Some(event_order(*self, *other))
    }
}

/// An event in the sort's queue, with the version whose rules order it.
#[derive(Debug, PartialEq, Eq)]
pub struct SortPriority<'a> {
    pub event: &'a LeanEvent,
    pub version: StateResVersion,
}

impl<'a> SortPriority<'a> {
    /// Compares two queue entries by the rules of `self.version`; `Greater`
    /// means `self` is taken first. V1: depth (ascending), then event id
    /// (ascending). V2 and V2.1: power level (descending), then origin server
    /// timestamp (ascending), then event id (ascending).
    pub fn cmp(&self, other: &Self) -> (o: Ordering)
        ensures
            o == priority_order(*self.event, *other.event, self.version),
    {
        proof {
            lemma_id_lt_asymmetric(self.event.event_id@, other.event.event_id@);
            lemma_id_lt_total(self.event.event_id@, other.event.event_id@);
            lemma_id_lt_irreflexive(self.event.event_id@);
        }
        match self.version {
            StateResVersion::V1 => {
                match other.event.depth.cmp(&self.event.depth) {
                    Ordering::Equal => compare_ids(&other.event.event_id, &self.event.event_id),
                    ord => ord,
                }
            },
            StateResVersion::V2 | StateResVersion::V2_1 => {
                match self.event.power_level.cmp(&other.event.power_level) {
                    Ordering::Equal => {
                        match other.event.origin_server_ts.cmp(&self.event.origin_server_ts) {
                            Ordering::Equal => compare_ids(
                                &other.event.event_id,
                                &self.event.event_id,
                            ),
                            ord => ord,
                        }
                    },
                    ord => ord,
                }
            },
        }
    }
}

impl<'a> PartialOrd for SortPriority<'a> {
    fn partial_cmp(&self, other: &Self) -> (o: Option<Ordering>) {
        Some(self.cmp(other))
    }
}

impl<'a> PartialOrdSpecImpl for SortPriority<'a> {
    open spec fn obeys_partial_cmp_spec() -> bool {
        true
    }

    open spec fn partial_cmp_spec(&self, other: &Self) -> Option<Ordering> {
        Some(priority_order(*self.event, *other.event, self.version))
    }
}

/// No event takes precedence over itself.
pub proof fn lemma_precedence_irreflexive(a: LeanEvent, version: StateResVersion)
    ensures
        !takes_precedence(a, a, version),
{
    lemma_id_lt_irreflexive(a.event_id@);
}

/// Of two events, at most one takes precedence over the other.
pub proof fn lemma_precedence_asymmetric(a: LeanEvent, b: LeanEvent, version: StateResVersion)
    ensures
        takes_precedence(a, b, version) ==> !takes_precedence(b, a, version),
{
    lemma_id_lt_asymmetric(a.event_id@, b.event_id@);
}

/// Of two events with distinct identifiers, one takes precedence.
pub proof fn lemma_precedence_total(a: LeanEvent, b: LeanEvent, version: StateResVersion)
    ensures
        a.event_id@ != b.event_id@ ==> takes_precedence(a, b, version) || takes_precedence(
            b,
            a,
            version,
        ),
{
    lemma_id_lt_total(a.event_id@, b.event_id@);
}

/// Precedence is transitive.
pub proof fn lemma_precedence_transitive(
    a: LeanEvent,
    b: LeanEvent,
    c: LeanEvent,
    version: StateResVersion,
)
    ensures
        takes_precedence(a, b, version) && takes_precedence(b, c, version) ==> takes_precedence(
            a,
            c,
            version,
        ),
{
    lemma_id_lt_transitive(a.event_id@, b.event_id@, c.event_id@);
}

/// Each event compares equal to itself.
pub proof fn lemma_event_order_reflexive(a: LeanEvent)
    ensures
        event_order(a, a) == Ordering::Equal,
{
    lemma_id_lt_irreflexive(a.event_id@);
}

/// Swapping the events reverses their comparison.
pub proof fn lemma_event_order_antisymmetric(a: LeanEvent, b: LeanEvent)
    ensures
        (event_order(a, b) == Ordering::Less) == (event_order(b, a) == Ordering::Greater),
        (event_order(a, b) == Ordering::Equal) == (event_order(b, a) == Ordering::Equal),
{
    lemma_id_lt_asymmetric(a.event_id@, b.event_id@);
    lemma_id_lt_asymmetric(b.event_id@, a.event_id@);
    lemma_id_lt_total(a.event_id@, b.event_id@);
    lemma_id_lt_irreflexive(a.event_id@);
}

/// Two events compare equal exactly when they agree on power level,
/// timestamp and identifier.
pub proof fn lemma_event_order_equal(a: LeanEvent, b: LeanEvent)
    ensures
        (event_order(a, b) == Ordering::Equal) == (a.power_level == b.power_level
            && a.origin_server_ts == b.origin_server_ts && a.event_id@ == b.event_id@),
{
    lemma_id_lt_irreflexive(a.event_id@);
}

/// The comparison is transitive, both strictly and with ties.
pub proof fn lemma_event_order_transitive(a: LeanEvent, b: LeanEvent, c: LeanEvent)
    ensures
        event_order(a, b) == Ordering::Less && event_order(b, c) == Ordering::Less ==> event_order(
            a,
            c,
        ) == Ordering::Less,
        event_order(a, b) != Ordering::Greater && event_order(b, c) != Ordering::Greater
            ==> event_order(a, c) != Ordering::Greater,
{
    lemma_id_lt_transitive(a.event_id@, b.event_id@, c.event_id@);
    lemma_id_lt_asymmetric(a.event_id@, c.event_id@);
    lemma_id_lt_total(a.event_id@, c.event_id@);
    lemma_id_lt_irreflexive(a.event_id@);
}

/// Swapping the queue entries reverses their comparison, under each version.
pub proof fn lemma_priority_order_antisymmetric(a: LeanEvent, b: LeanEvent, version: StateResVersion)
    ensures
        (priority_order(a, b, version) == Ordering::Less) == (priority_order(b, a, version)
            == Ordering::Greater),
        (priority_order(a, b, version) == Ordering::Equal) == (priority_order(b, a, version)
            == Ordering::Equal),
{
    lemma_precedence_asymmetric(a, b, version);
    lemma_precedence_asymmetric(b, a, version);
}

/// Each queue entry compares equal to itself, and entries with distinct
/// identifiers never compare equal.
pub proof fn lemma_priority_order_equal(a: LeanEvent, b: LeanEvent, version: StateResVersion)
    ensures
        priority_order(a, a, version) == Ordering::Equal,
        a.event_id@ != b.event_id@ ==> priority_order(a, b, version) != Ordering::Equal,
{
    lemma_precedence_irreflexive(a, version);
    lemma_precedence_total(a, b, version);
}

/// Whether `a` is taken before `b` from the sort's queue, by the queue's
/// priority order.
pub fn precedes(a: &LeanEvent, b: &LeanEvent, version: StateResVersion) -> (r: bool)
    ensures
        r == takes_precedence(*a, *b, version),
{
    proof {
        lemma_precedence_asymmetric(*a, *b, version);
    }
    let first = SortPriority { event: a, version };
    let second = SortPriority { event: b, version };
    match first.cmp(&second) {
        Ordering::Greater => true,
        _ => false,
    }
}

/// The comparison of events goes by fields: the higher power level first;
/// at equal power, the earlier timestamp first; at equal power and
/// timestamp, the identifier that comes first lexicographically by code
/// point (at the first position where they differ, whatever their lengths).
/// Depth and parents are not read.
pub proof fn lemma_event_order_by_fields(a: LeanEvent, b: LeanEvent)
    ensures
        a.power_level > b.power_level ==> event_order(a, b) == Ordering::Less,
        a.power_level < b.power_level ==> event_order(a, b) == Ordering::Greater,
        a.power_level == b.power_level && a.origin_server_ts < b.origin_server_ts ==> event_order(a, b)
            == Ordering::Less,
        a.power_level == b.power_level && a.origin_server_ts > b.origin_server_ts ==> event_order(a, b)
            == Ordering::Greater,
        a.power_level == b.power_level && a.origin_server_ts == b.origin_server_ts ==> {
            &&& (event_order(a, b) == Ordering::Less <==> exists|k: int|
                #[trigger] differs_first_at(a.event_id@, b.event_id@, k))
            &&& (event_order(a, b) == Ordering::Greater <==> exists|k: int|
                #[trigger] differs_first_at(b.event_id@, a.event_id@, k))
            &&& (event_order(a, b) == Ordering::Equal <==> a.event_id@ == b.event_id@)
        },
{
    lemma_id_lt_lexicographic(a.event_id@, b.event_id@);
    lemma_id_lt_lexicographic(b.event_id@, a.event_id@);
    lemma_id_lt_asymmetric(a.event_id@, b.event_id@);
    lemma_id_lt_total(a.event_id@, b.event_id@);
    lemma_id_lt_irreflexive(a.event_id@);
}

/// The sort's precedence goes by fields. Under V2 and V2.1: the higher power
/// level first; at equal power, the earlier timestamp first, whatever the
/// depths; at equal power and timestamp, the lexicographically smaller
/// identifier first. Under V1: the smaller depth first, then the
/// lexicographically smaller identifier. The queue's priority order puts
/// first exactly the event that takes precedence.
pub proof fn lemma_precedence_by_fields(a: LeanEvent, b: LeanEvent, version: StateResVersion)
    ensures
        version != StateResVersion::V1 ==> {
            &&& a.power_level > b.power_level ==> takes_precedence(a, b, version)
            &&& a.power_level < b.power_level ==> !takes_precedence(a, b, version)
            &&& a.power_level == b.power_level && a.origin_server_ts < b.origin_server_ts
                ==> takes_precedence(a, b, version)
            &&& a.power_level == b.power_level && a.origin_server_ts > b.origin_server_ts
                ==> !takes_precedence(a, b, version)
            &&& a.power_level == b.power_level && a.origin_server_ts == b.origin_server_ts ==> (
            takes_precedence(a, b, version) <==> exists|k: int|
                #[trigger] differs_first_at(a.event_id@, b.event_id@, k))
        },
        version == StateResVersion::V1 ==> {
            &&& a.depth < b.depth ==> takes_precedence(a, b, version)
            &&& a.depth > b.depth ==> !takes_precedence(a, b, version)
            &&& a.depth == b.depth ==> (takes_precedence(a, b, version) <==> exists|k: int|
                #[trigger] differs_first_at(a.event_id@, b.event_id@, k))
        },
        (priority_order(a, b, version) == Ordering::Greater) == takes_precedence(a, b, version),
        (priority_order(a, b, version) == Ordering::Less) == takes_precedence(b, a, version),
{
    lemma_id_lt_lexicographic(a.event_id@, b.event_id@);
    lemma_precedence_asymmetric(a, b, version);
}

/// Under V2 and V2.1 depth plays no part: two events that differ only in
/// depth (and parents) stand the same against any third event.
pub proof fn lemma_precedence_ignores_depth(
    a: LeanEvent,
    a2: LeanEvent,
    b: LeanEvent,
    version: StateResVersion,
)
    requires
        version != StateResVersion::V1,
        a.event_id@ == a2.event_id@,
        a.power_level == a2.power_level,
        a.origin_server_ts == a2.origin_server_ts,
    ensures
        takes_precedence(a, b, version) == takes_precedence(a2, b, version),
        takes_precedence(b, a, version) == takes_precedence(b, a2, version),
{
    lemma_precedence_by_fields(a, b, version);
    lemma_precedence_by_fields(a2, b, version);
    lemma_precedence_by_fields(b, a, version);
    lemma_precedence_by_fields(b, a2, version);
}

} // verus!
