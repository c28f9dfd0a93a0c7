//! Building room events from a concise table of rows.
use vstd::prelude::*;
use crate::hypercube::{decimal, decimal_string};
use crate::identifiers::{event_id_is_valid, is_event_id, is_user_id, user_id_is_valid};
use crate::resolve::GuestEvent;

verus! {

/// A row of the fixture table: (sender, power level, timestamp, depth,
/// parents, state key). Parents are given by row number.
pub type FixtureRow<'a> = (&'a str, i64, u64, u64, &'a [&'a str], &'a str);

/// The identifier of the event of a row: `$<name>:example.com`.
pub open spec fn fixture_event_id(name: Seq<char>) -> Seq<char> {
    "$"@ + name + ":example.com"@
}

/// The user of a sender name: `@<name>:example.com`.
pub open spec fn fixture_user_id(name: Seq<char>) -> Seq<char> {
    "@"@ + name + ":example.com"@
}

/// The largest integer that canonical JSON holds (2^53 - 1).
pub open spec fn max_safe_integer() -> int {
    0x1F_FFFF_FFFF_FFFF
}

/// A row can be turned into a room event: its sender and each of its parents
/// form valid Matrix identifiers, and its timestamp and depth fit canonical
/// JSON integers.
pub open spec fn fixture_row_valid(r: FixtureRow) -> bool {
    &&& is_user_id(fixture_user_id(r.0@))
    &&& forall|j: int| 0 <= j < r.4@.len() ==> is_event_id(fixture_event_id((#[trigger] r.4@[j])@))
    &&& r.2 <= max_safe_integer()
    &&& r.3 <= max_safe_integer()
}

/// `events` are the events that `rows` describe, one per row in order.
pub open spec fn fixture_events(room_id: Seq<char>, rows: Seq<FixtureRow>, events: Seq<GuestEvent>) -> bool {
    &&& events.len() == rows.len()
    &&& forall|i: int|
        #![trigger events[i]]
        0 <= i < rows.len() ==> {
            let e = events[i];
            let r = rows[i];
            &&& e.event_id@ == fixture_event_id(decimal(i as nat))
            &&& e.sender@ == fixture_user_id(r.0@)
            &&& e.room_id@ == room_id
            &&& e.event_type@ == "m.room.member"@
            &&& e.state_key matches Some(k) && k@ == r.5@
            &&& e.origin_server_ts == r.2
            &&& e.depth == r.3
            &&& e.content@ == "{\"membership\":\"join\"}"@
            &&& e.prev_events@.len() == r.4@.len()
            &&& forall|j: int|
                0 <= j < r.4@.len() ==> (#[trigger] e.prev_events@[j])@ == fixture_event_id(
                    r.4@[j]@,
                )
            &&& e.auth_events@.len() == 0
            &&& e.public_key is None
            &&& e.signature is None
            &&& !e.verified_on_host
        }
}

/// `first`, `second` and `third`, joined.
fn joined(first: &str, second: &str, third: &str) -> (text: String)
    ensures
        text@ == first@ + second@ + third@,
{
    let mut text = String::from_str(first);
    text.append(second);
    text.append(third);
    text
}

/// The events that the rows describe, one per row in order: the event of row
/// `i` has identifier `$i:example.com`, is sent by `@<sender>:example.com`
/// in `room_id`, is an `m.room.member` join with the row's state key,
/// timestamp and depth, names the events of its parent rows as its
/// `prev_events`, and carries no key or signature. Each row must be valid:
/// its sender and parents form Matrix identifiers, and its timestamp and
/// depth fit canonical JSON integers.
pub fn parse_fixture_rows(room_id: &String, rows: &[FixtureRow]) -> (events: Vec<GuestEvent>)
    requires
        rows@.len() <= u64::MAX,
        forall|i: int| 0 <= i < rows@.len() ==> fixture_row_valid(#[trigger] rows@[i]),
    ensures
        fixture_events(room_id@, rows@, events@),
{
    let mut events: Vec<GuestEvent> = Vec::new();
    for i in 0..rows.len()
        invariant
            rows@.len() <= u64::MAX,
            events@.len() == i,
            forall|t: int|
                #![trigger events@[t]]
                0 <= t < i ==> {
                    let e = events@[t];
                    let r = rows@[t];
                    &&& e.event_id@ == fixture_event_id(decimal(t as nat))
                    &&& e.sender@ == fixture_user_id(r.0@)
                    &&& e.room_id@ == room_id@
                    &&& e.event_type@ == "m.room.member"@
                    &&& e.state_key matches Some(k) && k@ == r.5@
                    &&& e.origin_server_ts == r.2
                    &&& e.depth == r.3
                    &&& e.content@ == "{\"membership\":\"join\"}"@
                    &&& e.prev_events@.len() == r.4@.len()
                    &&& forall|j: int|
                        0 <= j < r.4@.len() ==> (#[trigger] e.prev_events@[j])@ == fixture_event_id(
                            r.4@[j]@,
                        )
                    &&& e.auth_events@.len() == 0
                    &&& e.public_key is None
                    &&& e.signature is None
                    &&& !e.verified_on_host
                },
    {
        let (sender_name, _power_level, ts, depth, parents, state_key) = rows[i];
        let number = decimal_string(i as u64);
        let event_id = joined("$", number.as_str(), ":example.com");
        let sender = joined("@", sender_name, ":example.com");
        let mut prev_events: Vec<String> = Vec::new();
        for j in 0..parents.len()
            invariant
                prev_events@.len() == j,
                forall|u: int| 0 <= u < j ==> (#[trigger] prev_events@[u])@ == fixture_event_id(parents@[u]@),
        {
            prev_events.push(joined("$", parents[j], ":example.com"));
        }
        events.push(GuestEvent {
            event_id,
            room_id: room_id.clone(),
            sender,
            event_type: String::from_str("m.room.member"),
            state_key: Some(String::from_str(state_key)),
            origin_server_ts: ts,
            depth,
            content: String::from_str("{\"membership\":\"join\"}"),
            prev_events,
            auth_events: Vec::new(),
            public_key: None,
            signature: None,
            verified_on_host: false,
        });
    }
    events
}

/// Whether a row can be turned into a room event.
fn row_is_valid(row: FixtureRow) -> (valid: bool)
    ensures
        valid == fixture_row_valid(row),
{
    let (sender_name, _power_level, ts, depth, parents, _state_key) = row;
    if ts > 0x1F_FFFF_FFFF_FFFF || depth > 0x1F_FFFF_FFFF_FFFF {
        return false;
    }
    let sender = joined("@", sender_name, ":example.com");
    if !user_id_is_valid(sender.as_str()) {
        return false;
    }
    for j in 0..parents.len()
        invariant
            parents == row.4,
            is_user_id(fixture_user_id(row.0@)),
            row.2 <= max_safe_integer(),
            row.3 <= max_safe_integer(),
            forall|u: int| 0 <= u < j ==> is_event_id(fixture_event_id((#[trigger] parents@[u])@)),
    {
        let parent = joined("$", parents[j], ":example.com");
        if !event_id_is_valid(parent.as_str()) {
            return false;
        }
    }
    true
}

/// The events that the rows describe, as `parse_fixture_rows` builds them, or
/// `None` when some row's sender or parents do not form valid Matrix
/// identifiers or its timestamp or depth does not fit canonical JSON.
pub fn try_parse_fixture_rows(room_id: &String, rows: &[FixtureRow]) -> (events: Option<Vec<GuestEvent>>)
    requires
        rows@.len() <= u64::MAX,
    ensures
        match events {
            Some(v) => fixture_events(room_id@, rows@, v@),
            None => exists|i: int| 0 <= i < rows@.len() && !fixture_row_valid(#[trigger] rows@[i]),
        },
        events is Some <==> forall|i: int| 0 <= i < rows@.len() ==> fixture_row_valid(#[trigger] rows@[i]),
{
    for i in 0..rows.len()
        invariant
            forall|t: int| 0 <= t < i ==> fixture_row_valid(#[trigger] rows@[t]),
    {
        if !row_is_valid(rows[i]) {
            return None;
        }
    }
    Some(parse_fixture_rows(room_id, rows))
}

} // verus!
