use ruma_lean::{
    attach_signatures, event_to_coordinate, flatten_dag, parse_fixture_rows, resolution_order, try_parse_fixture_rows,
    resolve_full_spec, resolve_state, select_server_key, servers_missing_keys,
    sorted_events_have_state_key, state_hash, DAGMergeInput,
    DAGMergeOutput, FixtureRow, GuestEvent, SignatureEntry, StateEntry,
};
use sha2::Digest;

fn guest(id: &str, state_key: Option<&str>, ts: u64, prevs: &[&str]) -> GuestEvent {
    GuestEvent {
        event_id: id.to_string(),
        room_id: "!room:example.com".to_string(),
        sender: "@user:example.com".to_string(),
        event_type: "m.room.member".to_string(),
        state_key: state_key.map(|s| s.to_string()),
        origin_server_ts: ts,
        depth: 1,
        content: "{}".to_string(),
        prev_events: prevs.iter().map(|s| s.to_string()).collect(),
        auth_events: vec![],
        public_key: None,
        signature: None,
        verified_on_host: false,
    }
}

fn sha256(data: &[u8]) -> [u8; 32] {
    sha2::Sha256::digest(data).into()
}

#[test]
fn test_fixture_parsing() {
    let room_id = "!test:example.com".to_string();
    let rows: &[FixtureRow] = &[
        ("Alice", 100, 10, 1, &[], "alice"),
        ("Bob", 50, 20, 2, &["0"], "bob"),
    ];

    let events = parse_fixture_rows(&room_id, rows);
    assert_eq!(events.len(), 2);
    assert_eq!(events[0].sender.to_string(), "@Alice:example.com");
    assert_eq!(events[1].prev_events[0].to_string(), "$0:example.com");
}

#[test]
fn fixture_rows_fill_every_field() {
    let room_id = "!test:example.com".to_string();
    let rows: &[FixtureRow] = &[
        ("Alice", 100, 10, 1, &[], "alice"),
        ("Bob", 50, 20, 2, &["0", "7"], "bob"),
    ];
    let events = parse_fixture_rows(&room_id, rows);
    assert_eq!(events[0].event_id, "$0:example.com");
    assert_eq!(events[1].event_id, "$1:example.com");
    assert_eq!(events[1].room_id, "!test:example.com");
    assert_eq!(events[1].event_type, "m.room.member");
    assert_eq!(events[1].state_key.as_deref(), Some("bob"));
    assert_eq!(events[1].origin_server_ts, 20);
    assert_eq!(events[1].depth, 2);
    assert_eq!(events[1].content, "{\"membership\":\"join\"}");
    assert_eq!(events[1].prev_events, vec!["$0:example.com", "$7:example.com"]);
    assert!(events[0].prev_events.is_empty());
    assert!(events[0].auth_events.is_empty());
    assert!(events[0].public_key.is_none() && events[0].signature.is_none());
    assert!(!events[0].verified_on_host);
}

#[test]
fn resolve_full_spec_last_writer_wins() {
    // Power levels are all 0, so the earlier timestamp is taken first:
    // $3 (ts 5), then $1 (ts 10), then its child $2.
    let input = DAGMergeInput {
        room_version: "10".to_string(),
        event_map: vec![
            ("$1".to_string(), guest("$1", Some("alice"), 10, &[])),
            ("$2".to_string(), guest("$2", Some("alice"), 20, &["$1"])),
            ("$3".to_string(), guest("$3", Some("bob"), 5, &[])),
        ],
    };
    let output = resolve_full_spec(input);
    let mut bytes = Vec::new();
    for part in ["m.room.member", "alice", "$2", "m.room.member", "bob", "$3"] {
        bytes.extend_from_slice(part.as_bytes());
    }
    assert_eq!(
        output,
        DAGMergeOutput { resolved_state_hash: sha256(&bytes), event_count: 3 }
    );
}

#[test]
fn resolve_full_spec_child_overrides_earlier_parent_even_if_older_timestamp() {
    // The child has the earlier timestamp but still comes after its parent.
    let input = DAGMergeInput {
        room_version: "10".to_string(),
        event_map: vec![
            ("$p".to_string(), guest("$p", Some("k"), 50, &[])),
            ("$c".to_string(), guest("$c", Some("k"), 1, &["$p"])),
        ],
    };
    let output = resolve_full_spec(input);
    let mut bytes = Vec::new();
    for part in ["m.room.member", "k", "$c"] {
        bytes.extend_from_slice(part.as_bytes());
    }
    assert_eq!(output.resolved_state_hash, sha256(&bytes));
    assert_eq!(output.event_count, 2);
}

#[test]
fn resolve_full_spec_empty_room() {
    let input = DAGMergeInput { room_version: "10".to_string(), event_map: vec![] };
    let output = resolve_full_spec(input);
    assert_eq!(output.resolved_state_hash, sha256(&[]));
    assert_eq!(output.event_count, 0);
}

#[test]
fn resolve_full_spec_cycle_left_out() {
    // Events on a cycle are never taken, so they need no state key.
    let input = DAGMergeInput {
        room_version: "10".to_string(),
        event_map: vec![
            ("$a".to_string(), guest("$a", None, 1, &["$b"])),
            ("$b".to_string(), guest("$b", None, 2, &["$a"])),
            ("$c".to_string(), guest("$c", Some("x"), 3, &[])),
        ],
    };
    let output = resolve_full_spec(input);
    let mut bytes = Vec::new();
    for part in ["m.room.member", "x", "$c"] {
        bytes.extend_from_slice(part.as_bytes());
    }
    assert_eq!(output.resolved_state_hash, sha256(&bytes));
    assert_eq!(output.event_count, 3);
}

#[test]
fn resolve_state_orders_keys_and_skips_unknown_ids() {
    let mut topic = guest("$t", Some(""), 1, &[]);
    topic.event_type = "m.room.topic".to_string();
    let entries = vec![
        ("$b".to_string(), guest("$b", Some("bob"), 1, &[])),
        ("$a".to_string(), guest("$a", Some("alice"), 1, &[])),
        ("$t".to_string(), topic),
        ("$a2".to_string(), guest("$a2", Some("alice"), 1, &[])),
    ];
    let sorted = vec!["$t".to_string(), "$b".to_string(), "$a".to_string(), "$missing".to_string(), "$a2".to_string()];
    let listing = resolve_state(&entries, &sorted);
    assert_eq!(
        listing,
        vec![
            StateEntry { event_type: "m.room.member".into(), state_key: "alice".into(), event_id: "$a2".into() },
            StateEntry { event_type: "m.room.member".into(), state_key: "bob".into(), event_id: "$b".into() },
            StateEntry { event_type: "m.room.topic".into(), state_key: "".into(), event_id: "$t".into() },
        ]
    );
    let mut bytes = Vec::new();
    for part in ["m.room.member", "alice", "$a2", "m.room.member", "bob", "$b", "m.room.topic", "", "$t"] {
        bytes.extend_from_slice(part.as_bytes());
    }
    assert_eq!(state_hash(&listing), sha256(&bytes));
}

fn reference_coordinate(s: &str) -> u32 {
    let h = sha256(s.as_bytes());
    u32::from_be_bytes([h[0], h[1], h[2], h[3]]) & 1023
}

#[test]
fn coordinate_is_low_ten_bits_of_digest_prefix() {
    for id in ["$abc:example.com", "", "0", "$0:example.com", "é"] {
        let c = event_to_coordinate(id);
        assert_eq!(c, reference_coordinate(id));
        assert!(c < 1024);
    }
}

fn reference_walk(mut curr: u32, target: u32, edges: &mut Vec<(u32, u32)>) {
    while curr != target {
        let diff = curr ^ target;
        let next = curr ^ (1 << diff.trailing_zeros());
        edges.push((curr, next));
        curr = next;
    }
}

#[test]
fn flatten_dag_joins_parents_by_bit_paths() {
    let events = vec![guest("$a", None, 1, &[]), guest("$b", None, 2, &["$a"]), guest("$c", None, 3, &[])];
    let edges = flatten_dag(&events);
    let (a, b, c) = (reference_coordinate("$a"), reference_coordinate("$b"), reference_coordinate("$c"));
    let mut expected = Vec::new();
    reference_walk(0, a, &mut expected); // no parents: joined from the previous position (0)
    reference_walk(a, b, &mut expected);
    reference_walk(b, c, &mut expected); // no parents: joined from $b's position
    assert_eq!(edges, expected);
    // each edge flips one bit
    for (x, y) in &edges {
        assert_eq!((x ^ y).count_ones(), 1);
    }
}

#[test]
fn flatten_dag_decimal_parent_is_previous_position() {
    // A parent written as the previous position in decimal starts from that position.
    let first = guest("$a", None, 1, &[]);
    let a = reference_coordinate("$a");
    let text = a.to_string();
    let second = guest("$b", None, 2, &[text.as_str()]);
    let edges = flatten_dag(&vec![first, second]);
    let mut expected = Vec::new();
    reference_walk(0, a, &mut expected);
    reference_walk(a, reference_coordinate("$b"), &mut expected);
    assert_eq!(edges, expected);
}

#[test]
fn flatten_dag_empty() {
    assert!(flatten_dag(&vec![]).is_empty());
}

#[test]
fn select_server_key_takes_first_decodable_ed25519_key() {
    let keys = vec![
        ("curve25519:x".to_string(), Some("AAEC".to_string())),
        ("ed25519:bad".to_string(), Some("not base64!".to_string())),
        ("ed25519:none".to_string(), None),
        ("ed25519:good".to_string(), Some("AAEC/w==".to_string())),
        ("ed25519:later".to_string(), Some("AQ==".to_string())),
    ];
    assert_eq!(select_server_key(&keys), Some("000102ff".to_string()));
    assert_eq!(select_server_key(&keys[..3].to_vec()), None);
    assert_eq!(select_server_key(&vec![]), None);
}

#[test]
fn servers_missing_keys_once_each() {
    let servers = vec!["a.org".to_string(), "b.org".to_string(), "a.org".to_string(), "c.org".to_string()];
    let cache = vec![("b.org".to_string(), "00".to_string())];
    assert_eq!(servers_missing_keys(&servers, &cache), vec!["a.org", "c.org"]);
}

fn hex(bytes: &[u8]) -> String {
    bytes.iter().map(|b| format!("{:02x}", b)).collect()
}

#[test]
fn attach_signatures_verifies_a_good_signature() {
    let signing_key = ed25519_consensus::SigningKey::from([7u8; 32]);
    let verification_key = signing_key.verification_key();
    let mut event = guest("$signed:example.com", Some("k"), 1, &[]);
    let signature: [u8; 64] = signing_key.sign(event.event_id.as_bytes()).into();
    let entries = vec![
        SignatureEntry { server: "other.org".into(), key_id: "curve:1".into(), signature: Some("00".into()) },
        SignatureEntry { server: "example.org".into(), key_id: "ed25519:a".into(), signature: Some(hex(&signature)) },
    ];
    let cache = vec![("example.org".to_string(), hex(verification_key.as_bytes()))];
    attach_signatures(&mut event, &entries, &cache);
    assert_eq!(event.signature.as_deref(), Some(&signature[..]));
    assert_eq!(event.public_key.as_deref(), Some(&verification_key.as_bytes()[..]));
    assert!(event.verified_on_host);
}

#[test]
fn attach_signatures_rejects_a_bad_signature() {
    let signing_key = ed25519_consensus::SigningKey::from([7u8; 32]);
    let verification_key = signing_key.verification_key();
    let mut event = guest("$signed:example.com", Some("k"), 1, &[]);
    let signature: [u8; 64] = signing_key.sign(b"some other message").into();
    let entries = vec![SignatureEntry {
        server: "example.org".into(),
        key_id: "ed25519:a".into(),
        signature: Some(hex(&signature)),
    }];
    let cache = vec![("example.org".to_string(), hex(verification_key.as_bytes()))];
    attach_signatures(&mut event, &entries, &cache);
    assert!(event.signature.is_some() && event.public_key.is_some());
    assert!(!event.verified_on_host);
}

#[test]
fn attach_signatures_ignores_short_or_unknown_entries() {
    let mut event = guest("$e", Some("k"), 1, &[]);
    let entries = vec![
        SignatureEntry { server: "example.org".into(), key_id: "ed25519:a".into(), signature: Some("abcd".into()) },
        SignatureEntry { server: "example.org".into(), key_id: "ed25519:b".into(), signature: None },
        SignatureEntry { server: "example.org".into(), key_id: "ed25519:c".into(), signature: Some("zz".repeat(64)) },
    ];
    attach_signatures(&mut event, &entries, &vec![]);
    assert!(event.signature.is_none() && event.public_key.is_none());
    assert!(!event.verified_on_host);
    // a 64-byte signature without a cached key is kept, but nothing is verified
    let entries = vec![SignatureEntry {
        server: "example.org".into(),
        key_id: "ed25519:a".into(),
        signature: Some("AB".repeat(64)),
    }];
    attach_signatures(&mut event, &entries, &vec![]);
    assert_eq!(event.signature.as_ref().map(|s| s.len()), Some(64));
    assert!(event.public_key.is_none());
    assert!(!event.verified_on_host);
}

#[test]
fn resolution_does_not_depend_on_entry_order() {
    let forward = vec![
        ("$1".to_string(), guest("$1", Some("alice"), 10, &[])),
        ("$2".to_string(), guest("$2", Some("alice"), 20, &["$1"])),
        ("$3".to_string(), guest("$3", Some("bob"), 5, &[])),
        ("$4".to_string(), guest("$4", Some("bob"), 30, &["$3", "$2"])),
    ];
    let mut backward = forward.clone();
    backward.reverse();
    let a = resolve_full_spec(DAGMergeInput { room_version: "10".into(), event_map: forward.clone() });
    let b = resolve_full_spec(DAGMergeInput { room_version: "10".into(), event_map: backward });
    assert_eq!(a, b);
    assert_eq!(
        resolution_order(&forward),
        vec!["$3", "$1", "$2", "$4"]
    );
}

#[test]
fn sorted_events_have_state_key_only_looks_at_sorted_events() {
    let with_cycle = DAGMergeInput {
        room_version: "10".into(),
        event_map: vec![
            ("$a".to_string(), guest("$a", None, 1, &["$b"])),
            ("$b".to_string(), guest("$b", None, 2, &["$a"])),
            ("$c".to_string(), guest("$c", Some("x"), 3, &[])),
        ],
    };
    assert!(sorted_events_have_state_key(&with_cycle));
    let missing = DAGMergeInput {
        room_version: "10".into(),
        event_map: vec![("$a".to_string(), guest("$a", None, 1, &[]))],
    };
    assert!(!sorted_events_have_state_key(&missing));
}

#[test]
fn try_parse_fixture_rows_rejects_invalid_rows() {
    let room_id = "!test:example.com".to_string();
    let good: &[FixtureRow] = &[("Alice", 100, 10, 1, &[], "alice"), ("Bob", 50, 20, 2, &["0"], "bob")];
    let parsed = try_parse_fixture_rows(&room_id, good).unwrap();
    assert_eq!(parsed, parse_fixture_rows(&room_id, good));
    // a sender name with a colon leaves a server name that is not valid
    let bad_sender: &[FixtureRow] = &[("a:b", 0, 10, 1, &[], "k")];
    assert!(try_parse_fixture_rows(&room_id, bad_sender).is_none());
    // a parent that leaves no valid server name
    let bad_parent: &[FixtureRow] = &[("Alice", 0, 10, 1, &["x:"], "k")];
    assert!(try_parse_fixture_rows(&room_id, bad_parent).is_none());
    // a timestamp beyond canonical JSON integers
    let bad_ts: &[FixtureRow] = &[("Alice", 0, 1 << 53, 1, &[], "k")];
    assert!(try_parse_fixture_rows(&room_id, bad_ts).is_none());
    let max_ts: &[FixtureRow] = &[("Alice", 0, (1 << 53) - 1, (1 << 53) - 1, &[], "k")];
    assert!(try_parse_fixture_rows(&room_id, max_ts).is_some());
}

#[test]
fn resolution_ignores_fields_it_does_not_read() {
    let plain = vec![
        ("$1".to_string(), guest("$1", Some("alice"), 10, &[])),
        ("$2".to_string(), guest("$2", Some("alice"), 20, &["$1"])),
        ("$3".to_string(), guest("$3", Some("bob"), 5, &[])),
    ];
    let mut dressed = plain.clone();
    for (_, event) in dressed.iter_mut() {
        event.room_id = "!other:example.org".to_string();
        event.sender = "@someone:example.org".to_string();
        event.content = "{\"membership\":\"leave\"}".to_string();
        event.depth = 99;
        event.auth_events = vec!["$auth".to_string()];
        event.public_key = Some(vec![7; 32]);
        event.signature = Some(vec![9; 64]);
        event.verified_on_host = true;
    }
    let a = resolve_full_spec(DAGMergeInput { room_version: "10".into(), event_map: plain });
    let b = resolve_full_spec(DAGMergeInput { room_version: "11".into(), event_map: dressed });
    assert_eq!(a, b);
    assert_eq!(a.event_count, 3);
}
