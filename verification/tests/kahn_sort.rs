use ruma_lean::{
    keys_match_event_ids, lean_kahn_sort, resolve_lean, EventMap, LeanEvent, SortPriority, StateResVersion,
};
use std::cmp::Ordering;
use std::collections::BTreeMap;

fn event(id: &str, power_level: i64, origin_server_ts: u64, prev_events: &[&str], depth: u64) -> LeanEvent {
    LeanEvent {
        event_id: id.into(),
        power_level,
        origin_server_ts,
        prev_events: prev_events.iter().map(|s| s.to_string()).collect(),
        depth,
    }
}

#[test]
fn test_v1_resolution_happy_path() {
    let mut events = EventMap::new();
    // V1 tie-breaks by depth then ID
    events.insert(
        "A".into(),
        LeanEvent {
            event_id: "A".into(),
            power_level: 0,
            origin_server_ts: 100,
            prev_events: vec![],
            depth: 1,
        },
    );
    events.insert(
        "B".into(),
        LeanEvent {
            event_id: "B".into(),
            power_level: 0,
            origin_server_ts: 50,
            prev_events: vec![],
            depth: 2,
        },
    );

    let sorted = lean_kahn_sort(&events, StateResVersion::V1);
    // Smaller depth comes first
    assert_eq!(sorted, vec!["A", "B"]);
}

#[test]
fn test_v1_tie_break_by_id() {
    let mut events = EventMap::new();
    events.insert(
        "B".into(),
        LeanEvent {
            event_id: "B".into(),
            power_level: 0,
            origin_server_ts: 100,
            prev_events: vec![],
            depth: 1,
        },
    );
    events.insert(
        "A".into(),
        LeanEvent {
            event_id: "A".into(),
            power_level: 0,
            origin_server_ts: 100,
            prev_events: vec![],
            depth: 1,
        },
    );

    let sorted = lean_kahn_sort(&events, StateResVersion::V1);
    // Same depth, tie-break by ID (lexicographical)
    assert_eq!(sorted, vec!["A", "B"]);
}

#[test]
fn test_v2_resolution_happy_path() {
    let mut events = EventMap::new();
    // V2 tie-breaks by Power Level -> TS -> ID
    events.insert(
        "A".into(),
        LeanEvent {
            event_id: "A".into(),
            power_level: 100,
            origin_server_ts: 100,
            prev_events: vec![],
            depth: 10,
        },
    );
    events.insert(
        "B".into(),
        LeanEvent {
            event_id: "B".into(),
            power_level: 50,
            origin_server_ts: 10,
            prev_events: vec![],
            depth: 1,
        },
    );

    let sorted = lean_kahn_sort(&events, StateResVersion::V2);
    // Higher power level (A) wins even though B is earlier and shallower
    assert_eq!(sorted, vec!["A", "B"]);
}

#[test]
fn test_v2_unhappy_path_cycle_detection() {
    let mut events = EventMap::new();
    // Cyclic dependency: A -> B -> A
    events.insert(
        "A".into(),
        LeanEvent {
            event_id: "A".into(),
            power_level: 100,
            origin_server_ts: 100,
            prev_events: vec!["B".into()],
            depth: 1,
        },
    );
    events.insert(
        "B".into(),
        LeanEvent {
            event_id: "B".into(),
            power_level: 100,
            origin_server_ts: 100,
            prev_events: vec!["A".into()],
            depth: 1,
        },
    );

    let sorted = lean_kahn_sort(&events, StateResVersion::V2);
    // Kahn's sort returns incomplete list if there is a cycle
    assert!(sorted.is_empty());
}

#[test]
fn test_v2_1_linearization() {
    // V2.1 uses same tie-breaking as V2 for sort
    let mut events = EventMap::new();
    events.insert(
        "A".into(),
        LeanEvent {
            event_id: "A".into(),
            power_level: 100,
            origin_server_ts: 100,
            prev_events: vec![],
            depth: 1,
        },
    );
    events.insert(
        "B".into(),
        LeanEvent {
            event_id: "B".into(),
            power_level: 100,
            origin_server_ts: 50,
            prev_events: vec![],
            depth: 1,
        },
    );

    let sorted = lean_kahn_sort(&events, StateResVersion::V2_1);
    // Same power, earlier TS (B) wins
    assert_eq!(sorted, vec!["B", "A"]);
}

#[test]
fn test_compare_v1_vs_v2() {
    let mut events = EventMap::new();
    // Event A: Higher power, deeper
    events.insert(
        "A".into(),
        LeanEvent {
            event_id: "A".into(),
            power_level: 100,
            origin_server_ts: 100,
            prev_events: vec![],
            depth: 10,
        },
    );
    // Event B: Lower power, shallower
    events.insert(
        "B".into(),
        LeanEvent {
            event_id: "B".into(),
            power_level: 50,
            origin_server_ts: 100,
            prev_events: vec![],
            depth: 1,
        },
    );

    let sorted_v1 = lean_kahn_sort(&events, StateResVersion::V1);
    let sorted_v2 = lean_kahn_sort(&events, StateResVersion::V2);

    // V1 prioritizes depth
    assert_eq!(sorted_v1, vec!["B", "A"]);
    // V2 prioritizes power level
    assert_eq!(sorted_v2, vec!["A", "B"]);
}

#[test]
fn test_v1_v2_v2_1_comparison_determinism() {
    let mut events = EventMap::new();
    events.insert(
        "A".into(),
        LeanEvent {
            event_id: "A".into(),
            power_level: 10,
            origin_server_ts: 10,
            prev_events: vec![],
            depth: 1,
        },
    );
    events.insert(
        "B".into(),
        LeanEvent {
            event_id: "B".into(),
            power_level: 100,
            origin_server_ts: 100,
            prev_events: vec![],
            depth: 10,
        },
    );

    let sorted_v1 = lean_kahn_sort(&events, StateResVersion::V1);
    let sorted_v2 = lean_kahn_sort(&events, StateResVersion::V2);
    let sorted_v2_1 = lean_kahn_sort(&events, StateResVersion::V2_1);

    assert_eq!(sorted_v1, vec!["A", "B"]); // V1: Depth wins
    assert_eq!(sorted_v2, vec!["B", "A"]); // V2: Power wins
    assert_eq!(sorted_v2_1, vec!["B", "A"]); // V2.1: Power wins
}

/// Rows are (ID, Power, TS, Depth, Parents).
fn run_batch_test(
    version: StateResVersion,
    rows: &[(&str, i64, u64, u64, &[&str])],
    expected: &[&str],
) {
    let mut events = EventMap::new();
    for r in rows {
        events.insert(
            r.0.to_string(),
            LeanEvent {
                event_id: r.0.to_string(),
                power_level: r.1,
                origin_server_ts: r.2,
                depth: r.3,
                prev_events: r.4.iter().map(|s| s.to_string()).collect(),
            },
        );
    }
    let result = lean_kahn_sort(&events, version);
    assert_eq!(
        result,
        expected.iter().map(|s| s.to_string()).collect::<Vec<_>>()
    );
}

#[test]
fn test_resolution_batch() {
    // Standard tie-break (Power wins over TS)
    run_batch_test(
        StateResVersion::V2,
        &[("Alice", 100, 500, 1, &[]), ("Bob", 50, 100, 1, &[])],
        &["Alice", "Bob"],
    );

    // Deep DAG
    run_batch_test(
        StateResVersion::V2,
        &[("Root", 100, 10, 1, &[]), ("Child", 50, 20, 2, &["Root"])],
        &["Root", "Child"],
    );

    // V1 Depth priority
    run_batch_test(
        StateResVersion::V1,
        &[("Deep", 100, 100, 10, &[]), ("Shallow", 10, 100, 1, &[])],
        &["Shallow", "Deep"],
    );
}

#[test]
fn test_native_resolution_bootstrap_parity() {
    let mut events = EventMap::new();

    // Root Event: Create Room
    events.insert(
        "1".into(),
        LeanEvent {
            event_id: "1".into(),
            power_level: 100,
            origin_server_ts: 10,
            prev_events: vec![],
            depth: 1,
        },
    );
    // Event 2: Join User
    events.insert(
        "2".into(),
        LeanEvent {
            event_id: "2".into(),
            power_level: 0,
            origin_server_ts: 20,
            prev_events: vec!["1".into()],
            depth: 2,
        },
    );

    let sorted = lean_kahn_sort(&events, StateResVersion::V2);

    let mut resolved_state = BTreeMap::new();
    for id in sorted {
        let ev = events.get(&id).unwrap();
        // Deterministic state key mapping
        let key = ("m.room.member".to_string(), "@user:example.com".to_string());
        resolved_state.insert(key, ev.event_id.clone());
    }

    // The last event ("2") is the final state for that key
    assert_eq!(
        resolved_state.get(&("m.room.member".to_string(), "@user:example.com".to_string())),
        Some(&"2".to_string())
    );
}

#[test]
fn test_kahn_missing_parents() {
    let mut events = EventMap::new();
    events.insert(
        "A".into(),
        LeanEvent {
            event_id: "A".into(),
            power_level: 100,
            origin_server_ts: 10,
            prev_events: vec!["MISSING".into()], // Parent exists in DAG but not in this conflict set
            depth: 1,
        },
    );
    let sorted = lean_kahn_sort(&events, StateResVersion::V2);
    assert_eq!(sorted, vec!["A"]);
}

#[test]
fn test_kahn_disconnected_graph() {
    let mut events = EventMap::new();
    events.insert(
        "A".into(),
        LeanEvent {
            event_id: "A".into(),
            power_level: 100,
            origin_server_ts: 10,
            prev_events: vec![],
            depth: 1,
        },
    );
    events.insert(
        "B".into(),
        LeanEvent {
            event_id: "B".into(),
            power_level: 100,
            origin_server_ts: 10,
            prev_events: vec![],
            depth: 1,
        },
    );
    let sorted = lean_kahn_sort(&events, StateResVersion::V2);
    // Both roots, sorted by ID
    assert_eq!(sorted, vec!["A", "B"]);
}

#[test]
fn test_partial_ord_implementations() {
    let e1 = LeanEvent {
        event_id: "a".into(),
        power_level: 100,
        origin_server_ts: 10,
        prev_events: vec![],
        depth: 1,
    };
    let e2 = LeanEvent {
        event_id: "b".into(),
        power_level: 100,
        origin_server_ts: 10,
        prev_events: vec![],
        depth: 1,
    };

    assert!(e1.partial_cmp(&e2).is_some());
    assert!(e1 < e2);

    let p1 = SortPriority {
        event: &e1,
        version: StateResVersion::V2,
    };
    let p2 = SortPriority {
        event: &e2,
        version: StateResVersion::V2,
    };
    assert!(p1.partial_cmp(&p2).is_some());
}

#[test]
fn test_v2_deep_tie_break() {
    let mut events = EventMap::new();
    events.insert(
        "B".into(),
        LeanEvent {
            event_id: "B".into(),
            power_level: 100,
            origin_server_ts: 10,
            prev_events: vec![],
            depth: 1,
        },
    );
    events.insert(
        "A".into(),
        LeanEvent {
            event_id: "A".into(),
            power_level: 100,
            origin_server_ts: 10,
            prev_events: vec![],
            depth: 1,
        },
    );

    let sorted = lean_kahn_sort(&events, StateResVersion::V2);
    assert_eq!(sorted, vec!["A", "B"]);
}

#[test]
fn test_v1_equal_depth_tie_break() {
    let mut events = EventMap::new();
    events.insert(
        "B".into(),
        LeanEvent {
            event_id: "B".into(),
            power_level: 0,
            origin_server_ts: 10,
            prev_events: vec![],
            depth: 1,
        },
    );
    events.insert(
        "A".into(),
        LeanEvent {
            event_id: "A".into(),
            power_level: 0,
            origin_server_ts: 10,
            prev_events: vec![],
            depth: 1,
        },
    );

    let sorted = lean_kahn_sort(&events, StateResVersion::V1);
    assert_eq!(sorted, vec!["A", "B"]);
}

#[test]
fn test_kahn_no_neighbors() {
    let mut events = EventMap::new();
    events.insert(
        "1".into(),
        LeanEvent {
            event_id: "1".into(),
            power_level: 100,
            origin_server_ts: 10,
            prev_events: vec![],
            depth: 1,
        },
    );
    let sorted = lean_kahn_sort(&events, StateResVersion::V2);
    assert_eq!(sorted, vec!["1"]);
}

#[test]
fn test_v2_1_full_coverage() {
    let mut events = EventMap::new();
    events.insert(
        "A".into(),
        LeanEvent {
            event_id: "A".into(),
            power_level: 100,
            origin_server_ts: 10,
            prev_events: vec![],
            depth: 1,
        },
    );
    let sorted = lean_kahn_sort(&events, StateResVersion::V2_1);
    assert_eq!(sorted, vec!["A"]);
}

#[test]
fn test_total_order_properties() {
    let e1 = LeanEvent {
        event_id: "a".into(),
        power_level: 100,
        origin_server_ts: 10,
        prev_events: vec![],
        depth: 1,
    };
    let e2 = LeanEvent {
        event_id: "b".into(),
        power_level: 100,
        origin_server_ts: 10,
        prev_events: vec![],
        depth: 1,
    };
    let e3 = LeanEvent {
        event_id: "c".into(),
        power_level: 50,
        origin_server_ts: 10,
        prev_events: vec![],
        depth: 1,
    };

    // Reflexivity
    assert_eq!(e1.cmp(&e1), Ordering::Equal);
    assert!(e1 <= e1);

    // Totality
    assert!(e1 <= e2 || e2 <= e1);

    // Transitivity
    if e1 <= e2 && e2 <= e3 {
        assert!(e1 <= e3);
    }

    // Antisymmetry
    let e1_copy = e1.clone();
    if e1 <= e1_copy && e1_copy <= e1 {
        assert_eq!(e1, e1_copy);
    }
}

#[test]
fn test_sort_priority_equality() {
    let e1 = LeanEvent {
        event_id: "a".into(),
        power_level: 100,
        origin_server_ts: 10,
        prev_events: vec![],
        depth: 1,
    };
    let p1 = SortPriority {
        event: &e1,
        version: StateResVersion::V2,
    };
    let p1_other = SortPriority {
        event: &e1,
        version: StateResVersion::V2,
    };
    assert_eq!(p1.cmp(&p1_other), Ordering::Equal);
    assert_eq!(p1, p1_other);
}

#[test]
fn test_resolve_lean_functionality() {
    let mut unconflicted = BTreeMap::new();
    unconflicted.insert(("type".into(), "key".into()), "id".into());

    let conflicted = EventMap::new();
    let resolved = resolve_lean(unconflicted.clone(), conflicted, StateResVersion::V2);
    assert_eq!(resolved, unconflicted);
}

// Further cases of the sort.

#[test]
fn kahn_parent_before_child_despite_priority() {
    // The child has the higher power level but must wait for its parent.
    let mut events = EventMap::new();
    events.insert("P".into(), event("P", 0, 100, &[], 1));
    events.insert("C".into(), event("C", 100, 1, &["P"], 2));
    events.insert("Q".into(), event("Q", 50, 50, &[], 1));
    // Q (power 50) beats P (power 0); then C (power 100) becomes ready after P.
    assert_eq!(lean_kahn_sort(&events, StateResVersion::V2), vec!["Q", "P", "C"]);
}

#[test]
fn kahn_released_child_competes_with_queue() {
    // Once P is taken, C is ready and outranks R, which was ready all along.
    let mut events = EventMap::new();
    events.insert("P".into(), event("P", 100, 1, &[], 1));
    events.insert("C".into(), event("C", 90, 2, &["P"], 2));
    events.insert("R".into(), event("R", 10, 3, &[], 1));
    assert_eq!(lean_kahn_sort(&events, StateResVersion::V2), vec!["P", "C", "R"]);
}

#[test]
fn kahn_duplicate_parent_entries() {
    // A parent named twice is waited for once.
    let mut events = EventMap::new();
    events.insert("P".into(), event("P", 0, 1, &[], 1));
    events.insert("C".into(), event("C", 0, 2, &["P", "P"], 2));
    assert_eq!(lean_kahn_sort(&events, StateResVersion::V2), vec!["P", "C"]);
}

#[test]
fn kahn_self_parent_left_out() {
    // An event naming itself as parent never becomes ready, nor do its descendants.
    let mut events = EventMap::new();
    events.insert("S".into(), event("S", 0, 1, &["S"], 1));
    events.insert("T".into(), event("T", 0, 2, &["S"], 2));
    events.insert("U".into(), event("U", 0, 3, &[], 1));
    assert_eq!(lean_kahn_sort(&events, StateResVersion::V2), vec!["U"]);
}

#[test]
fn kahn_cycle_blocks_only_its_descendants() {
    let mut events = EventMap::new();
    events.insert("A".into(), event("A", 0, 1, &["B"], 1));
    events.insert("B".into(), event("B", 0, 2, &["A"], 1));
    events.insert("C".into(), event("C", 0, 3, &["A"], 2));
    events.insert("D".into(), event("D", 0, 4, &[], 1));
    events.insert("E".into(), event("E", 0, 5, &["D"], 2));
    assert_eq!(lean_kahn_sort(&events, StateResVersion::V2), vec!["D", "E"]);
}

#[test]
fn kahn_empty_map() {
    let events = EventMap::new();
    assert!(lean_kahn_sort(&events, StateResVersion::V1).is_empty());
}

#[test]
fn kahn_v1_ignores_power_and_timestamp() {
    let mut events = EventMap::new();
    events.insert("X".into(), event("X", 100, 1, &[], 3));
    events.insert("Y".into(), event("Y", 0, 99, &[], 2));
    assert_eq!(lean_kahn_sort(&events, StateResVersion::V1), vec!["Y", "X"]);
}

#[test]
fn kahn_identifier_order_is_by_code_point() {
    // "B" (0x42) sorts before "a" (0x61); a prefix sorts first.
    let mut events = EventMap::new();
    events.insert("a".into(), event("a", 0, 1, &[], 1));
    events.insert("B".into(), event("B", 0, 1, &[], 1));
    events.insert("ab".into(), event("ab", 0, 1, &[], 1));
    assert_eq!(lean_kahn_sort(&events, StateResVersion::V2), vec!["B", "a", "ab"]);
}

#[test]
fn lean_event_cmp_follows_v2_rules() {
    let high = event("z", 100, 50, &[], 9);
    let low = event("a", 10, 1, &[], 1);
    assert_eq!(high.cmp(&low), Ordering::Less);
    assert_eq!(low.cmp(&high), Ordering::Greater);
    let early = event("z", 10, 1, &[], 1);
    let late = event("a", 10, 2, &[], 1);
    assert_eq!(early.cmp(&late), Ordering::Less);
    let x = event("a", 10, 1, &[], 1);
    let y = event("b", 10, 1, &[], 7);
    assert_eq!(x.cmp(&y), Ordering::Less);
    assert_eq!(y.partial_cmp(&x), Some(Ordering::Greater));
}

#[test]
fn sort_priority_cmp_by_version() {
    let shallow = event("b", 0, 9, &[], 1);
    let deep = event("a", 100, 1, &[], 5);
    let p_shallow = SortPriority { event: &shallow, version: StateResVersion::V1 };
    let p_deep = SortPriority { event: &deep, version: StateResVersion::V1 };
    // V1: the shallower event is taken first, so it is the greater priority.
    assert_eq!(p_shallow.cmp(&p_deep), Ordering::Greater);
    let q_shallow = SortPriority { event: &shallow, version: StateResVersion::V2 };
    let q_deep = SortPriority { event: &deep, version: StateResVersion::V2 };
    // V2: the higher power level is taken first.
    assert_eq!(q_deep.cmp(&q_shallow), Ordering::Greater);
    assert_eq!(q_shallow.cmp(&q_deep), Ordering::Less);
}

#[test]
fn event_map_insert_get_contains() {
    let mut events = EventMap::new();
    assert!(events.insert("A".into(), event("A", 1, 1, &[], 1)).is_none());
    let previous = events.insert("A".into(), event("A", 2, 1, &[], 1));
    assert_eq!(previous.map(|e| e.power_level), Some(1));
    assert!(events.contains_key(&"A".to_string()));
    assert!(!events.contains_key(&"B".to_string()));
    assert_eq!(events.get(&"A".to_string()).map(|e| e.power_level), Some(2));
}

#[test]
fn kahn_order_does_not_depend_on_insertion_order() {
    let rows = [
        ("A", 5, 3, &[][..], 1),
        ("B", 5, 1, &["A"][..], 2),
        ("C", 9, 9, &[][..], 1),
        ("D", 1, 1, &["B", "C"][..], 3),
        ("E", 5, 3, &[][..], 1),
    ];
    let mut forward = EventMap::new();
    for (id, power, ts, prevs, depth) in rows.iter() {
        forward.insert(id.to_string(), event(id, *power, *ts, prevs, *depth));
    }
    let mut backward = EventMap::new();
    for (id, power, ts, prevs, depth) in rows.iter().rev() {
        backward.insert(id.to_string(), event(id, *power, *ts, prevs, *depth));
    }
    for version in [StateResVersion::V1, StateResVersion::V2, StateResVersion::V2_1] {
        assert_eq!(lean_kahn_sort(&forward, version), lean_kahn_sort(&backward, version));
    }
    assert_eq!(lean_kahn_sort(&forward, StateResVersion::V2), vec!["C", "A", "B", "E", "D"]);
    assert_eq!(lean_kahn_sort(&forward, StateResVersion::V1), vec!["A", "C", "E", "B", "D"]);
}

#[test]
fn kahn_order_complete_and_topological_on_a_dag() {
    let mut events = EventMap::new();
    events.insert("R".into(), event("R", 0, 1, &[], 1));
    events.insert("X".into(), event("X", 50, 2, &["R"], 2));
    events.insert("Y".into(), event("Y", 90, 3, &["R"], 2));
    events.insert("Z".into(), event("Z", 99, 4, &["X", "Y"], 3));
    let sorted = lean_kahn_sort(&events, StateResVersion::V2);
    assert_eq!(sorted, vec!["R", "Y", "X", "Z"]);
    for (i, id) in sorted.iter().enumerate() {
        for parent in &events.get(id).unwrap().prev_events {
            let j = sorted.iter().position(|s| s == parent).unwrap();
            assert!(j < i);
        }
    }
}

#[test]
fn keys_match_event_ids_checks_every_entry() {
    let mut events = EventMap::new();
    events.insert("A".into(), event("A", 0, 1, &[], 1));
    assert!(keys_match_event_ids(&events));
    events.insert("B".into(), event("not-B", 0, 1, &[], 1));
    assert!(!keys_match_event_ids(&events));
    assert!(keys_match_event_ids(&EventMap::new()));
}
