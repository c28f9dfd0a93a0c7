//! Matrix state resolution over a DAG of events: Kahn's topological sort
//! with the tie-breaking rules of the state resolution versions.
use vstd::prelude::*;

pub mod ids;
pub mod event;
pub mod collections;
pub mod graph;
pub mod kahn;
pub mod laws;
pub mod digest;
pub mod state;
pub mod resolve;
pub mod hypercube;
pub mod signatures;
pub mod fixtures;
pub mod identifiers;

pub use collections::EventMap;
pub use event::{LeanEvent, SortPriority, StateResVersion};
pub use fixtures::{FixtureRow, parse_fixture_rows, try_parse_fixture_rows};
pub use hypercube::{event_to_coordinate, flatten_dag};
pub use kahn::{keys_match_event_ids, lean_kahn_sort, resolve_lean};
pub use resolve::{
    DAGMergeInput, DAGMergeOutput, GuestEvent, resolution_order, resolve_full_spec, resolve_state,
    sorted_events_have_state_key, state_hash,
};
pub use signatures::{SignatureEntry, attach_signatures, select_server_key, servers_missing_keys};
pub use state::StateEntry;

verus! {
} // verus!
