# ruma_lean

Matrix state resolution over a DAG of events, verified with Verus.

- `src/` is the verified library:
  - `ids`, `event`: event identifiers, events, the state resolution versions and
    their tie-breaking orders;
  - `collections`: the `hashbrown` maps the sort reads and fills;
  - `graph`, `kahn`, `laws`: what a greedy topological order is, Kahn's sort that
    yields it, and its properties (unique, topological, complete without cycles,
    never listing an event on a cycle);
  - `state`, `resolve`, `digest`: last-writer-wins state in key order, its
    SHA-256 fingerprint, and full resolution of a room;
  - `hypercube`: event positions and the flattened DAG of bit-flip paths;
  - `signatures`: server keys and Ed25519 signatures of events;
  - `fixtures`: events from a concise table of rows.
- `app/` is the command-line host: file and network I/O, JSON and Matrix types,
  serialization, and the calls into the library.
- `tests/` exercises the library.
