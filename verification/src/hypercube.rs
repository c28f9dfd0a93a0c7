//! Placing events on a 10-dimensional hypercube and flattening the DAG into
//! hypercube edges: each parent is joined to its child by a path that flips,
//! one at a time from the lowest, the bits in which their positions differ.
use vstd::prelude::*;
use vstd::std_specs::bits::{axiom_u32_trailing_zeros, u32_trailing_zeros};
use vstd::utf8::encode_utf8;
use crate::digest::{sha256, sha256_digest};
use crate::ids::{id_equal, id_seq};
use crate::resolve::GuestEvent;

verus! {

/// The number of dimensions of the hypercube.
pub const DIMS: u32 = 10;

/// The first four bytes of `d`, read as a big-endian number.
pub open spec fn be_prefix(d: Seq<u8>) -> int {
    d[0] * 0x100_0000 + d[1] * 0x1_0000 + d[2] * 0x100 + d[3]
}

/// The position of an event: the low `DIMS` bits of the first four bytes of
/// the SHA-256 digest of its identifier, read big-endian.
pub open spec fn coordinate(id: Seq<char>) -> u32 {
    (be_prefix(sha256_digest(encode_utf8(id))) % 1024) as u32
}

/// The position of the event with identifier `id`.
pub fn event_to_coordinate(id: &str) -> (coord: u32)
    ensures
        coord == coordinate(id@),
{
    let digest = sha256(id.as_bytes());
    let b0 = digest[0] as u32;
    let b1 = digest[1] as u32;
    let b2 = digest[2] as u32;
    let b3 = digest[3] as u32;
    let value = (b0 << 24) | (b1 << 16) | (b2 << 8) | b3;
    proof {
        assert((1u32 << 10u32) == 1024u32) by (bit_vector);
    }
    let coord = value & ((1u32 << DIMS) - 1);
    proof {
        assert(((b0 << 24) | (b1 << 16) | (b2 << 8) | b3) & 1023u32 == (b0
            * 0x100_0000 + b1 * 0x1_0000 + b2 * 0x100 + b3) % 1024) by (bit_vector)
            requires
                b0 < 256,
                b1 < 256,
                b2 < 256,
                b3 < 256,
        ;
    }
    coord
}

/// One step from `from` towards `to` flips the lowest bit in which they differ.
pub open spec fn step_towards(from: u32, to: u32) -> u32 {
    from ^ (1u32 << u32_trailing_zeros(from ^ to))
}

pub proof fn lemma_step_closer(from: u32, to: u32)
    requires
        from != to,
    ensures
        step_towards(from, to) ^ to < from ^ to,
        u32_trailing_zeros(from ^ to) < 32,
{
    let x = from ^ to;
    assert(from != to ==> x != 0) by (bit_vector)
        requires
            x == from ^ to,
    ;
    axiom_u32_trailing_zeros(x);
    let b = u32_trailing_zeros(x);
    assert((x ^ (1u32 << b)) < x) by (bit_vector)
        requires
            b < 32,
            (x >> b) & 1u32 == 1u32,
    ;
    assert((from ^ (1u32 << b)) ^ to == x ^ (1u32 << b)) by (bit_vector)
        requires
            x == from ^ to,
    ;
}

/// The edges of the path from `from` to `to`, one per flipped bit.
pub open spec fn bit_path(from: u32, to: u32) -> Seq<(u32, u32)>
    decreases from ^ to,
{
    if from == to {
        Seq::empty()
    } else {
        proof {
            lemma_step_closer(from, to);
        }
        seq![(from, step_towards(from, to))] + bit_path(step_towards(from, to), to)
    }
}

/// The path from `from` to `to` starts at `from`, ends at `to`, joins its
/// edges end to start, and each edge flips one bit, the lowest in which its
/// start differs from `to`.
pub proof fn lemma_bit_path_walks(from: u32, to: u32)
    ensures
        (bit_path(from, to).len() == 0) == (from == to),
        bit_path(from, to).len() > 0 ==> bit_path(from, to)[0].0 == from && bit_path(
            from,
            to,
        ).last().1 == to,
        forall|i: int|
            0 <= i < bit_path(from, to).len() ==> {
                let e = #[trigger] bit_path(from, to)[i];
                &&& e.0 != to
                &&& u32_trailing_zeros(e.0 ^ to) < 32
                &&& e.1 == e.0 ^ (1u32 << u32_trailing_zeros(e.0 ^ to))
            },
        forall|i: int|
            0 <= i < bit_path(from, to).len() - 1 ==> (#[trigger] bit_path(from, to)[i]).1
                == bit_path(from, to)[i + 1].0,
    decreases from ^ to,
{
    if from != to {
        lemma_step_closer(from, to);
        let next = step_towards(from, to);
        lemma_bit_path_walks(next, to);
        let rest = bit_path(next, to);
        let path = bit_path(from, to);
        assert(path == seq![(from, next)] + rest);
        assert forall|i: int| 0 <= i < path.len() implies {
            let e = #[trigger] path[i];
            &&& e.0 != to
            &&& u32_trailing_zeros(e.0 ^ to) < 32
            &&& e.1 == e.0 ^ (1u32 << u32_trailing_zeros(e.0 ^ to))
        } by {
            if i > 0 {
                assert(path[i] == rest[i - 1]);
            }
        }
        assert forall|i: int| 0 <= i < path.len() - 1 implies (#[trigger] path[i]).1 == path[i + 1].0 by {
            assert(path[i + 1] == rest[i]);
            if i > 0 {
                assert(path[i] == rest[i - 1]);
            }
        }
        if rest.len() > 0 {
            assert(path.last() == rest.last());
        } else {
            assert(next == to);
        }
    }
}

/// Appends the path from `from` to `to`.
pub fn push_bit_path(edges: &mut Vec<(u32, u32)>, from: u32, to: u32)
    ensures
        final(edges)@ == old(edges)@ + bit_path(from, to),
{
    let ghost start = edges@;
    let mut curr = from;
    while curr != to
        invariant
            edges@ + bit_path(curr, to) == start + bit_path(from, to),
        decreases curr ^ to,
    {
        proof {
            lemma_step_closer(curr, to);
        }
        let diff = curr ^ to;
        let bit_to_flip = diff.trailing_zeros();
        let next = curr ^ (1u32 << bit_to_flip);
        let ghost before = edges@;
        edges.push((curr, next));
        proof {
            assert(next == step_towards(curr, to));
            assert(edges@ + bit_path(next, to) =~= before + bit_path(curr, to));
        }
        curr = next;
    }
    proof {
        assert(edges@ + bit_path(to, to) =~= edges@);
    }
}

/// The decimal digits of `n`, without leading zeros.
pub open spec fn decimal(n: nat) -> Seq<char>
    decreases n,
{
    if n < 10 {
        seq![(48 + n) as char]
    } else {
        decimal(n / 10).push((48 + n % 10) as char)
    }
}

/// The decimal representation of `n` (`u64::to_string`).
#[verifier::external_body]
pub(crate) fn decimal_string(n: u64) -> (s: String)
    ensures
        s@ == decimal(n as nat),
{
    n.to_string()
}

/// Where the path to an event starts from a parent: the parent's position,
/// or the previous event's position when the parent is that position written
/// in decimal.
pub open spec fn path_start(parent: Seq<char>, last: u32) -> u32 {
    if parent == decimal(last as nat) {
        last
    } else {
        coordinate(parent)
    }
}

/// The parents that an event is joined from: its own, or, when it names none,
/// the previous event's position written in decimal.
pub open spec fn joined_parents(event: GuestEvent, last: u32) -> Seq<Seq<char>> {
    if event.prev_events@.len() == 0 {
        seq![decimal(last as nat)]
    } else {
        id_seq(event.prev_events@)
    }
}

/// The paths from each of `parents`, in turn, to `target`.
pub open spec fn paths_to(parents: Seq<Seq<char>>, last: u32, target: u32) -> Seq<(u32, u32)>
    decreases parents.len(),
{
    if parents.len() == 0 {
        Seq::empty()
    } else {
        paths_to(parents.drop_last(), last, target) + bit_path(path_start(parents.last(), last), target)
    }
}

/// The position of the last of `events`, 0 when there is none.
pub open spec fn last_coordinate(events: Seq<GuestEvent>) -> u32 {
    if events.len() == 0 {
        0
    } else {
        coordinate(events.last().event_id@)
    }
}

/// The edges of the flattened DAG: for each event in turn, the paths from
/// each parent it is joined from to its position.
pub open spec fn flattened_edges(events: Seq<GuestEvent>) -> Seq<(u32, u32)>
    decreases events.len(),
{
    if events.len() == 0 {
        Seq::empty()
    } else {
        let last = last_coordinate(events.drop_last());
        flattened_edges(events.drop_last()) + paths_to(
            joined_parents(events.last(), last),
            last,
            coordinate(events.last().event_id@),
        )
    }
}

/// Flattens the DAG of `events` into hypercube edges.
pub fn flatten_dag(events: &Vec<GuestEvent>) -> (edges: Vec<(u32, u32)>)
    ensures
        edges@ == flattened_edges(events@),
{
    let mut edges: Vec<(u32, u32)> = Vec::new();
    let mut last_coord: u32 = 0;
    proof {
        assert(events@.take(0) =~= Seq::<GuestEvent>::empty());
    }
    for i in 0..events.len()
        invariant
            edges@ == flattened_edges(events@.take(i as int)),
            last_coord == last_coordinate(events@.take(i as int)),
    {
        let event = &events[i];
        let target_coord = event_to_coordinate(event.event_id.as_str());
        let last_text = decimal_string(last_coord as u64);

        let mut parents: Vec<String> = Vec::new();
        for j in 0..event.prev_events.len()
            invariant
                parents@.len() == j,
                forall|t: int| 0 <= t < j ==> parents@[t]@ == event.prev_events@[t]@,
        {
            parents.push(event.prev_events[j].clone());
        }
        if parents.len() == 0 {
            parents.push(decimal_string(last_coord as u64));
        }
        let ghost joined = joined_parents(*event, last_coord);
        proof {
            assert(id_seq(parents@) =~= joined);
            assert(joined.take(0) =~= Seq::<Seq<char>>::empty());
        }
        let ghost before = edges@;
        for k in 0..parents.len()
            invariant
                id_seq(parents@) == joined,
                edges@ == before + paths_to(joined.take(k as int), last_coord, target_coord),
                last_text@ == decimal(last_coord as nat),
        {
            let prev_str = &parents[k];
            let curr = if id_equal(prev_str, &last_text) {
                last_coord
            } else {
                event_to_coordinate(prev_str.as_str())
            };
            proof {
                assert(joined[k as int] == prev_str@);
                assert(joined.take(k + 1).drop_last() =~= joined.take(k as int));
            }
            push_bit_path(&mut edges, curr, target_coord);
            proof {
                assert(edges@ =~= before + paths_to(joined.take(k + 1), last_coord, target_coord));
            }
        }
        proof {
            assert(joined.take(joined.len() as int) =~= joined);
            let prefix = events@.take(i + 1);
            assert(prefix.drop_last() =~= events@.take(i as int));
            assert(prefix.last() == *event);
        }
        last_coord = target_coord;
    }
    proof {
        assert(events@.take(events@.len() as int) =~= events@);
    }
    edges
}

/// Flattening one more event appends, after the edges of the events before
/// it, the paths into its position. With no parents, one path from the
/// previous event's position (0 for the first event). With one parent `p`,
/// one path from the parent's own position, or from the previous event's
/// position when `p` is that position written in decimal.
pub proof fn lemma_flatten_next_event(events: Seq<GuestEvent>, e: GuestEvent)
    ensures
        ({
            let last: u32 = if events.len() == 0 { 0 } else { coordinate(events.last().event_id@) };
            let target = coordinate(e.event_id@);
            &&& e.prev_events@.len() == 0 ==> flattened_edges(events.push(e)) == flattened_edges(events)
                + bit_path(last, target)
            &&& e.prev_events@.len() == 1 ==> flattened_edges(events.push(e)) == flattened_edges(events)
                + bit_path(
                if e.prev_events@[0]@ == decimal(last as nat) {
                    last
                } else {
                    coordinate(e.prev_events@[0]@)
                },
                target,
            )
        }),
{
    let with_e = events.push(e);
    assert(with_e.drop_last() =~= events);
    assert(with_e.last() == e);
    let last = last_coordinate(events);
    let target = coordinate(e.event_id@);
    if e.prev_events@.len() == 0 {
        let ps = joined_parents(e, last);
        assert(ps.drop_last() =~= Seq::<Seq<char>>::empty());
        assert(paths_to(ps.drop_last(), last, target) == Seq::<(u32, u32)>::empty());
        assert(ps.last() == decimal(last as nat));
        assert(path_start(ps.last(), last) == last);
        assert(paths_to(ps, last, target) =~= bit_path(last, target));
    }
    if e.prev_events@.len() == 1 {
        let ps = joined_parents(e, last);
        assert(ps.drop_last() =~= Seq::<Seq<char>>::empty());
        assert(ps.last() == e.prev_events@[0]@);
        assert(paths_to(ps.drop_last(), last, target) == Seq::<(u32, u32)>::empty());
        assert(paths_to(ps, last, target) =~= bit_path(path_start(e.prev_events@[0]@, last), target));
    }
}

/// A further parent adds one more path, after those of the parents before
/// it: from the parent's own position, or from the previous event's
/// position when the parent is that position written in decimal.
pub proof fn lemma_flatten_further_parent(
    events: Seq<GuestEvent>,
    e: GuestEvent,
    e2: GuestEvent,
    p: Seq<char>,
)
    requires
        e2.event_id@ == e.event_id@,
        e.prev_events@.len() > 0,
        id_seq(e2.prev_events@) == id_seq(e.prev_events@).push(p),
    ensures
        ({
            let last: u32 = if events.len() == 0 { 0 } else { coordinate(events.last().event_id@) };
            flattened_edges(events.push(e2)) == flattened_edges(events.push(e)) + bit_path(
                if p == decimal(last as nat) {
                    last
                } else {
                    coordinate(p)
                },
                coordinate(e.event_id@),
            )
        }),
{
    let with_e = events.push(e);
    let with_e2 = events.push(e2);
    assert(with_e.drop_last() =~= events);
    assert(with_e2.drop_last() =~= events);
    assert(with_e.last() == e);
    assert(with_e2.last() == e2);
    let last = last_coordinate(events);
    let target = coordinate(e.event_id@);
    assert(id_seq(e2.prev_events@).len() == e2.prev_events@.len());
    let ps2 = joined_parents(e2, last);
    assert(ps2 == id_seq(e.prev_events@).push(p));
    assert(ps2.drop_last() =~= joined_parents(e, last));
    assert(paths_to(ps2, last, target) == paths_to(joined_parents(e, last), last, target) + bit_path(
        path_start(p, last),
        target,
    ));
    assert(flattened_edges(with_e2) =~= flattened_edges(with_e) + bit_path(path_start(p, last), target));
}

} // verus!
