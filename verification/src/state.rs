//! Resolved room state: a listing of (event type, state key) to event
//! identifier, kept in key order, and the bytes that fingerprint it.
use vstd::prelude::*;
use crate::ids::{
    id_equal, id_less_than, id_lt, lemma_id_lt_asymmetric, lemma_id_lt_irreflexive,
    lemma_id_lt_total, lemma_id_lt_transitive,
};
use vstd::utf8::encode_utf8;

verus! {

/// One entry of resolved state.
#[derive(Debug, Clone, PartialEq, Eq)]
pub struct StateEntry {
    pub event_type: String,
    pub state_key: String,
    pub event_id: String,
}

/// The key of a state entry.
pub open spec fn key_of(e: StateEntry) -> (Seq<char>, Seq<char>) {
    (e.event_type@, e.state_key@)
}

/// Keys are ordered by event type, then by state key.
pub open spec fn key_lt(a: (Seq<char>, Seq<char>), b: (Seq<char>, Seq<char>)) -> bool {
    id_lt(a.0, b.0) || (a.0 == b.0 && id_lt(a.1, b.1))
}

/// The entries are in strictly increasing key order.
pub open spec fn is_sorted_listing(v: Seq<StateEntry>) -> bool {
    forall|i: int, j: int| 0 <= i < j < v.len() ==> key_lt(key_of(#[trigger] v[i]), key_of(#[trigger] v[j]))
}

/// The entries list exactly the keys of `state`, each with its value.
pub open spec fn listing_holds(v: Seq<StateEntry>, state: Map<(Seq<char>, Seq<char>), Seq<char>>) -> bool {
    &&& forall|k: (Seq<char>, Seq<char>)|
        #[trigger] state.dom().contains(k) <==> exists|i: int|
            0 <= i < v.len() && key_of(#[trigger] v[i]) == k
    &&& forall|i: int| 0 <= i < v.len() ==> state[key_of(#[trigger] v[i])] == v[i].event_id@
}

/// The bytes that fingerprint a listing: for each entry in turn, the UTF-8 of
/// its event type, of its state key and of its event identifier.
pub open spec fn state_bytes(v: Seq<StateEntry>) -> Seq<u8>
    decreases v.len(),
{
    if v.len() == 0 {
        Seq::empty()
    } else {
        state_bytes(v.drop_last()) + encode_utf8(v.last().event_type@) + encode_utf8(
            v.last().state_key@,
        ) + encode_utf8(v.last().event_id@)
    }
}

pub proof fn lemma_key_lt_order(a: (Seq<char>, Seq<char>), b: (Seq<char>, Seq<char>), c: (Seq<char>, Seq<char>))
    ensures
        !key_lt(a, a),
        key_lt(a, b) ==> !key_lt(b, a),
        a != b ==> key_lt(a, b) || key_lt(b, a),
        key_lt(a, b) && key_lt(b, c) ==> key_lt(a, c),
{
    lemma_id_lt_irreflexive(a.0);
    lemma_id_lt_irreflexive(a.1);
    lemma_id_lt_asymmetric(a.0, b.0);
    lemma_id_lt_asymmetric(a.1, b.1);
    lemma_id_lt_total(a.0, b.0);
    lemma_id_lt_total(a.1, b.1);
    lemma_id_lt_transitive(a.0, b.0, c.0);
    lemma_id_lt_transitive(a.1, b.1, c.1);
}

/// Two listings in key order that hold the same state are the same listing.
pub proof fn lemma_sorted_listing_unique(
    v: Seq<StateEntry>,
    w: Seq<StateEntry>,
    state: Map<(Seq<char>, Seq<char>), Seq<char>>,
)
    requires
        is_sorted_listing(v),
        is_sorted_listing(w),
        listing_holds(v, state),
        listing_holds(w, state),
    ensures
        forall|i: int| 0 <= i < v.len() ==> key_of(#[trigger] v[i]) == key_of(w[i]) && v[i].event_id@
            == w[i].event_id@,
        v.len() == w.len(),
    decreases v.len(),
{
    if v.len() > 0 && w.len() > 0 {
        // the last entries hold the greatest key of the state
        let kv = key_of(v.last());
        let kw = key_of(w.last());
        assert(state.dom().contains(kv));
        assert(state.dom().contains(kw));
        let iw = choose|i: int| 0 <= i < w.len() && key_of(#[trigger] w[i]) == kv;
        let iv = choose|i: int| 0 <= i < v.len() && key_of(#[trigger] v[i]) == kw;
        lemma_key_lt_order(kv, kw, kv);
        if kv != kw {
            if key_lt(kv, kw) {
                assert(iv < v.len() - 1);
                assert(key_lt(key_of(v[iv]), key_of(v[v.len() - 1])));
            } else {
                assert(iw < w.len() - 1);
                assert(key_lt(key_of(w[iw]), key_of(w[w.len() - 1])));
            }
        }
        let smaller = state.remove(kv);
        assert(listing_holds(v.drop_last(), smaller)) by {
            assert forall|k: (Seq<char>, Seq<char>)|
                #[trigger] smaller.dom().contains(k) <==> exists|i: int|
                    0 <= i < v.drop_last().len() && key_of(#[trigger] v.drop_last()[i]) == k by {
                if smaller.dom().contains(k) {
                    let i = choose|i: int| 0 <= i < v.len() && key_of(#[trigger] v[i]) == k;
                    assert(i != v.len() - 1);
                    assert(v.drop_last()[i] == v[i]);
                }
                if exists|i: int| 0 <= i < v.drop_last().len() && key_of(#[trigger] v.drop_last()[i]) == k {
                    let i = choose|i: int| 0 <= i < v.drop_last().len() && key_of(#[trigger] v.drop_last()[i]) == k;
                    assert(v[i] == v.drop_last()[i]);
                    assert(key_lt(key_of(v[i]), key_of(v[v.len() - 1])));
                    lemma_key_lt_order(k, kv, k);
                }
            }
            assert forall|i: int| 0 <= i < v.drop_last().len() implies smaller[key_of(#[trigger] v.drop_last()[i])] == v.drop_last()[i].event_id@ by {
                assert(v[i] == v.drop_last()[i]);
                assert(key_lt(key_of(v[i]), key_of(v[v.len() - 1])));
                lemma_key_lt_order(key_of(v[i]), kv, key_of(v[i]));
            }
        }
        assert(listing_holds(w.drop_last(), smaller)) by {
            assert forall|k: (Seq<char>, Seq<char>)|
                #[trigger] smaller.dom().contains(k) <==> exists|i: int|
                    0 <= i < w.drop_last().len() && key_of(#[trigger] w.drop_last()[i]) == k by {
                if smaller.dom().contains(k) {
                    let i = choose|i: int| 0 <= i < w.len() && key_of(#[trigger] w[i]) == k;
                    assert(i != w.len() - 1);
                    assert(w.drop_last()[i] == w[i]);
                }
                if exists|i: int| 0 <= i < w.drop_last().len() && key_of(#[trigger] w.drop_last()[i]) == k {
                    let i = choose|i: int| 0 <= i < w.drop_last().len() && key_of(#[trigger] w.drop_last()[i]) == k;
                    assert(w[i] == w.drop_last()[i]);
                    assert(key_lt(key_of(w[i]), key_of(w[w.len() - 1])));
                    lemma_key_lt_order(k, kv, k);
                }
            }
            assert forall|i: int| 0 <= i < w.drop_last().len() implies smaller[key_of(#[trigger] w.drop_last()[i])] == w.drop_last()[i].event_id@ by {
                assert(w[i] == w.drop_last()[i]);
                assert(key_lt(key_of(w[i]), key_of(w[w.len() - 1])));
                lemma_key_lt_order(key_of(w[i]), kv, key_of(w[i]));
            }
        }
        lemma_sorted_listing_unique(v.drop_last(), w.drop_last(), smaller);
        assert forall|i: int| 0 <= i < v.len() implies key_of(#[trigger] v[i]) == key_of(w[i]) && v[i].event_id@
            == w[i].event_id@ by {
            if i < v.len() - 1 {
                assert(v[i] == v.drop_last()[i]);
                assert(w[i] == w.drop_last()[i]);
            }
        }
    } else if v.len() > 0 {
        assert(state.dom().contains(key_of(v[0])));
    } else if w.len() > 0 {
        assert(state.dom().contains(key_of(w[0])));
    }
}

/// Whether the key of `a` comes before the key of `b`.
pub fn key_less_than(a: &StateEntry, b: &StateEntry) -> (r: bool)
    ensures
        r == key_lt(key_of(*a), key_of(*b)),
{
    if id_less_than(&a.event_type, &b.event_type) {
        true
    } else if id_equal(&a.event_type, &b.event_type) {
        id_less_than(&a.state_key, &b.state_key)
    } else {
        false
    }
}

/// Sets the value under the key of `entry` to its event identifier, keeping
/// the listing in key order.
pub(crate) fn set_state(listing: &mut Vec<StateEntry>, entry: StateEntry, Ghost(state): Ghost<Map<(Seq<char>, Seq<char>), Seq<char>>>)
    requires
        is_sorted_listing(old(listing)@),
        listing_holds(old(listing)@, state),
    ensures
        is_sorted_listing(final(listing)@),
        listing_holds(final(listing)@, state.insert(key_of(entry), entry.event_id@)),
{
    let ghost k = key_of(entry);
    let ghost v = listing@;
    let mut lo: usize = 0;
    let mut hi: usize = listing.len();
    while lo < hi
        invariant
            v == listing@,
            0 <= lo <= hi <= v.len(),
            forall|j: int| 0 <= j < lo ==> key_lt(key_of(#[trigger] v[j]), k),
            forall|j: int| hi <= j < v.len() ==> !key_lt(key_of(#[trigger] v[j]), k),
            is_sorted_listing(v),
            k == key_of(entry),
        decreases hi - lo,
    {
        let mid = lo + (hi - lo) / 2;
        if key_less_than(&listing[mid], &entry) {
            proof {
                assert forall|j: int| 0 <= j < mid + 1 implies key_lt(key_of(#[trigger] v[j]), k) by {
                    if j < mid {
                        assert(key_lt(key_of(v[j]), key_of(v[mid as int])));
                        lemma_key_lt_order(key_of(v[j]), key_of(v[mid as int]), k);
                    }
                }
            }
            lo = mid + 1;
        } else {
            proof {
                assert forall|j: int| mid <= j < v.len() implies !key_lt(key_of(#[trigger] v[j]), k) by {
                    if j > mid {
                        assert(key_lt(key_of(v[mid as int]), key_of(v[j])));
                        lemma_key_lt_order(key_of(v[mid as int]), key_of(v[j]), k);
                        lemma_key_lt_order(k, key_of(v[mid as int]), key_of(v[j]));
                        lemma_key_lt_order(key_of(v[mid as int]), k, key_of(v[j]));
                    }
                }
            }
            hi = mid;
        }
    }
    let replace = lo < listing.len() && !key_less_than(&entry, &listing[lo]);
    let ghost new_state = state.insert(k, entry.event_id@);
    if replace {
        proof {
            lemma_key_lt_order(k, key_of(v[lo as int]), k);
            assert(key_of(v[lo as int]) == k);
        }
        listing.set(lo, entry);
        proof {
            let w = listing@;
            assert forall|i: int, j: int| 0 <= i < j < w.len() implies key_lt(key_of(#[trigger] w[i]), key_of(#[trigger] w[j])) by {
                assert(key_lt(key_of(v[i]), key_of(v[j])));
            }
            assert forall|q: (Seq<char>, Seq<char>)|
                #[trigger] new_state.dom().contains(q) <==> exists|i: int|
                    0 <= i < w.len() && key_of(#[trigger] w[i]) == q by {
                if new_state.dom().contains(q) && q != k {
                    let i = choose|i: int| 0 <= i < v.len() && key_of(#[trigger] v[i]) == q;
                    assert(key_of(w[i]) == q);
                }
                if q == k {
                    assert(key_of(w[lo as int]) == q);
                }
                if exists|i: int| 0 <= i < w.len() && key_of(#[trigger] w[i]) == q {
                    let i = choose|i: int| 0 <= i < w.len() && key_of(#[trigger] w[i]) == q;
                    if i != lo {
                        assert(key_of(v[i]) == q);
                    }
                }
            }
            assert forall|i: int| 0 <= i < w.len() implies new_state[key_of(#[trigger] w[i])] == w[i].event_id@ by {
                if i != lo {
                    assert(key_lt(key_of(v[i]), key_of(v[lo as int])) || key_lt(key_of(v[lo as int]), key_of(v[i])));
                    lemma_key_lt_order(key_of(v[i]), k, k);
                    lemma_key_lt_order(k, key_of(v[i]), k);
                }
            }
        }
    } else {
        proof {
            if lo < v.len() {
                lemma_key_lt_order(k, key_of(v[lo as int]), k);
            }
        }
        listing.insert(lo, entry);
        proof {
            let w = listing@;
            assert(w == v.insert(lo as int, entry));
            assert forall|j: int| lo <= j < v.len() implies key_lt(k, key_of(#[trigger] v[j])) by {
                if j > lo {
                    assert(key_lt(key_of(v[lo as int]), key_of(v[j])));
                    lemma_key_lt_order(k, key_of(v[lo as int]), key_of(v[j]));
                }
            }
            assert forall|i: int, j: int| 0 <= i < j < w.len() implies key_lt(key_of(#[trigger] w[i]), key_of(#[trigger] w[j])) by {
                if j < lo {
                    assert(w[i] == v[i] && w[j] == v[j]);
                } else if j == lo {
                    assert(w[i] == v[i]);
                } else if i < lo {
                    assert(w[i] == v[i] && w[j] == v[j - 1]);
                    lemma_key_lt_order(key_of(v[i]), k, key_of(v[j - 1]));
                } else if i == lo {
                    assert(w[j] == v[j - 1]);
                } else {
                    assert(w[i] == v[i - 1] && w[j] == v[j - 1]);
                }
            }
            assert forall|q: (Seq<char>, Seq<char>)|
                #[trigger] new_state.dom().contains(q) <==> exists|i: int|
                    0 <= i < w.len() && key_of(#[trigger] w[i]) == q by {
                if new_state.dom().contains(q) && q != k {
                    let i = choose|i: int| 0 <= i < v.len() && key_of(#[trigger] v[i]) == q;
                    if i < lo {
                        assert(key_of(w[i]) == q);
                    } else {
                        assert(key_of(w[i + 1]) == q);
                    }
                }
                if q == k {
                    assert(key_of(w[lo as int]) == q);
                }
                if exists|i: int| 0 <= i < w.len() && key_of(#[trigger] w[i]) == q {
                    let i = choose|i: int| 0 <= i < w.len() && key_of(#[trigger] w[i]) == q;
                    if i < lo {
                        assert(key_of(v[i]) == q);
                    } else if i > lo {
                        assert(key_of(v[i - 1]) == q);
                    }
                }
            }
            assert forall|i: int| 0 <= i < w.len() implies new_state[key_of(#[trigger] w[i])] == w[i].event_id@ by {
                if i < lo {
                    assert(w[i] == v[i]);
                    lemma_key_lt_order(key_of(v[i]), k, k);
                } else if i > lo {
                    assert(w[i] == v[i - 1]);
                    lemma_key_lt_order(k, key_of(v[i - 1]), k);
                }
            }
        }
    }
}

/// Appends the UTF-8 bytes of `s`.
fn push_utf8(bytes: &mut Vec<u8>, s: &str)
    ensures
        final(bytes)@ == old(bytes)@ + encode_utf8(s@),
{
    let b = s.as_bytes();
    let ghost start = bytes@;
    for j in 0..b.len()
        invariant
            b@ == encode_utf8(s@),
            bytes@ == start + b@.take(j as int),
    {
        bytes.push(b[j]);
        proof {
            assert(b@.take(j + 1) =~= b@.take(j as int).push(b@[j as int]));
        }
    }
    proof {
        assert(b@.take(b@.len() as int) =~= b@);
    }
}

/// The fingerprint bytes of a listing.
pub fn state_bytes_of(listing: &Vec<StateEntry>) -> (bytes: Vec<u8>)
    ensures
        bytes@ == state_bytes(listing@),
{
    let mut bytes: Vec<u8> = Vec::new();
    proof {
        assert(listing@.take(0) =~= Seq::<StateEntry>::empty());
    }
    for i in 0..listing.len()
        invariant
            bytes@ == state_bytes(listing@.take(i as int)),
    {
        let entry = &listing[i];
        push_utf8(&mut bytes, entry.event_type.as_str());
        push_utf8(&mut bytes, entry.state_key.as_str());
        push_utf8(&mut bytes, entry.event_id.as_str());
        proof {
            assert(listing@.take(i + 1).drop_last() =~= listing@.take(i as int));
            assert(listing@.take(i + 1).last() == listing@[i as int]);
        }
    }
    proof {
        assert(listing@.take(listing@.len() as int) =~= listing@);
    }
    bytes
}

} // verus!
