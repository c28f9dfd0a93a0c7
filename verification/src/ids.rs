//! Event identifiers and their lexicographic order.
use vstd::prelude::*;

verus! {

/// The identifiers that a vector of strings holds, as character sequences.
pub open spec fn id_seq(v: Seq<String>) -> Seq<Seq<char>> {
    v.map_values(|s: String| s@)
}

/// `a` comes strictly before `b` in lexicographic order of Unicode code points,
/// a proper prefix coming first.
pub open spec fn id_lt(a: Seq<char>, b: Seq<char>) -> bool
    decreases a.len(),
{
    if a.len() == 0 {
        b.len() > 0
    } else if b.len() == 0 {
        false
    } else if a[0] == b[0] {
        id_lt(a.drop_first(), b.drop_first())
    } else {
        a[0] < b[0]
    }
}

/// No identifier comes before itself.
pub proof fn lemma_id_lt_irreflexive(a: Seq<char>)
    ensures
        !id_lt(a, a),
    decreases a.len(),
{
    if a.len() > 0 {
        lemma_id_lt_irreflexive(a.drop_first());
    }
}

/// Of two identifiers, at most one comes before the other.
pub proof fn lemma_id_lt_asymmetric(a: Seq<char>, b: Seq<char>)
    ensures
        id_lt(a, b) ==> !id_lt(b, a),
    decreases a.len(),
{
    if a.len() > 0 && b.len() > 0 && a[0] == b[0] {
        lemma_id_lt_asymmetric(a.drop_first(), b.drop_first());
    }
}

/// Of two distinct identifiers, one comes before the other.
pub proof fn lemma_id_lt_total(a: Seq<char>, b: Seq<char>)
    ensures
        a != b ==> id_lt(a, b) || id_lt(b, a),
    decreases a.len(),
{
    if a.len() > 0 && b.len() > 0 && a[0] == b[0] {
        lemma_id_lt_total(a.drop_first(), b.drop_first());
        if a.drop_first() == b.drop_first() {
            assert(a =~= seq![a[0]] + a.drop_first());
            assert(b =~= seq![b[0]] + b.drop_first());
        }
    } else if a.len() == 0 && b.len() == 0 {
        assert(a =~= b);
    }
}

/// The lexicographic order is transitive.
pub proof fn lemma_id_lt_transitive(a: Seq<char>, b: Seq<char>, c: Seq<char>)
    ensures
        id_lt(a, b) && id_lt(b, c) ==> id_lt(a, c),
    decreases a.len(),
{
    if a.len() > 0 && b.len() > 0 && c.len() > 0 {
        lemma_id_lt_transitive(a.drop_first(), b.drop_first(), c.drop_first());
    }
}

/// Two identifiers that agree on their first `i` characters compare as their
/// remainders do.
pub proof fn lemma_id_lt_common_prefix(a: Seq<char>, b: Seq<char>, i: int)
    requires
        0 <= i <= a.len(),
        i <= b.len(),
        forall|j: int| 0 <= j < i ==> a[j] == b[j],
    ensures
        id_lt(a, b) == id_lt(a.skip(i), b.skip(i)),
    decreases i,
{
    if i > 0 {
        lemma_id_lt_common_prefix(a.drop_first(), b.drop_first(), i - 1);
        assert(a.drop_first().skip(i - 1) =~= a.skip(i));
        assert(b.drop_first().skip(i - 1) =~= b.skip(i));
    } else {
        assert(a.skip(0) =~= a);
        assert(b.skip(0) =~= b);
    }
}

/// `a` and `b` agree on their first `k` characters, and there `a` ends while
/// `b` goes on, or `a`'s character has the smaller code point.
pub open spec fn differs_first_at(a: Seq<char>, b: Seq<char>, k: int) -> bool {
    &&& 0 <= k <= a.len()
    &&& k <= b.len()
    &&& forall|j: int| 0 <= j < k ==> a[j] == b[j]
    &&& (k == a.len() && k < b.len()) || (k < a.len() && k < b.len() && a[k] < b[k])
}

/// `id_lt` is the lexicographic order by code point: `a` comes before `b`
/// exactly when, at the first position where they differ, `a` has ended or
/// has the smaller code point. The lengths matter only there.
pub proof fn lemma_id_lt_lexicographic(a: Seq<char>, b: Seq<char>)
    ensures
        id_lt(a, b) <==> exists|k: int| #[trigger] differs_first_at(a, b, k),
    decreases a.len(),
{
    if a.len() > 0 && b.len() > 0 && a[0] == b[0] {
        lemma_id_lt_lexicographic(a.drop_first(), b.drop_first());
        if id_lt(a, b) {
            let k = choose|k: int| #[trigger] differs_first_at(a.drop_first(), b.drop_first(), k);
            assert forall|j: int| 0 <= j < k + 1 implies a[j] == b[j] by {
                if j > 0 {
                    assert(a[j] == a.drop_first()[j - 1]);
                    assert(b[j] == b.drop_first()[j - 1]);
                }
            }
            assert(differs_first_at(a, b, k + 1));
        }
        if exists|k: int| #[trigger] differs_first_at(a, b, k) {
            let k = choose|k: int| #[trigger] differs_first_at(a, b, k);
            if k == 0 {
                assert(a[0] < b[0]);
            }
            assert forall|j: int| 0 <= j < k - 1 implies a.drop_first()[j] == b.drop_first()[j] by {
                assert(a[j + 1] == b[j + 1]);
            }
            assert(differs_first_at(a.drop_first(), b.drop_first(), k - 1));
        }
    } else if a.len() == 0 {
        if b.len() > 0 {
            assert(differs_first_at(a, b, 0));
        }
    } else if b.len() == 0 {
        if exists|k: int| #[trigger] differs_first_at(a, b, k) {
            let k = choose|k: int| #[trigger] differs_first_at(a, b, k);
            assert(k == 0);
        }
    } else {
        if id_lt(a, b) {
            assert(differs_first_at(a, b, 0));
        }
        if exists|k: int| #[trigger] differs_first_at(a, b, k) {
            let k = choose|k: int| #[trigger] differs_first_at(a, b, k);
            if k > 0 {
                assert(a[0] == b[0]);
            }
        }
    }
}

/// The characters of a string, in order.
pub fn chars_of(s: &String) -> (v: Vec<char>)
    ensures
        v@ == s@,
{
    let mut v: Vec<char> = Vec::new();
    for c in it: s.as_str().chars()
        invariant
            it.seq() == s@,
            v@ == s@.take(it.index()),
    {
        v.push(c);
        proof {
            assert(s@.take(it.index() + 1) =~= s@.take(it.index()).push(c));
        }
    }
    proof {
        assert(s@.take(s@.len() as int) =~= s@);
    }
    v
}

/// Whether `a` comes strictly before `b`, character by character.
pub fn id_less_than(a: &String, b: &String) -> (r: bool)
    ensures
        r == id_lt(a@, b@),
{
    let va = chars_of(a);
    let vb = chars_of(b);
    let mut i: usize = 0;
    while i < va.len() && i < vb.len()
        invariant
            va@ == a@,
            vb@ == b@,
            i <= va.len(),
            i <= vb.len(),
            forall|j: int| 0 <= j < i ==> a@[j] == b@[j],
        decreases va.len() - i,
    {
        if va[i] != vb[i] {
            proof {
                lemma_id_lt_common_prefix(a@, b@, i as int);
                assert(a@.skip(i as int)[0] == a@[i as int]);
                assert(b@.skip(i as int)[0] == b@[i as int]);
            }
            return va[i] < vb[i];
        }
        i = i + 1;
    }
    proof {
        lemma_id_lt_common_prefix(a@, b@, i as int);
    }
    i < vb.len()
}

/// Whether two identifiers are equal.
pub fn id_equal(a: &String, b: &String) -> (r: bool)
    ensures
        r == (a@ == b@),
{
    *a == *b
}

} // verus!
