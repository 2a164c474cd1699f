//! Stable insertion sort by a byte-string key, and what it guarantees.
use crate::bytes::{bytes_lt, lemma_lex_asymmetric, lemma_lex_total, lemma_lex_transitive, lex_lt};
use vstd::prelude::*;

verus! {

/// The views of the items of `s`.
pub open spec fn views<T: View>(s: Seq<T>) -> Seq<T::V> {
    s.map_values(|x: T| x@)
}

/// Puts `e` after every item whose key is not above its own.
pub open spec fn insert_by<V>(key: spec_fn(V) -> Seq<u8>, e: V, s: Seq<V>) -> Seq<V>
    decreases s.len(),
{
    if s.len() == 0 {
        seq![e]
    } else if lex_lt(key(e), key(s[0])) {
        seq![e] + s
    } else {
        seq![s[0]] + insert_by(key, e, s.drop_first())
    }
}

/// The items ordered by key; items with equal keys keep their order.
pub open spec fn sort_by<V>(key: spec_fn(V) -> Seq<u8>, s: Seq<V>) -> Seq<V>
    decreases s.len(),
{
    if s.len() == 0 {
        seq![]
    } else {
        insert_by(key, s.last(), sort_by(key, s.drop_last()))
    }
}

/// Each item's key is at most the key of every later one.
pub open spec fn ascending_by<V>(key: spec_fn(V) -> Seq<u8>, s: Seq<V>) -> bool {
    forall|i: int, j: int| 0 <= i < j < s.len() ==> !lex_lt(key(s[j]), key(s[i]))
}

/// Inserting at the first item with a greater key is `insert_by`.
pub proof fn lemma_insert_at<V>(key: spec_fn(V) -> Seq<u8>, e: V, s: Seq<V>, j: int)
    requires
        0 <= j <= s.len(),
        j < s.len() ==> lex_lt(key(e), key(s[j])),
        forall|k: int| 0 <= k < j ==> !lex_lt(key(e), #[trigger] key(s[k])),
    ensures
        insert_by(key, e, s) == s.insert(j, e),
    decreases s.len(),
{
    if s.len() == 0 {
        assert(s.insert(j, e) =~= seq![e]);
    } else if j == 0 {
        assert(s.insert(0, e) =~= seq![e] + s);
    } else {
        let t = s.drop_first();
        assert forall|k: int| 0 <= k < j - 1 implies !lex_lt(key(e), #[trigger] key(t[k])) by {
            assert(t[k] == s[k + 1]);
        }
        lemma_insert_at(key, e, t, j - 1);
        assert(seq![s[0]] + t.insert(j - 1, e) =~= s.insert(j, e));
    }
}

/// Inserting into an ordered sequence keeps it ordered and adds exactly the item.
#[verifier::rlimit(80)]
#[verifier::spinoff_prover]
pub proof fn lemma_insert_ascending<V>(key: spec_fn(V) -> Seq<u8>, e: V, s: Seq<V>)
    requires
        ascending_by(key, s),
    ensures
        ascending_by(key, insert_by(key, e, s)),
        insert_by(key, e, s).len() == s.len() + 1,
        insert_by(key, e, s).to_multiset() == s.to_multiset().insert(e),
    decreases s.len(),
{
    broadcast use vstd::seq_lib::group_to_multiset_ensures;

    let r = insert_by(key, e, s);
    if s.len() == 0 {
        assert(r =~= s.push(e));
    } else if lex_lt(key(e), key(s[0])) {
        assert forall|i: int, j: int| 0 <= i < j < r.len() implies !lex_lt(key(r[j]), key(r[i])) by {
            if i == 0 {
                let kj = key(r[j]);
                if j > 1 {
                    assert(r[j] == s[j - 1]);
                    if lex_lt(kj, key(e)) {
                        lemma_lex_transitive(kj, key(e), key(s[0]));
                        lemma_lex_asymmetric(kj, key(s[0]));
                    }
                } else {
                    lemma_lex_asymmetric(key(e), key(s[0]));
                }
            } else {
                assert(r[i] == s[i - 1] && r[j] == s[j - 1]);
            }
        }
        assert(r =~= s.insert(0, e));
    } else {
        let t = s.drop_first();
        assert(ascending_by(key, t)) by {
            assert forall|i: int, j: int| 0 <= i < j < t.len() implies !lex_lt(key(t[j]), key(t[i])) by {
                assert(t[i] == s[i + 1] && t[j] == s[j + 1]);
            }
        }
        lemma_insert_ascending(key, e, t);
        let rt = insert_by(key, e, t);
        assert(r =~= seq![s[0]] + rt);
        assert forall|i: int, j: int| 0 <= i < j < r.len() implies !lex_lt(key(r[j]), key(r[i])) by {
            if i == 0 {
                let x = r[j];
                assert(rt[j - 1] == x);
                assert(rt.to_multiset().count(x) > 0);
                if x != e {
                    assert(t.to_multiset().count(x) > 0);
                    assert(t.contains(x));
                    let k = choose|k: int| 0 <= k < t.len() && t[k] == x;
                    assert(s[k + 1] == x);
                } else {
                    lemma_lex_total(key(e), key(s[0]));
                    lemma_lex_asymmetric(key(e), key(s[0]));
                }
            } else {
                assert(r[i] == rt[i - 1] && r[j] == rt[j - 1]);
            }
        }
        assert(s =~= seq![s[0]] + t);
        vstd::seq_lib::lemma_multiset_commutative(seq![s[0]], rt);
        vstd::seq_lib::lemma_multiset_commutative(seq![s[0]], t);
    }
}

/// Sorting keeps every item, as often as it occurs, and orders them by key.
pub proof fn lemma_sort_by<V>(key: spec_fn(V) -> Seq<u8>, s: Seq<V>)
    ensures
        ascending_by(key, sort_by(key, s)),
        sort_by(key, s).to_multiset() == s.to_multiset(),
        sort_by(key, s).len() == s.len(),
    decreases s.len(),
{
    broadcast use vstd::seq_lib::group_to_multiset_ensures;

    if s.len() > 0 {
        lemma_sort_by(key, s.drop_last());
        lemma_insert_ascending(key, s.last(), sort_by(key, s.drop_last()));
        assert(s =~= s.drop_last().push(s.last()));
    }
}

/// Inserts `e`, whose key is `k`, into `out` after every item whose key is not above `k`;
/// `keys` holds the key of each item of `out`.
pub fn insert_keyed<T: View>(
    out: &mut Vec<T>,
    keys: &mut Vec<Vec<u8>>,
    e: T,
    k: Vec<u8>,
    Ghost(key): Ghost<spec_fn(T::V) -> Seq<u8>>,
)
    requires
        old(keys)@.len() == old(out)@.len(),
        forall|j: int| 0 <= j < old(keys)@.len() ==> #[trigger] old(keys)@[j]@ == key(old(out)@[j]@),
        k@ == key(e@),
    ensures
        views(final(out)@) == insert_by(key, e@, views(old(out)@)),
        final(keys)@.len() == final(out)@.len(),
        forall|j: int| 0 <= j < final(keys)@.len() ==> #[trigger] final(keys)@[j]@ == key(final(out)@[j]@),
{
    let mut j: usize = 0;
    while j < out.len() && !bytes_lt(k.as_slice(), keys[j].as_slice())
        invariant
            0 <= j <= out@.len(),
            out@ == old(out)@,
            keys@ == old(keys)@,
            keys@.len() == out@.len(),
            forall|i: int| 0 <= i < keys@.len() ==> #[trigger] keys@[i]@ == key(out@[i]@),
            k@ == key(e@),
            forall|i: int| 0 <= i < j ==> !lex_lt(key(e@), #[trigger] key(views(out@)[i])),
        decreases out@.len() - j,
    {
        j = j + 1;
    }
    let ghost before = views(out@);
    proof {
        lemma_insert_at(key, e@, before, j as int);
    }
    let ghost ev = e@;
    out.insert(j, e);
    keys.insert(j, k);
    assert(views(out@) =~= before.insert(j as int, ev));
    assert forall|i: int| 0 <= i < keys@.len() implies #[trigger] keys@[i]@ == key(out@[i]@) by {
        if i < j {
        } else if i > j {
        }
    }
}

/// Two ordered sequences of the same items are one sequence, where items with equal keys are
/// equal.
#[verifier::rlimit(80)]
#[verifier::spinoff_prover]
pub proof fn lemma_ascending_unique<V>(key: spec_fn(V) -> Seq<u8>, sa: Seq<V>, sb: Seq<V>)
    requires
        ascending_by(key, sa),
        ascending_by(key, sb),
        sa.to_multiset() == sb.to_multiset(),
        forall|x: V, y: V| sa.contains(x) && sa.contains(y) && key(x) == key(y) ==> x == y,
    ensures
        sa == sb,
    decreases sa.len(),
{
    broadcast use vstd::seq_lib::group_to_multiset_ensures;

    assert(sa.to_multiset().len() == sa.len());
    assert(sb.to_multiset().len() == sb.len());
    if sa.len() == 0 {
        assert(sb.len() == 0);
        assert(sa =~= sb);
    } else {
        assert(sb.len() == sa.len());
        let x = sa[0];
        let y = sb[0];
        assert(sb.to_multiset().count(y) > 0);
        assert(sa.contains(y));
        let ky = choose|k: int| 0 <= k < sa.len() && sa[k] == y;
        assert(sa.to_multiset().count(x) > 0);
        assert(sb.contains(x));
        let kx = choose|k: int| 0 <= k < sb.len() && sb[k] == x;
        if ky > 0 {
            assert(!lex_lt(key(sa[ky]), key(sa[0])));
        }
        if kx > 0 {
            assert(!lex_lt(key(sb[kx]), key(sb[0])));
        }
        crate::bytes::lemma_lex_irreflexive(key(x));
        lemma_lex_total(key(x), key(y));
        assert(key(x) == key(y));
        assert(sa.contains(x));
        assert(x == y);
        let ra = sa.remove(0);
        let rb = sb.remove(0);
        assert(ra =~= sa.drop_first());
        assert(rb =~= sb.drop_first());
        assert(ra.to_multiset() == rb.to_multiset());
        assert(ascending_by(key, ra)) by {
            assert forall|i: int, j: int| 0 <= i < j < ra.len() implies !lex_lt(key(ra[j]), key(ra[i])) by {
                assert(ra[i] == sa[i + 1] && ra[j] == sa[j + 1]);
            }
        }
        assert(ascending_by(key, rb)) by {
            assert forall|i: int, j: int| 0 <= i < j < rb.len() implies !lex_lt(key(rb[j]), key(rb[i])) by {
                assert(rb[i] == sb[i + 1] && rb[j] == sb[j + 1]);
            }
        }
        assert forall|u: V, v: V| ra.contains(u) && ra.contains(v) && key(u) == key(v) implies u == v by {
            let i = choose|i: int| 0 <= i < ra.len() && ra[i] == u;
            let j = choose|j: int| 0 <= j < ra.len() && ra[j] == v;
            assert(sa[i + 1] == u && sa[j + 1] == v);
            assert(sa.contains(u) && sa.contains(v));
        }
        lemma_ascending_unique(key, ra, rb);
        assert(sa =~= seq![x] + ra);
        assert(sb =~= seq![y] + rb);
    }
}

/// Sorting two arrangements of the same items gives one sequence, where items with equal
/// keys are equal.
pub proof fn lemma_sort_permutation<V>(key: spec_fn(V) -> Seq<u8>, a: Seq<V>, b: Seq<V>)
    requires
        a.to_multiset() == b.to_multiset(),
        forall|x: V, y: V| a.contains(x) && a.contains(y) && key(x) == key(y) ==> x == y,
    ensures
        sort_by(key, a) == sort_by(key, b),
{
    broadcast use vstd::seq_lib::group_to_multiset_ensures;

    lemma_sort_by(key, a);
    lemma_sort_by(key, b);
    let sa = sort_by(key, a);
    assert forall|x: V, y: V| sa.contains(x) && sa.contains(y) && key(x) == key(y) implies x == y by {
        assert(sa.to_multiset().count(x) > 0 && sa.to_multiset().count(y) > 0);
        assert(a.contains(x) && a.contains(y));
    }
    lemma_ascending_unique(key, sa, sort_by(key, b));
}

} // verus!
