//! The sequences of entries that a bucket publishes, and how a write turns
//! one published sequence into the next. A sequence is never changed once
//! it is published: every write builds a new one.
use crate::entry::Entry;
use crate::view::KeyValueView;
use std::sync::Arc;
use vstd::prelude::*;

verus! {

/// What a bucket's entries hold, in order: one (key, value) pair each.
pub open spec fn views(s: Seq<Arc<Entry>>) -> Seq<(Seq<u8>, Seq<u8>)> {
    s.map_values(|e: Arc<Entry>| e@)
}

/// The value stored for `k`: that of the last pair with key `k`.
pub open spec fn find(p: Seq<(Seq<u8>, Seq<u8>)>, k: Seq<u8>) -> Option<Seq<u8>>
    decreases p.len(),
{
    if p.len() == 0 {
        None
    } else if p.last().0 == k {
        Some(p.last().1)
    } else {
        find(p.drop_last(), k)
    }
}

/// `p` with every pair of key `k` left out, the others kept in order.
pub open spec fn strip(p: Seq<(Seq<u8>, Seq<u8>)>, k: Seq<u8>) -> Seq<(Seq<u8>, Seq<u8>)>
    decreases p.len(),
{
    if p.len() == 0 {
        p
    } else if p.last().0 == k {
        strip(p.drop_last(), k)
    } else {
        strip(p.drop_last(), k).push(p.last())
    }
}

/// `p` after storing `v` under `k`: the old pair for `k` leaves and the new
/// one goes to the end.
pub open spec fn upsert(p: Seq<(Seq<u8>, Seq<u8>)>, k: Seq<u8>, v: Seq<u8>) -> Seq<
    (Seq<u8>, Seq<u8>),
> {
    strip(p, k).push((k, v))
}

/// Number of pairs in `p` with key `k`.
pub open spec fn count_key(p: Seq<(Seq<u8>, Seq<u8>)>, k: Seq<u8>) -> nat
    decreases p.len(),
{
    if p.len() == 0 {
        0
    } else {
        count_key(p.drop_last(), k) + if p.last().0 == k { 1nat } else { 0nat }
    }
}

/// No two pairs of `p` have the same key.
pub open spec fn unique_keys(p: Seq<(Seq<u8>, Seq<u8>)>) -> bool {
    forall|i: int, j: int| 0 <= i < j < p.len() ==> (#[trigger] p[i]).0 != (#[trigger] p[j]).0
}

/// The key of every pair of `p` satisfies `f`.
pub open spec fn all_keys(p: Seq<(Seq<u8>, Seq<u8>)>, f: spec_fn(Seq<u8>) -> bool) -> bool {
    forall|i: int| 0 <= i < p.len() ==> f((#[trigger] p[i]).0)
}

proof fn lemma_strip_facts(p: Seq<(Seq<u8>, Seq<u8>)>, k: Seq<u8>, f: spec_fn(Seq<u8>) -> bool)
    ensures
        find(strip(p, k), k) is None,
        count_key(strip(p, k), k) == 0,
        forall|k2: Seq<u8>| k2 != k ==> find(strip(p, k), k2) == find(p, k2),
        all_keys(p, f) ==> all_keys(strip(p, k), f),
        unique_keys(p) ==> unique_keys(strip(p, k)),
        forall|i: int| 0 <= i < strip(p, k).len() ==> (#[trigger] strip(p, k)[i]).0 != k,
        unique_keys(p) ==> forall|i: int| 0 <= i < strip(p, k).len() ==> find(p, (#[trigger] strip(p, k)[i]).0) is Some,
        find(p, k) is None ==> strip(p, k) == p,
    decreases p.len(),
{
    if p.len() > 0 {
        let q = p.drop_last();
        lemma_strip_facts(q, k, f);
        if all_keys(p, f) {
            assert forall|i: int| 0 <= i < q.len() implies f((#[trigger] q[i]).0) by {
                assert(q[i] == p[i]);
            }
        }
        if unique_keys(p) {
            assert forall|i: int, j: int| 0 <= i < j < q.len() implies (#[trigger] q[i]).0 != (#[trigger] q[j]).0 by {
                assert(q[i] == p[i] && q[j] == p[j]);
            }
        }
        let s = strip(p, k);
        let t = strip(q, k);
        if p.last().0 != k {
            assert(s == t.push(p.last()));
            assert(s.drop_last() =~= t);
            assert(s.last() == p.last());
            assert forall|k2: Seq<u8>| k2 != k implies find(s, k2) == find(p, k2) by {
                if p.last().0 != k2 {
                    assert(find(s, k2) == find(s.drop_last(), k2));
                    assert(find(t, k2) == find(q, k2));
                    assert(find(p, k2) == find(q, k2));
                }
            }
            if all_keys(p, f) {
                assert forall|i: int| 0 <= i < s.len() implies f((#[trigger] s[i]).0) by {
                    if i < t.len() {
                        assert(s[i] == t[i]);
                    } else {
                        assert(s[i] == p[p.len() - 1]);
                    }
                }
            }
            if unique_keys(p) {
                assert forall|i: int| 0 <= i < t.len() implies find(q, (#[trigger] t[i]).0) is Some by {}
                assert forall|i: int| 0 <= i < t.len() implies (#[trigger] t[i]).0 != p.last().0 by {
                    lemma_find_index(q, t[i].0);
                    let j = choose|j: int| 0 <= j < q.len() && q[j].0 == t[i].0;
                    assert(p[j] == q[j]);
                    assert(p[p.len() - 1] == p.last());
                }
                assert forall|i: int, j: int| 0 <= i < j < s.len() implies (#[trigger] s[i]).0 != (#[trigger] s[j]).0 by {
                    assert(s[i] == t[i]);
                    if j < t.len() {
                        assert(s[j] == t[j]);
                    }
                }
                assert forall|i: int| 0 <= i < s.len() implies find(p, (#[trigger] s[i]).0) is Some by {
                    if i < t.len() {
                        assert(s[i] == t[i]);
                    }
                }
            }
            if find(p, k) is None {
                assert(find(q, k) is None);
            }
        } else {
            assert(s == t);
            assert forall|k2: Seq<u8>| k2 != k implies find(s, k2) == find(p, k2) by {
                assert(find(t, k2) == find(q, k2));
                assert(find(p, k2) == find(q, k2));
            }
            if unique_keys(p) {
                assert forall|i: int| 0 <= i < s.len() implies find(p, (#[trigger] s[i]).0) is Some by {
                    assert(s[i].0 != k);
                }
            }
        }
        assert forall|i: int| 0 <= i < s.len() implies (#[trigger] s[i]).0 != k by {
            if p.last().0 != k && i == t.len() {
                assert(s[i] == p.last());
            } else {
                assert(s[i] == t[i]);
            }
        }
    }
}

/// Storing `v` under `k` leaves exactly one pair for `k`, holding `v`, keeps
/// what the other keys find, and keeps keys unique.
pub proof fn lemma_upsert(p: Seq<(Seq<u8>, Seq<u8>)>, k: Seq<u8>, v: Seq<u8>)
    ensures
        find(upsert(p, k, v), k) == Some(v),
        count_key(upsert(p, k, v), k) == 1,
        forall|k2: Seq<u8>| k2 != k ==> find(upsert(p, k, v), k2) == find(p, k2),
        unique_keys(p) ==> unique_keys(upsert(p, k, v)),
{
    lemma_strip_facts(p, k, |x: Seq<u8>| true);
    let s = strip(p, k);
    let u = upsert(p, k, v);
    assert(u.drop_last() =~= s);
    assert forall|k2: Seq<u8>| k2 != k implies find(u, k2) == find(p, k2) by {
        assert(find(u, k2) == find(s, k2));
    }
    if unique_keys(p) {
        assert forall|i: int, j: int| 0 <= i < j < u.len() implies (#[trigger] u[i]).0 != (#[trigger] u[j]).0 by {
            assert(u[i] == s[i]);
            if j < s.len() {
                assert(u[j] == s[j]);
            }
        }
    }
}

/// Two writes to one key, one after the other: a lookup then finds the
/// second value, and exactly one pair for the key is left.
pub proof fn lemma_second_insert_wins(
    p: Seq<(Seq<u8>, Seq<u8>)>,
    k: Seq<u8>,
    v1: Seq<u8>,
    v2: Seq<u8>,
)
    ensures
        find(upsert(upsert(p, k, v1), k, v2), k) == Some(v2),
        count_key(upsert(upsert(p, k, v1), k, v2), k) == 1,
{
    lemma_upsert(upsert(p, k, v1), k, v2);
}

/// After a removal of `k` a lookup of `k` finds nothing; a removal of a key
/// that is absent finds nothing, as a lookup would, and changes nothing.
pub proof fn lemma_remove_then_lookup(p: Seq<(Seq<u8>, Seq<u8>)>, k: Seq<u8>)
    ensures
        find(strip(p, k), k) is None,
        count_key(strip(p, k), k) == 0,
        find(p, k) is None ==> strip(p, k) == p,
{
    lemma_strip_facts(p, k, |x: Seq<u8>| true);
}

/// Leaving out one key keeps the keys unique.
pub proof fn lemma_strip_unique(p: Seq<(Seq<u8>, Seq<u8>)>, k: Seq<u8>)
    requires
        unique_keys(p),
    ensures
        unique_keys(strip(p, k)),
{
    lemma_strip_facts(p, k, |x: Seq<u8>| true);
}

/// Every key of the result of `upsert` satisfies what every key of `p`
/// and `k` satisfy.
pub proof fn lemma_upsert_all_keys(p: Seq<(Seq<u8>, Seq<u8>)>, k: Seq<u8>, v: Seq<u8>, f: spec_fn(Seq<u8>) -> bool)
    requires
        all_keys(p, f),
    ensures
        f(k) ==> all_keys(upsert(p, k, v), f),
        all_keys(strip(p, k), f),
{
    lemma_strip_facts(p, k, f);
    let s = strip(p, k);
    let u = upsert(p, k, v);
    if f(k) {
        assert forall|i: int| 0 <= i < u.len() implies f((#[trigger] u[i]).0) by {
            if i < s.len() {
                assert(u[i] == s[i]);
            }
        }
    }
}

/// The entry of `entries` whose key holds the bytes of `key`, if any.
pub fn find_entry(entries: &Vec<Arc<Entry>>, key: &KeyValueView) -> (r: Option<Arc<Entry>>)
    ensures
        r is None <==> find(views(entries@), key@) is None,
        r matches Some(e) ==> e@.0 == key@ && find(views(entries@), key@) == Some(e@.1),
{
    let ghost p = views(entries@);
    let mut i: usize = entries.len();
    proof {
        assert(p.take(p.len() as int) =~= p);
    }
    while i > 0
        invariant
            i <= entries@.len(),
            p == views(entries@),
            find(p, key@) == find(p.take(i as int), key@),
        decreases i,
    {
        i = i - 1;
        let e = &entries[i];
        proof {
            assert(p.take(i + 1).drop_last() =~= p.take(i as int));
            assert(p.take(i + 1).last() == e@);
        }
        if e.key_matches(key) {
            return Some(e.clone());
        }
    }
    None
}

/// A new sequence: `entries` without the entry for `key`, the others kept
/// in order.
pub fn without_key(entries: &Vec<Arc<Entry>>, key: &KeyValueView) -> (r: Vec<Arc<Entry>>)
    ensures
        views(r@) == strip(views(entries@), key@),
{
    let ghost p = views(entries@);
    let mut out: Vec<Arc<Entry>> = Vec::new();
    let mut i: usize = 0;
    proof {
        assert(p.take(0) =~= Seq::<(Seq<u8>, Seq<u8>)>::empty());
        assert(views(out@) =~= Seq::<(Seq<u8>, Seq<u8>)>::empty());
    }
    while i < entries.len()
        invariant
            i <= entries@.len(),
            p == views(entries@),
            views(out@) == strip(p.take(i as int), key@),
        decreases entries@.len() - i,
    {
        let e = &entries[i];
        proof {
            assert(p.take(i + 1).drop_last() =~= p.take(i as int));
            assert(p.take(i + 1).last() == e@);
        }
        if !e.key_matches(key) {
            let ghost before = out@;
            out.push(e.clone());
            proof {
                assert(views(out@) =~= views(before).push(e@));
            }
        }
        i = i + 1;
    }
    proof {
        assert(p.take(i as int) =~= p);
    }
    out
}

/// A new sequence: `entries` with `entry` stored under its key. The entry
/// that held that key before, if any, leaves; the new one goes to the end.
pub fn with_entry(entries: &Vec<Arc<Entry>>, entry: Arc<Entry>) -> (r: Vec<Arc<Entry>>)
    ensures
        views(r@) == upsert(views(entries@), entry@.0, entry@.1),
{
    let mut out = without_key(entries, entry.key_ref());
    let ghost before = out@;
    out.push(entry);
    proof {
        assert(views(out@) =~= views(before).push(entry@));
    }
    out
}

proof fn lemma_find_index(p: Seq<(Seq<u8>, Seq<u8>)>, k: Seq<u8>)
    ensures
        find(p, k) is Some <==> exists|j: int| 0 <= j < p.len() && (#[trigger] p[j]).0 == k,
    decreases p.len(),
{
    if p.len() > 0 {
        let q = p.drop_last();
        lemma_find_index(q, k);
        if find(q, k) is Some {
            let j = choose|j: int| 0 <= j < q.len() && (#[trigger] q[j]).0 == k;
            assert(p[j] == q[j]);
        }
        if exists|j: int| 0 <= j < p.len() && (#[trigger] p[j]).0 == k {
            let j = choose|j: int| 0 <= j < p.len() && (#[trigger] p[j]).0 == k;
            if j < q.len() {
                assert(p[j] == q[j]);
            }
        }
    }
}

} // verus!
