//! Association lists with unique keys, viewed as maps.
//!
//! The engine stores its profile-keyed tables as vectors of pairs; this
//! module relates those vectors to `Map` values and provides the verified
//! lookup, insert and remove operations.

use vstd::prelude::*;

verus! {

/// The map an association list denotes; a later entry wins, though the lists
/// the engine keeps never repeat a key.
pub open spec fn assoc_map(s: Seq<(u32, u32)>) -> Map<u32, u32>
    decreases s.len(),
{
    if s.len() == 0 {
        Map::empty()
    } else {
        assoc_map(s.drop_last()).insert(s.last().0, s.last().1)
    }
}

/// No key occurs twice.
pub open spec fn unique_keys(s: Seq<(u32, u32)>) -> bool {
    forall|i: int, j: int| 0 <= i < j < s.len() ==> s[i].0 != s[j].0
}

/// Some entry carries key `k`.
pub open spec fn has_key(s: Seq<(u32, u32)>, k: u32) -> bool {
    exists|i: int| 0 <= i < s.len() && s[i].0 == k
}

/// Some entry among the first `n` carries key `k`.
pub open spec fn has_key_upto(s: Seq<(u32, u32)>, n: int, k: u32) -> bool {
    exists|i: int| 0 <= i < n && i < s.len() && s[i].0 == k
}

/// `m.get(k)` written out, for contracts over `Map<u32, u32>`.
pub open spec fn mget(m: Map<u32, u32>, k: u32) -> Option<u32> {
    if m.dom().contains(k) {
        Some(m[k])
    } else {
        None
    }
}

/// The domain of the denoted map is exactly the set of keys on the list.
pub proof fn lemma_assoc_map_dom(s: Seq<(u32, u32)>, k: u32)
    ensures
        assoc_map(s).dom().contains(k) == has_key(s, k),
    decreases s.len(),
{
    if s.len() == 0 {
        assert(!has_key(s, k));
    } else {
        let t = s.drop_last();
        lemma_assoc_map_dom(t, k);
        if k == s.last().0 {
            assert(s[s.len() - 1].0 == k);
            assert(has_key(s, k));
        } else {
            if has_key(s, k) {
                let i = choose|i: int| 0 <= i < s.len() && s[i].0 == k;
                assert(t[i].0 == k);
                assert(has_key(t, k));
            }
            if has_key(t, k) {
                let i = choose|i: int| 0 <= i < t.len() && t[i].0 == k;
                assert(s[i].0 == k);
                assert(has_key(s, k));
            }
        }
    }
}

/// With unique keys, the denoted map sends each listed key to its listed
/// value.
pub proof fn lemma_assoc_map_get(s: Seq<(u32, u32)>, i: int)
    requires
        unique_keys(s),
        0 <= i < s.len(),
    ensures
        assoc_map(s).dom().contains(s[i].0),
        assoc_map(s)[s[i].0] == s[i].1,
    decreases s.len(),
{
    let t = s.drop_last();
    assert(unique_keys(t));
    if i == s.len() - 1 {
        assert(s.last() == s[i]);
    } else {
        assert(t[i] == s[i]);
        lemma_assoc_map_get(t, i);
        assert(s.last().0 != s[i].0);
    }
}

/// Filtering a unique-keyed list keeps it unique-keyed and introduces no new
/// keys.
pub proof fn lemma_filter_unique(s: Seq<(u32, u32)>, pred: spec_fn((u32, u32)) -> bool)
    requires
        unique_keys(s),
    ensures
        unique_keys(s.filter(pred)),
        forall|q: u32| has_key(s.filter(pred), q) ==> has_key(s, q),
    decreases s.len(),
{
    reveal(Seq::filter);
    if s.len() == 0 {
    } else {
        let t = s.drop_last();
        assert(unique_keys(t));
        lemma_filter_unique(t, pred);
        let e = s.last();
        assert forall|q: u32| has_key(t, q) implies has_key(s, q) by {
            let i = choose|i: int| 0 <= i < t.len() && t[i].0 == q;
            assert(s[i].0 == q);
        }
        if pred(e) {
            let f = t.filter(pred).push(e);
            assert(s.filter(pred) == f);
            assert(!has_key(t, e.0)) by {
                if has_key(t, e.0) {
                    let i = choose|i: int| 0 <= i < t.len() && t[i].0 == e.0;
                    assert(s[i].0 == e.0 && s[s.len() - 1].0 == e.0);
                }
            }
            assert forall|i: int, j: int| 0 <= i < j < f.len() implies f[i].0 != f[j].0 by {
                if j < f.len() - 1 {
                    assert(t.filter(pred)[i].0 != t.filter(pred)[j].0);
                } else {
                    assert(f[i] == t.filter(pred)[i]);
                    assert(has_key(t.filter(pred), f[i].0) ==> has_key(t, f[i].0));
                    if f[i].0 == e.0 {
                        assert(t.filter(pred)[i].0 == e.0);
                        assert(has_key(t.filter(pred), e.0));
                    }
                }
            }
            assert forall|q: u32| has_key(f, q) implies has_key(s, q) by {
                let i = choose|i: int| 0 <= i < f.len() && f[i].0 == q;
                if i < f.len() - 1 {
                    assert(t.filter(pred)[i].0 == q);
                    assert(has_key(t.filter(pred), q));
                } else {
                    assert(s[s.len() - 1].0 == q);
                }
            }
        } else {
            assert(s.filter(pred) == t.filter(pred));
        }
    }
}

/// What lookup in a filtered unique-keyed list yields: the old value, if its
/// entry passed the filter.
pub proof fn lemma_assoc_map_filter(s: Seq<(u32, u32)>, pred: spec_fn((u32, u32)) -> bool, k: u32)
    requires
        unique_keys(s),
    ensures
        mget(assoc_map(s.filter(pred)), k) == (if assoc_map(s).dom().contains(k) && pred(
            (k, assoc_map(s)[k]),
        ) {
            Some(assoc_map(s)[k])
        } else {
            None::<u32>
        }),
    decreases s.len(),
{
    reveal(Seq::filter);
    if s.len() == 0 {
        assert(s.filter(pred) == s);
    } else {
        let t = s.drop_last();
        assert(unique_keys(t));
        lemma_assoc_map_filter(t, pred, k);
        lemma_assoc_map_dom(t, k);
        let e = s.last();
        assert(e == (e.0, e.1));
        if pred(e) {
            assert((t.filter(pred).push(e)).drop_last() =~= t.filter(pred));
            assert((t.filter(pred).push(e)).last() == e);
            assert(assoc_map(s.filter(pred)) == assoc_map(t.filter(pred)).insert(e.0, e.1));
            if k != e.0 {
            }
        } else {
            if k == e.0 {
                assert(!has_key(t, k)) by {
                    if has_key(t, k) {
                        let i = choose|i: int| 0 <= i < t.len() && t[i].0 == k;
                        assert(s[i].0 == k && s[s.len() - 1].0 == k);
                    }
                }
            }
        }
    }
}

/// Looks a key up in a unique-keyed association list.
pub fn assoc_get(v: &Vec<(u32, u32)>, k: u32) -> (r: Option<u32>)
    requires
        unique_keys(v@),
    ensures
        r == mget(assoc_map(v@), k),
{
    let mut i: usize = 0;
    while i < v.len()
        invariant
            unique_keys(v@),
            i <= v@.len(),
            forall|j: int| 0 <= j < i ==> v@[j].0 != k,
        decreases v@.len() - i,
    {
        let e = v[i];
        if e.0 == k {
            proof {
                lemma_assoc_map_get(v@, i as int);
            }
            return Some(e.1);
        }
        i += 1;
    }
    proof {
        lemma_assoc_map_dom(v@, k);
        if has_key(v@, k) {
            let j = choose|j: int| 0 <= j < v@.len() && v@[j].0 == k;
        }
    }
    None
}

/// Removes the entry with key `k`, if present.
pub fn assoc_remove(v: &mut Vec<(u32, u32)>, k: u32)
    requires
        unique_keys(old(v)@),
    ensures
        unique_keys(final(v)@),
        assoc_map(final(v)@) == assoc_map(old(v)@).remove(k),
{
    let ghost v0 = v@;
    let ghost pred = |e: (u32, u32)| e.0 != k;
    let mut out: Vec<(u32, u32)> = Vec::new();
    let mut i: usize = 0;
    while i < v.len()
        invariant
            v@ == v0,
            i <= v0.len(),
            forall|e: (u32, u32)| #[trigger] pred(e) == (e.0 != k),
            out@ == v0.subrange(0, i as int).filter(pred),
        decreases v0.len() - i,
    {
        proof {
            reveal(Seq::filter);
            assert(v0.subrange(0, i + 1).drop_last() =~= v0.subrange(0, i as int));
            assert(v0.subrange(0, i + 1).last() == v0[i as int]);
        }
        let e = v[i];
        if e.0 != k {
            out.push(e);
        }
        i += 1;
    }
    proof {
        assert(v0.subrange(0, v0.len() as int) =~= v0);
        lemma_filter_unique(v0, pred);
        let mf = assoc_map(v0.filter(pred));
        let mr = assoc_map(v0).remove(k);
        assert forall|q: u32|
            (#[trigger] mf.dom().contains(q) == mr.dom().contains(q)) && (mr.dom().contains(q)
                ==> mf[q] == mr[q]) by {
            lemma_assoc_map_filter(v0, pred, q);
        }
        assert(mf =~= mr);
    }
    *v = out;
}

/// Binds `k` to `val`, replacing any existing entry for `k`.
pub fn assoc_set(v: &mut Vec<(u32, u32)>, k: u32, val: u32)
    requires
        unique_keys(old(v)@),
    ensures
        unique_keys(final(v)@),
        assoc_map(final(v)@) == assoc_map(old(v)@).insert(k, val),
{
    let ghost v0 = v@;
    assoc_remove(v, k);
    let ghost v1 = v@;
    v.push((k, val));
    proof {
        assert(v@.drop_last() =~= v1);
        assert(v@.last() == (k, val));
        assert(assoc_map(v@) == assoc_map(v1).insert(k, val));
        assert(assoc_map(v0).remove(k).insert(k, val) =~= assoc_map(v0).insert(k, val));
        lemma_assoc_map_dom(v1, k);
        assert(!has_key(v1, k)) by {
            if has_key(v1, k) {
                let i = choose|i: int| 0 <= i < v1.len() && v1[i].0 == k;
                assert(assoc_map(v1).dom().contains(k));
            }
        }
        assert forall|i: int, j: int| 0 <= i < j < v@.len() implies v@[i].0 != v@[j].0 by {
            if j == v@.len() - 1 {
                if v@[i].0 == k {
                    assert(v1[i].0 == k);
                    assert(has_key(v1, k));
                }
            } else {
                assert(v1[i].0 != v1[j].0);
            }
        }
    }
}

/// Whether some entry's value is `pid`.
pub fn assoc_has_value(v: &Vec<(u32, u32)>, pid: u32) -> (r: bool)
    ensures
        r == exists|i: int| 0 <= i < v@.len() && v@[i].1 == pid,
{
    let mut i: usize = 0;
    while i < v.len()
        invariant
            i <= v@.len(),
            forall|j: int| 0 <= j < i ==> v@[j].1 != pid,
        decreases v@.len() - i,
    {
        let e = v[i];
        if e.1 == pid {
            return true;
        }
        i += 1;
    }
    false
}

/// Whether `x` occurs in `v`.
pub fn vec_contains_u32(v: &Vec<u32>, x: u32) -> (r: bool)
    ensures
        r == v@.contains(x),
{
    let mut i: usize = 0;
    while i < v.len()
        invariant
            i <= v@.len(),
            forall|j: int| 0 <= j < i ==> v@[j] != x,
        decreases v@.len() - i,
    {
        if v[i] == x {
            return true;
        }
        i += 1;
    }
    false
}

/// All occurrences of a value, removed.
pub open spec fn seq_remove_all(s: Seq<u32>, x: u32) -> Seq<u32> {
    s.filter(|y: u32| y != x)
}

/// Removes every occurrence of `x` from `v`, keeping the order of the rest.
pub fn vec_remove_all(v: &mut Vec<u32>, x: u32)
    ensures
        final(v)@ == seq_remove_all(old(v)@, x),
{
    let ghost v0 = v@;
    let mut out: Vec<u32> = Vec::new();
    let mut i: usize = 0;
    while i < v.len()
        invariant
            v@ == v0,
            i <= v0.len(),
            out@ == seq_remove_all(v0.subrange(0, i as int), x),
        decreases v0.len() - i,
    {
        proof {
            reveal(Seq::filter);
            assert(v0.subrange(0, i + 1).drop_last() =~= v0.subrange(0, i as int));
            assert(v0.subrange(0, i + 1).last() == v0[i as int]);
        }
        let y = v[i];
        if y != x {
            out.push(y);
        }
        i += 1;
    }
    proof {
        assert(v0.subrange(0, v0.len() as int) =~= v0);
    }
    *v = out;
}

} // verus!
