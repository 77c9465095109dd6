//! Sequences of key/value pairs read as finite maps, with the later entry
//! for a key taking precedence.
use vstd::prelude::*;

verus! {

/// The map that a sequence of entries denotes: later entries win.
pub open spec fn keyed<K, V>(s: Seq<(K, V)>) -> Map<K, V>
    decreases s.len(),
{
    if s.len() == 0 {
        Map::empty()
    } else {
        keyed(s.drop_last()).insert(s.last().0, s.last().1)
    }
}

/// No key occurs twice in the sequence.
pub open spec fn keys_unique<K, V>(s: Seq<(K, V)>) -> bool {
    forall|i: int, j: int| 0 <= i < j < s.len() ==> s[i].0 != s[j].0
}

pub proof fn lemma_keyed_contains<K, V>(s: Seq<(K, V)>, k: K)
    ensures
        keyed(s).contains_key(k) <==> exists|i: int| 0 <= i < s.len() && s[i].0 == k,
    decreases s.len(),
{
    if s.len() > 0 {
        let d = s.drop_last();
        lemma_keyed_contains(d, k);
        if keyed(s).contains_key(k) && s.last().0 != k {
            let i = choose|i: int| 0 <= i < d.len() && d[i].0 == k;
            assert(s[i].0 == k);
        }
        if exists|i: int| 0 <= i < s.len() && s[i].0 == k {
            let i = choose|i: int| 0 <= i < s.len() && s[i].0 == k;
            if i < s.len() - 1 {
                assert(d[i].0 == k);
            }
        }
    }
}

pub proof fn lemma_keyed_index<K, V>(s: Seq<(K, V)>, i: int)
    requires
        keys_unique(s),
        0 <= i < s.len(),
    ensures
        keyed(s).contains_key(s[i].0),
        keyed(s)[s[i].0] == s[i].1,
    decreases s.len(),
{
    if i < s.len() - 1 {
        let d = s.drop_last();
        assert(d[i] == s[i]);
        lemma_keyed_index(d, i);
    }
}

pub proof fn lemma_keyed_push<K, V>(s: Seq<(K, V)>, e: (K, V))
    ensures
        keyed(s.push(e)) == keyed(s).insert(e.0, e.1),
{
    assert(s.push(e).drop_last() =~= s);
}

pub proof fn lemma_keyed_update<K, V>(s: Seq<(K, V)>, i: int, v: V)
    requires
        keys_unique(s),
        0 <= i < s.len(),
    ensures
        keyed(s.update(i, (s[i].0, v))) == keyed(s).insert(s[i].0, v),
        keys_unique(s.update(i, (s[i].0, v))),
    decreases s.len(),
{
    let k = s[i].0;
    let u = s.update(i, (k, v));
    let d = s.drop_last();
    if i == s.len() - 1 {
        assert(u.drop_last() =~= d);
        assert(keyed(u) =~= keyed(s).insert(k, v));
    } else {
        assert(u.drop_last() =~= d.update(i, (k, v)));
        lemma_keyed_update(d, i, v);
        assert(s.last().0 != k);
        assert(keyed(u) =~= keyed(s).insert(k, v));
    }
}

/// Removing the entry at `i`, whose key is unique, removes that key.
pub proof fn lemma_keyed_remove<K, V>(s: Seq<(K, V)>, i: int)
    requires
        keys_unique(s),
        0 <= i < s.len(),
    ensures
        keyed(s.remove(i)) == keyed(s).remove(s[i].0),
        keys_unique(s.remove(i)),
    decreases s.len(),
{
    let k = s[i].0;
    let r = s.remove(i);
    let d = s.drop_last();
    if i == s.len() - 1 {
        assert(r =~= d);
        lemma_keyed_contains(d, k);
        assert(!keyed(d).contains_key(k));
        assert(keyed(r) =~= keyed(s).remove(k));
    } else {
        assert(r.drop_last() =~= d.remove(i));
        lemma_keyed_remove(d, i);
        assert(s.last().0 != k);
        assert(keyed(r) =~= keyed(s).remove(k));
    }
}

} // verus!
