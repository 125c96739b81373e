//! Sequences of `(key, value)` records read as maps, when the keys are unique.
use vstd::prelude::*;

verus! {

/// No two records of `s` share a key.
pub open spec fn keys_unique<V>(s: Seq<(Seq<char>, V)>) -> bool {
    forall|i: int, j: int|
        0 <= i < s.len() && 0 <= j < s.len() && i != j ==> #[trigger] s[i].0 != #[trigger] s[j].0
}

/// The map that a sequence of records denotes: a later record wins over an earlier one.
pub open spec fn keyed_map<V>(s: Seq<(Seq<char>, V)>) -> Map<Seq<char>, V>
    decreases s.len(),
{
    if s.len() == 0 {
        Map::empty()
    } else {
        keyed_map(s.drop_last()).insert(s.last().0, s.last().1)
    }
}

pub proof fn lemma_keyed_domain<V>(s: Seq<(Seq<char>, V)>, k: Seq<char>)
    ensures
        keyed_map(s).contains_key(k) <==> exists|i: int| 0 <= i < s.len() && #[trigger] s[i].0 == k,
    decreases s.len(),
{
    if s.len() > 0 {
        lemma_keyed_domain(s.drop_last(), k);
        if keyed_map(s.drop_last()).contains_key(k) {
            let i = choose|i: int| 0 <= i < s.drop_last().len() && #[trigger] s.drop_last()[i].0 == k;
            assert(s[i].0 == k);
        }
        if exists|i: int| 0 <= i < s.len() && #[trigger] s[i].0 == k {
            let i = choose|i: int| 0 <= i < s.len() && #[trigger] s[i].0 == k;
            if i < s.len() - 1 {
                assert(s.drop_last()[i].0 == k);
            }
        }
    }
}

pub proof fn lemma_keyed_at<V>(s: Seq<(Seq<char>, V)>, i: int)
    requires
        keys_unique(s),
        0 <= i < s.len(),
    ensures
        keyed_map(s).contains_key(s[i].0),
        keyed_map(s)[s[i].0] == s[i].1,
    decreases s.len(),
{
    if i < s.len() - 1 {
        let t = s.drop_last();
        assert(keys_unique(t)) by {
            assert forall|a: int, b: int|
                0 <= a < t.len() && 0 <= b < t.len() && a != b implies #[trigger] t[a].0
                != #[trigger] t[b].0 by {
                assert(t[a] == s[a] && t[b] == s[b]);
            }
        }
        assert(t[i] == s[i]);
        lemma_keyed_at(t, i);
        assert(s.last() == s[s.len() - 1]);
    }
}

pub proof fn lemma_keyed_push<V>(s: Seq<(Seq<char>, V)>, e: (Seq<char>, V))
    ensures
        keyed_map(s.push(e)) == keyed_map(s).insert(e.0, e.1),
        keys_unique(s) && !keyed_map(s).contains_key(e.0) ==> keys_unique(s.push(e)),
{
    assert(s.push(e).drop_last() =~= s);
    if keys_unique(s) && !keyed_map(s).contains_key(e.0) {
        lemma_keyed_domain(s, e.0);
        let t = s.push(e);
        assert forall|a: int, b: int|
            0 <= a < t.len() && 0 <= b < t.len() && a != b implies #[trigger] t[a].0
            != #[trigger] t[b].0 by {
            if a < s.len() && b < s.len() {
                assert(t[a] == s[a] && t[b] == s[b]);
            } else if a < s.len() {
                assert(t[a] == s[a]);
            } else {
                assert(t[b] == s[b]);
            }
        }
    }
}

pub proof fn lemma_keyed_update<V>(s: Seq<(Seq<char>, V)>, i: int, v: V)
    requires
        keys_unique(s),
        0 <= i < s.len(),
    ensures
        keyed_map(s.update(i, (s[i].0, v))) == keyed_map(s).insert(s[i].0, v),
        keys_unique(s.update(i, (s[i].0, v))),
    decreases s.len(),
{
    let u = s.update(i, (s[i].0, v));
    assert forall|a: int, b: int|
        0 <= a < u.len() && 0 <= b < u.len() && a != b implies #[trigger] u[a].0
        != #[trigger] u[b].0 by {
        assert(u[a].0 == s[a].0 && u[b].0 == s[b].0);
    }
    let t = s.drop_last();
    assert(keys_unique(t)) by {
        assert forall|a: int, b: int|
            0 <= a < t.len() && 0 <= b < t.len() && a != b implies #[trigger] t[a].0
            != #[trigger] t[b].0 by {
            assert(t[a] == s[a] && t[b] == s[b]);
        }
    }
    if i == s.len() - 1 {
        assert(u.drop_last() =~= t);
        assert(keyed_map(u) =~= keyed_map(s).insert(s[i].0, v));
    } else {
        lemma_keyed_update(t, i, v);
        assert(u.drop_last() =~= t.update(i, (t[i].0, v)));
        assert(s.last().0 != s[i].0);
        assert(u.last() == s.last());
        assert(keyed_map(u) =~= keyed_map(s).insert(s[i].0, v));
    }
}

} // verus!
