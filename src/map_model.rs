//! Association lists read as finite maps.

use vstd::prelude::*;

verus! {

/// The map that an association list denotes; a later entry wins over an
/// earlier one with the same key.
pub open spec fn pairs_to_map<K, V>(s: Seq<(K, V)>) -> Map<K, V>
    decreases s.len(),
{
    if s.len() == 0 {
        Map::empty()
    } else {
        pairs_to_map(s.drop_last()).insert(s.last().0, s.last().1)
    }
}

/// No key occurs twice in the list.
pub open spec fn keys_unique<K, V>(s: Seq<(K, V)>) -> bool {
    forall|i: int, j: int| 0 <= i < j < s.len() ==> s[i].0 != s[j].0
}

/// Every key of the map comes from some entry of the list, and with unique
/// keys each entry is what the map holds for its key.
pub proof fn lemma_pairs_to_map<K, V>(s: Seq<(K, V)>)
    ensures
        forall|k: K| #[trigger]
            pairs_to_map(s).contains_key(k) ==> exists|i: int| 0 <= i < s.len() && s[i].0 == k,
        keys_unique(s) ==> forall|i: int|
            0 <= i < s.len() ==> #[trigger] pairs_to_map(s).contains_key(s[i].0)
                && pairs_to_map(s)[s[i].0] == s[i].1,
    decreases s.len(),
{
    if s.len() > 0 {
        let p = s.drop_last();
        lemma_pairs_to_map(p);
        assert(pairs_to_map(s) == pairs_to_map(p).insert(s.last().0, s.last().1));
        assert forall|k: K| #[trigger] pairs_to_map(s).contains_key(k) implies exists|i: int|
            0 <= i < s.len() && s[i].0 == k by {
            if k != s.last().0 {
                assert(pairs_to_map(p).contains_key(k));
                let i = choose|i: int| 0 <= i < p.len() && p[i].0 == k;
                assert(s[i] == p[i]);
            } else {
                assert(s[s.len() - 1].0 == k);
            }
        }
        if keys_unique(s) {
            assert(keys_unique(p)) by {
                assert forall|i: int, j: int| 0 <= i < j < p.len() implies p[i].0 != p[j].0 by {
                    assert(p[i] == s[i] && p[j] == s[j]);
                }
            }
            assert forall|i: int| 0 <= i < s.len() implies #[trigger] pairs_to_map(s).contains_key(
                s[i].0,
            ) && pairs_to_map(s)[s[i].0] == s[i].1 by {
                if i < s.len() - 1 {
                    assert(p[i] == s[i]);
                    assert(s[i].0 != s[s.len() - 1].0);
                }
            }
        }
    }
}

/// The last key of a list with unique keys does not occur in the rest.
pub proof fn lemma_last_key_fresh<K, V>(s: Seq<(K, V)>)
    requires
        s.len() > 0,
        keys_unique(s),
    ensures
        !pairs_to_map(s.drop_last()).contains_key(s.last().0),
{
    let p = s.drop_last();
    lemma_pairs_to_map(p);
    if pairs_to_map(p).contains_key(s.last().0) {
        let i = choose|i: int| 0 <= i < p.len() && p[i].0 == s.last().0;
        assert(s[i] == p[i]);
    }
}

/// A list with unique keys denotes `m` when its keys are exactly the keys
/// of `m` and each entry agrees with `m`.
pub proof fn lemma_pairs_denote<K, V>(s: Seq<(K, V)>, m: Map<K, V>)
    requires
        keys_unique(s),
        forall|k: K| m.contains_key(k) ==> exists|i: int| 0 <= i < s.len() && s[i].0 == k,
        forall|i: int| 0 <= i < s.len() ==> m.contains_key(#[trigger] s[i].0) && m[s[i].0] == s[i].1,
    ensures
        pairs_to_map(s) == m,
{
    lemma_pairs_to_map(s);
    assert forall|k: K| #[trigger] pairs_to_map(s).contains_key(k) == m.contains_key(k) by {
        if m.contains_key(k) {
            let i = choose|i: int| 0 <= i < s.len() && s[i].0 == k;
            assert(pairs_to_map(s).contains_key(s[i].0));
        }
        if pairs_to_map(s).contains_key(k) {
            let i = choose|i: int| 0 <= i < s.len() && s[i].0 == k;
            assert(m.contains_key(s[i].0));
        }
    }
    assert forall|k: K| pairs_to_map(s).contains_key(k) implies #[trigger] pairs_to_map(s)[k]
        == m[k] by {
        let i = choose|i: int| 0 <= i < s.len() && s[i].0 == k;
        assert(m.contains_key(s[i].0));
    }
    assert(pairs_to_map(s) =~= m);
}

} // verus!
