//! Selector sets: unordered maps from selector name to selector value.

use vstd::prelude::*;
use vstd::std_specs::cmp::PartialEqSpec;
use vstd::string::*;

use crate::key_order::{
    lemma_seq_less_asymmetric, lemma_seq_less_irreflexive, lemma_seq_less_total,
    lemma_seq_less_transitive, key_less, seq_less,
};
use crate::map_model::{
    keys_unique, lemma_last_key_fresh, lemma_pairs_denote, lemma_pairs_to_map, pairs_to_map,
};

verus! {

/// The entries are strictly ordered by key.
pub open spec fn sorted_keys(s: Seq<(Seq<char>, Seq<char>)>) -> bool {
    forall|i: int, j: int| 0 <= i < j < s.len() ==> seq_less(s[i].0, s[j].0)
}

proof fn lemma_sorted_keys_unique(s: Seq<(Seq<char>, Seq<char>)>)
    requires
        sorted_keys(s),
    ensures
        keys_unique(s),
{
    assert forall|i: int, j: int| 0 <= i < j < s.len() implies s[i].0 != s[j].0 by {
        lemma_seq_less_irreflexive(s[i].0);
    }
}

/// Two key-sorted lists that denote the same map are the same list.
pub proof fn lemma_sorted_canonical(s1: Seq<(Seq<char>, Seq<char>)>, s2: Seq<(Seq<char>, Seq<char>)>)
    requires
        sorted_keys(s1),
        sorted_keys(s2),
        pairs_to_map(s1) == pairs_to_map(s2),
    ensures
        s1 == s2,
    decreases s1.len() + s2.len(),
{
    lemma_sorted_keys_unique(s1);
    lemma_sorted_keys_unique(s2);
    lemma_pairs_to_map(s1);
    lemma_pairs_to_map(s2);
    let m = pairs_to_map(s1);
    if s1.len() == 0 || s2.len() == 0 {
        if s1.len() > 0 {
            assert(m.contains_key(s1[0].0));
        } else if s2.len() > 0 {
            assert(pairs_to_map(s2).contains_key(s2[0].0));
        }
        assert(s1 =~= s2);
    } else {
        let n1 = s1.len() - 1;
        let n2 = s2.len() - 1;
        let k1 = s1[n1].0;
        let k2 = s2[n2].0;
        assert(m.contains_key(k1));
        assert(pairs_to_map(s2).contains_key(k2));
        let j = choose|j: int| 0 <= j < s2.len() && s2[j].0 == k1;
        let i = choose|i: int| 0 <= i < s1.len() && s1[i].0 == k2;
        if k1 != k2 {
            assert(j < n2);
            assert(i < n1);
            assert(seq_less(k1, k2));
            assert(seq_less(k2, k1));
            lemma_seq_less_asymmetric(k1, k2);
        }
        assert(s1[n1].1 == m[k1]);
        assert(s2[n2].1 == m[k1]);
        let p1 = s1.drop_last();
        let p2 = s2.drop_last();
        lemma_last_key_fresh(s1);
        lemma_last_key_fresh(s2);
        assert(pairs_to_map(p1) =~= m.remove(k1));
        assert(pairs_to_map(p2) =~= m.remove(k1));
        lemma_sorted_canonical(p1, p2);
        assert(s1 =~= p1.push(s1[n1]));
        assert(s2 =~= p2.push(s2[n2]));
    }
}

/// A set of selector name/value pairs. Equality and hashing look at the
/// pairs alone, never at the order in which they were inserted: the entries
/// are kept sorted by name, so equal sets have identical entry lists.
#[derive(Clone, Debug, Eq, Hash)]
pub struct PHValsMap {
    entries: Vec<(String, String)>,
}

impl PHValsMap {
    /// The entries in their canonical order: exactly what `Hash` digests.
    pub closed spec fn pairs(&self) -> Seq<(Seq<char>, Seq<char>)> {
        self.entries@.map_values(|p: (String, String)| (p.0@, p.1@))
    }

    /// The entries are strictly sorted by key.
    pub closed spec fn well_formed(&self) -> bool {
        sorted_keys(self.pairs())
    }

    /// The entries of a well-formed set are its pairs listed once each, in
    /// strictly increasing name order: the one such listing of its map.
    pub proof fn lemma_pairs_canonical(&self)
        requires
            self.well_formed(),
        ensures
            sorted_keys(self.pairs()),
            keys_unique(self.pairs()),
            pairs_to_map(self.pairs()) == self@,
            forall|i: int|
                0 <= i < self.pairs().len() ==> #[trigger] self@.contains_key(self.pairs()[i].0)
                    && self@[self.pairs()[i].0] == self.pairs()[i].1,
            forall|k: Seq<char>| #[trigger]
                self@.contains_key(k) ==> exists|i: int|
                    0 <= i < self.pairs().len() && self.pairs()[i].0 == k,
            forall|s: Seq<(Seq<char>, Seq<char>)>|
                sorted_keys(s) && #[trigger] pairs_to_map(s) == self@ ==> s == self.pairs(),
    {
        lemma_sorted_keys_unique(self.pairs());
        lemma_pairs_to_map(self.pairs());
        assert forall|s: Seq<(Seq<char>, Seq<char>)>|
            sorted_keys(s) && #[trigger] pairs_to_map(s) == self@ implies s == self.pairs() by {
            lemma_sorted_canonical(s, self.pairs());
        }
    }

    /// The empty selector set.
    pub fn new() -> (r: PHValsMap)
        ensures
            r.well_formed(),
            r@ == Map::<Seq<char>, Seq<char>>::empty(),
            r.pairs() == Seq::<(Seq<char>, Seq<char>)>::empty(),
    {
        let r = PHValsMap { entries: Vec::new() };
        assert(r.pairs() =~= Seq::empty());
        r
    }

    /// Sets `key` to `value`, replacing any value it had.
    pub fn insert(&mut self, key: String, value: String)
        requires
            old(self).well_formed(),
        ensures
            final(self).well_formed(),
            final(self)@ == old(self)@.insert(key@, value@),
    {
        proof {
            lemma_sorted_keys_unique(self.pairs());
            lemma_pairs_to_map(self.pairs());
        }
        let ghost old_pairs = self.pairs();
        let n = self.entries.len();
        let mut i: usize = 0;
        while i < n && key_less(&self.entries[i].0, &key)
            invariant
                n == self.entries.len(),
                i <= n,
                old_pairs == self.pairs(),
                forall|j: int| 0 <= j < i ==> seq_less(old_pairs[j].0, key@),
            decreases n - i,
        {
            i = i + 1;
        }
        let ghost m = pairs_to_map(old_pairs).insert(key@, value@);
        if i < n && self.entries[i].0 == key {
            let ghost new_pairs = old_pairs.update(i as int, (key@, value@));
            assert(old_pairs[i as int].0 == key@);
            self.entries.set(i, (key, value));
            proof {
                assert(self.pairs() =~= new_pairs);
                assert(forall|j: int| 0 <= j < new_pairs.len() ==> new_pairs[j].0 == old_pairs[j].0);
                assert forall|k: Seq<char>| m.contains_key(k) implies exists|j: int|
                    0 <= j < new_pairs.len() && new_pairs[j].0 == k by {
                    if k != key@ {
                        let j = choose|j: int| 0 <= j < old_pairs.len() && old_pairs[j].0 == k;
                        assert(new_pairs[j].0 == k);
                    } else {
                        assert(new_pairs[i as int].0 == k);
                    }
                }
                assert forall|j: int| 0 <= j < new_pairs.len() implies m.contains_key(
                    #[trigger] new_pairs[j].0,
                ) && m[new_pairs[j].0] == new_pairs[j].1 by {
                    if j != i {
                        assert(new_pairs[j] == old_pairs[j]);
                        assert(old_pairs[j].0 != old_pairs[i as int].0);
                        assert(pairs_to_map(old_pairs).contains_key(old_pairs[j].0));
                    }
                }
                lemma_sorted_keys_unique(new_pairs);
                lemma_pairs_denote(new_pairs, m);
            }
        } else {
            let ghost new_pairs = old_pairs.insert(i as int, (key@, value@));
            proof {
                assert forall|j: int| i <= j < n implies seq_less(key@, #[trigger] old_pairs[j].0) by {
                    lemma_seq_less_total(key@, old_pairs[i as int].0);
                    if j > i {
                        lemma_seq_less_transitive(key@, old_pairs[i as int].0, old_pairs[j].0);
                    }
                }
                assert forall|j: int| 0 <= j < n implies old_pairs[j].0 != key@ by {
                    lemma_seq_less_irreflexive(key@);
                }
            }
            self.entries.insert(i, (key, value));
            proof {
                assert(self.pairs() =~= new_pairs);
                assert forall|a: int, b: int| 0 <= a < b < new_pairs.len() implies seq_less(
                    new_pairs[a].0,
                    new_pairs[b].0,
                ) by {
                    if b < i {
                    } else if b == i {
                    } else if a < i {
                        lemma_seq_less_transitive(new_pairs[a].0, key@, new_pairs[b].0);
                    } else if a == i {
                    } else {
                        assert(new_pairs[a] == old_pairs[a - 1]);
                        assert(new_pairs[b] == old_pairs[b - 1]);
                    }
                }
                assert forall|k: Seq<char>| m.contains_key(k) implies exists|j: int|
                    0 <= j < new_pairs.len() && new_pairs[j].0 == k by {
                    if k != key@ {
                        let j = choose|j: int| 0 <= j < old_pairs.len() && old_pairs[j].0 == k;
                        if j < i {
                            assert(new_pairs[j].0 == k);
                        } else {
                            assert(new_pairs[j + 1].0 == k);
                        }
                    } else {
                        assert(new_pairs[i as int].0 == k);
                    }
                }
                assert forall|j: int| 0 <= j < new_pairs.len() implies m.contains_key(
                    #[trigger] new_pairs[j].0,
                ) && m[new_pairs[j].0] == new_pairs[j].1 by {
                    if j < i {
                        assert(new_pairs[j] == old_pairs[j]);
                        assert(pairs_to_map(old_pairs).contains_key(old_pairs[j].0));
                    } else if j > i {
                        assert(new_pairs[j] == old_pairs[j - 1]);
                        assert(pairs_to_map(old_pairs).contains_key(old_pairs[j - 1].0));
                    }
                }
                lemma_sorted_keys_unique(new_pairs);
                lemma_pairs_denote(new_pairs, m);
            }
        }
    }
}

impl PHValsMap {
    /// The value of `key`, if the set has one.
    pub fn get(&self, key: &String) -> (r: Option<&String>)
        requires
            self.well_formed(),
        ensures
            match r {
                Some(v) => self@.contains_key(key@) && v@ == self@[key@],
                None => !self@.contains_key(key@),
            },
    {
        proof {
            lemma_sorted_keys_unique(self.pairs());
            lemma_pairs_to_map(self.pairs());
        }
        let n = self.entries.len();
        let mut i: usize = 0;
        while i < n
            invariant
                n == self.entries.len(),
                i <= n,
                self.well_formed(),
                forall|j: int| 0 <= j < i ==> self.pairs()[j].0 != key@,
            decreases n - i,
        {
            if self.entries[i].0 == *key {
                assert(self.pairs()[i as int].0 == key@);
                proof {
                    lemma_sorted_keys_unique(self.pairs());
                    lemma_pairs_to_map(self.pairs());
                }
                assert(self@.contains_key(self.pairs()[i as int].0));
                assert(self.entries@[i as int].1@ == self.pairs()[i as int].1);
                return Some(&self.entries[i].1);
            }
            i = i + 1;
        }
        proof {
            if self@.contains_key(key@) {
                let j = choose|j: int| 0 <= j < self.pairs().len() && self.pairs()[j].0 == key@;
            }
        }
        None
    }

    /// The catch-all selector set for this one: the same selector names,
    /// each with the value `"OTHER"`.
    pub fn catch_all(&self) -> (r: PHValsMap)
        requires
            self.well_formed(),
        ensures
            r.well_formed(),
            r@ == catch_all_of(self@),
    {
        proof {
            lemma_sorted_keys_unique(self.pairs());
            lemma_pairs_to_map(self.pairs());
        }
        let n = self.entries.len();
        let mut entries: Vec<(String, String)> = Vec::new();
        let mut i: usize = 0;
        while i < n
            invariant
                n == self.entries.len(),
                i <= n,
                entries@.len() == i,
                forall|j: int| 0 <= j < i ==> (#[trigger] entries@[j]).0@ == self.pairs()[j].0
                    && entries@[j].1@ == other_value(),
            decreases n - i,
        {
            let value = String::from_str("OTHER");
            proof {
                reveal_strlit("OTHER");
            }
            entries.push((self.entries[i].0.clone(), value));
            i = i + 1;
        }
        let r = PHValsMap { entries };
        proof {
            let rp = r.pairs();
            let sp = self.pairs();
            assert(forall|j: int| 0 <= j < n ==> rp[j].0 == sp[j].0);
            assert(sorted_keys(rp));
            lemma_sorted_keys_unique(rp);
            let m = catch_all_of(self@);
            assert forall|k: Seq<char>| m.contains_key(k) implies exists|j: int|
                0 <= j < rp.len() && rp[j].0 == k by {
                let j = choose|j: int| 0 <= j < sp.len() && sp[j].0 == k;
                assert(rp[j].0 == k);
            }
            assert forall|j: int| 0 <= j < rp.len() implies m.contains_key(#[trigger] rp[j].0)
                && m[rp[j].0] == rp[j].1 by {
                assert(self@.contains_key(sp[j].0));
            }
            lemma_pairs_denote(rp, m);
        }
        r
    }

    /// The set written as `{name:value, ...}`, in name order.
    pub fn to_string(&self) -> (r: String)
        ensures
            r@ == seq!['{'] + pairs_text(self.pairs()) + seq!['}'],
    {
        let n = self.entries.len();
        let mut out = String::from_str("{");
        proof {
            reveal_strlit("{");
            reveal_strlit(", ");
            reveal_strlit(":");
            reveal_strlit("}");
        }
        let mut i: usize = 0;
        while i < n
            invariant
                n == self.entries.len(),
                i <= n,
                out@ == seq!['{'] + pairs_text(self.pairs().take(i as int)),
            decreases n - i,
        {
            let ghost before = out@;
            proof {
                reveal_strlit(", ");
                reveal_strlit(":");
            }
            if i > 0 {
                out.append(", ");
            }
            out.append(self.entries[i].0.as_str());
            out.append(":");
            out.append(self.entries[i].1.as_str());
            proof {
                let t = self.pairs().take(i + 1);
                assert(t.drop_last() =~= self.pairs().take(i as int));
                assert(t.last() == self.pairs()[i as int]);
                let p = self.pairs()[i as int];
                assert(p.0 == self.entries@[i as int].0@ && p.1 == self.entries@[i as int].1@);
                if i == 0 {
                    assert(pairs_text(t) == pair_text(t[0]));
                    assert(out@ =~= before + pair_text(p));
                } else {
                    assert(out@ =~= before + seq![',', ' '] + pair_text(p));
                }
                assert(out@ =~= seq!['{'] + pairs_text(t));
            }
            i = i + 1;
        }
        proof {
            reveal_strlit("}");
        }
        out.append("}");
        assert(self.pairs().take(n as int) =~= self.pairs());
        out
    }
}

/// The value that names the catch-all variant of a selector.
pub open spec fn other_value() -> Seq<char> {
    seq!['O', 'T', 'H', 'E', 'R']
}

/// Every selector of `m` set to the catch-all value.
pub open spec fn catch_all_of(m: Map<Seq<char>, Seq<char>>) -> Map<Seq<char>, Seq<char>> {
    Map::new(|k: Seq<char>| m.contains_key(k), |k: Seq<char>| other_value())
}

/// One entry written as `name:value`.
pub open spec fn pair_text(p: (Seq<char>, Seq<char>)) -> Seq<char> {
    p.0 + seq![':'] + p.1
}

/// The entries written one after another, separated by `", "`.
pub open spec fn pairs_text(s: Seq<(Seq<char>, Seq<char>)>) -> Seq<char>
    decreases s.len(),
{
    if s.len() == 0 {
        Seq::empty()
    } else if s.len() == 1 {
        pair_text(s[0])
    } else {
        pairs_text(s.drop_last()) + seq![',', ' '] + pair_text(s.last())
    }
}

impl PartialEq for PHValsMap {
    fn eq(&self, other: &PHValsMap) -> (r: bool) {
        let n = self.entries.len();
        if n != other.entries.len() {
            return false;
        }
        let mut i: usize = 0;
        while i < n
            invariant
                n == self.entries.len(),
                n == other.entries.len(),
                i <= n,
                forall|j: int| 0 <= j < i ==> self.pairs()[j] == other.pairs()[j],
            decreases n - i,
        {
            if self.entries[i].0 != other.entries[i].0 || self.entries[i].1 != other.entries[i].1 {
                assert(self.pairs()[i as int] != other.pairs()[i as int]);
                return false;
            }
            i = i + 1;
        }
        assert(self.pairs() =~= other.pairs());
        true
    }
}

impl vstd::std_specs::cmp::PartialEqSpecImpl for PHValsMap {
    open spec fn obeys_eq_spec() -> bool {
        true
    }

    open spec fn eq_spec(&self, other: &PHValsMap) -> bool {
        self.pairs() == other.pairs()
    }
}

/// Two well-formed selector sets that hold the same name/value pairs, however
/// they were built, compare equal and have the same canonical entries, which
/// is all that their hash is computed from.
pub proof fn lemma_same_pairs_equal(a: PHValsMap, b: PHValsMap)
    requires
        a.well_formed(),
        b.well_formed(),
        a@ == b@,
    ensures
        a.eq_spec(&b),
        a.pairs() == b.pairs(),
{
    lemma_sorted_canonical(a.pairs(), b.pairs());
}

/// Two selector sets that differ in some name or value, case included, do
/// not compare equal.
pub proof fn lemma_different_pairs_unequal(a: PHValsMap, b: PHValsMap)
    requires
        a@ != b@,
    ensures
        !a.eq_spec(&b),
{
}

impl View for PHValsMap {
    type V = Map<Seq<char>, Seq<char>>;

    open spec fn view(&self) -> Map<Seq<char>, Seq<char>> {
        pairs_to_map(self.pairs())
    }
}

} // verus!
