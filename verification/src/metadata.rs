//! Record metadata: a map from keys to values.
use vstd::prelude::*;

verus! {

broadcast use vstd::string::group_string_axioms;

/// The map that a list of key and value pairs stands for; a later pair
/// replaces an earlier one with the same key.
pub open spec fn pairs_map(pairs: Seq<(String, String)>) -> Map<Seq<char>, Seq<char>>
    decreases pairs.len(),
{
    if pairs.len() == 0 {
        Map::empty()
    } else {
        pairs_map(pairs.drop_last()).insert(pairs.last().0@, pairs.last().1@)
    }
}

/// No key occurs twice.
pub open spec fn keys_distinct(pairs: Seq<(String, String)>) -> bool {
    forall|i: int, j: int|
        0 <= i < pairs.len() && 0 <= j < pairs.len() && i != j ==> (#[trigger] pairs[i]).0@ != (#[trigger] pairs[j]).0@
}

/// Replacing the pair of a key, in a list whose keys are distinct, replaces
/// that key's value in the map.
proof fn lemma_pairs_map_update(pairs: Seq<(String, String)>, j: int, p: (String, String))
    requires
        keys_distinct(pairs),
        0 <= j < pairs.len(),
        p.0@ == pairs[j].0@,
    ensures
        pairs_map(pairs.update(j, p)) == pairs_map(pairs).insert(p.0@, p.1@),
    decreases pairs.len(),
{
    let u = pairs.update(j, p);
    let t = pairs.drop_last();
    if j == pairs.len() - 1 {
        assert(u.drop_last() =~= t);
        assert(pairs_map(u) =~= pairs_map(pairs).insert(p.0@, p.1@));
    } else {
        assert(u.drop_last() =~= t.update(j, p));
        assert(keys_distinct(t)) by {
            assert forall|a: int, b: int| 0 <= a < t.len() && 0 <= b < t.len() && a != b implies (#[trigger] t[a]).0@ != (#[trigger] t[b]).0@ by {
                assert(t[a] == pairs[a]);
                assert(t[b] == pairs[b]);
            }
        }
        lemma_pairs_map_update(t, j, p);
        assert(pairs[pairs.len() - 1].0@ != pairs[j].0@);
        assert(u.last() == pairs.last());
        assert(pairs_map(u) =~= pairs_map(pairs).insert(p.0@, p.1@));
    }
}

/// Metadata of a record: a map from keys to values, kept as its entries in
/// the order their keys were first given.
#[derive(Debug)]
pub struct Metadata {
    entries: Vec<(String, String)>,
}

impl View for Metadata {
    type V = Map<Seq<char>, Seq<char>>;

    closed spec fn view(&self) -> Map<Seq<char>, Seq<char>> {
        pairs_map(self.entries@)
    }
}

impl Metadata {
    #[verifier::type_invariant]
    spec fn inv(self) -> bool {
        keys_distinct(self.entries@)
    }

    /// The entries, in the order their keys were first given.
    pub closed spec fn entries_view(self) -> Seq<(String, String)> {
        self.entries@
    }

    /// The metadata of the given pairs; a later pair replaces an earlier one
    /// with the same key.
    pub fn from_pairs(pairs: Vec<(String, String)>) -> (m: Self)
        ensures
            m@ == pairs_map(pairs@),
    {
        let ghost input = pairs@;
        let mut entries: Vec<(String, String)> = Vec::new();
        let ghost mut i: int = 0;
        for p in it: pairs.into_iter()
            invariant
                it.seq() == input,
                i == it.index(),
                keys_distinct(entries@),
                pairs_map(entries@) == pairs_map(input.take(i as int)),
        {
            proof {
                assert(input.take(i + 1).drop_last() =~= input.take(i as int));
                assert(input.take(i + 1).last() == p);
            }
            let mut j: usize = 0;
            let mut found = false;
            while j < entries.len()
                invariant_except_break
                    j <= entries@.len(),
                    !found,
                    forall|t: int| 0 <= t < j ==> (#[trigger] entries@[t]).0@ != p.0@,
                ensures
                    j <= entries@.len(),
                    found ==> j < entries@.len() && entries@[j as int].0@ == p.0@,
                    !found ==> j == entries@.len() && forall|t: int| 0 <= t < j ==> (#[trigger] entries@[t]).0@ != p.0@,
                decreases entries@.len() - j,
            {
                if entries[j].0 == p.0 {
                    found = true;
                    break;
                }
                j = j + 1;
            }
            if found {
                proof {
                    lemma_pairs_map_update(entries@, j as int, p);
                }
                let ghost before = entries@;
                entries.set(j, p);
                proof {
                    assert forall|a: int, b: int| 0 <= a < entries@.len() && 0 <= b < entries@.len() && a != b implies (#[trigger] entries@[a]).0@ != (#[trigger] entries@[b]).0@ by {
                        assert(entries@[a].0@ == before[a].0@);
                        assert(entries@[b].0@ == before[b].0@);
                    }
                }
            } else {
                let ghost before = entries@;
                entries.push(p);
                proof {
                    assert(entries@.drop_last() =~= before);
                    assert forall|a: int, b: int| 0 <= a < entries@.len() && 0 <= b < entries@.len() && a != b implies (#[trigger] entries@[a]).0@ != (#[trigger] entries@[b]).0@ by {
                        if a < before.len() {
                            assert(entries@[a] == before[a]);
                        }
                        if b < before.len() {
                            assert(entries@[b] == before[b]);
                        }
                    }
                }
            }
            proof {
                i = i + 1;
            }
        }
        proof {
            assert(input.take(i as int) =~= input);
        }
        Metadata { entries }
    }

    /// The entries, with distinct keys, in the order their keys were first given.
    pub fn entries(&self) -> (r: &Vec<(String, String)>)
        ensures
            r@ == self.entries_view(),
            keys_distinct(r@),
            pairs_map(r@) == self@,
    {
        proof {
            use_type_invariant(self);
        }
        &self.entries
    }
}

impl Clone for Metadata {
    /// The same entries.
    fn clone(&self) -> (r: Self)
        ensures
            r@ == self@,
            r.entries_view() == self.entries_view(),
    {
        proof {
            use_type_invariant(self);
        }
        let mut entries: Vec<(String, String)> = Vec::with_capacity(self.entries.len());
        let mut i: usize = 0;
        while i < self.entries.len()
            invariant
                i <= self.entries@.len(),
                entries@ == self.entries@.take(i as int),
            decreases self.entries@.len() - i,
        {
            let (k, v) = &self.entries[i];
            entries.push((k.clone(), v.clone()));
            i = i + 1;
            assert(entries@ =~= self.entries@.take(i as int));
        }
        assert(self.entries@.take(i as int) =~= self.entries@);
        Metadata { entries }
    }
}

} // verus!
