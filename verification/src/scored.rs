//! Scored node lists: pairs of a distance key and a node index, ordered
//! lexicographically (by key, then by index), with the small list operations
//! the graph search needs.
use vstd::prelude::*;
use vstd::multiset::Multiset;

verus! {

broadcast use vstd::seq_lib::group_to_multiset_ensures, vstd::multiset::group_multiset_axioms;

/// Lexicographic order on `(key, node)` pairs.
pub open spec fn scored_le(a: (u32, usize), b: (u32, usize)) -> bool {
    a.0 < b.0 || (a.0 == b.0 && a.1 <= b.1)
}

/// Smallest key of a list of scored nodes (0 for the empty list).
pub open spec fn min_key(s: Seq<(u32, usize)>) -> u32
    decreases s.len(),
{
    if s.len() == 0 {
        0
    } else if s.len() == 1 {
        s[0].0
    } else {
        let m = min_key(s.drop_last());
        if s.last().0 < m {
            s.last().0
        } else {
            m
        }
    }
}

/// The node indices of a scored list, in order.
pub open spec fn node_ids(s: Seq<(u32, usize)>) -> Seq<usize> {
    s.map_values(|p: (u32, usize)| p.1)
}

/// No node index occurs twice in the list.
pub open spec fn distinct_nodes(s: Seq<(u32, usize)>) -> bool {
    forall|a: int, b: int| 0 <= a < s.len() && 0 <= b < s.len() && a != b ==> #[trigger] s[a].1 != #[trigger] s[b].1
}

/// The list is sorted by `scored_le`.
pub open spec fn sorted_scored(s: Seq<(u32, usize)>) -> bool {
    forall|a: int, b: int| 0 <= a < b < s.len() ==> scored_le(#[trigger] s[a], #[trigger] s[b])
}

pub proof fn lemma_min_key(s: Seq<(u32, usize)>)
    requires
        s.len() >= 1,
    ensures
        forall|k: int| 0 <= k < s.len() ==> min_key(s) <= #[trigger] s[k].0,
        exists|k: int| 0 <= k < s.len() && s[k].0 == min_key(s),
    decreases s.len(),
{
    if s.len() == 1 {
        assert(s[0].0 == min_key(s));
    } else {
        let t = s.drop_last();
        lemma_min_key(t);
        let k0 = choose|k: int| 0 <= k < t.len() && t[k].0 == min_key(t);
        assert forall|k: int| 0 <= k < s.len() implies min_key(s) <= #[trigger] s[k].0 by {
            if k < s.len() - 1 {
                assert(s[k] == t[k]);
            }
        }
        if s.last().0 < min_key(t) {
            assert(s[s.len() - 1].0 == min_key(s));
        } else {
            assert(s[k0] == t[k0]);
        }
    }
}

pub proof fn lemma_min_key_push(s: Seq<(u32, usize)>, x: (u32, usize))
    ensures
        min_key(s.push(x)) == if s.len() == 0 {
            x.0
        } else if x.0 < min_key(s) {
            x.0
        } else {
            min_key(s)
        },
{
    assert(s.push(x).drop_last() =~= s);
}

/// Removing an element of largest key from a list of two or more keeps its
/// smallest key.
pub proof fn lemma_min_key_remove_max(s: Seq<(u32, usize)>, i: int)
    requires
        s.len() >= 2,
        0 <= i < s.len(),
        forall|k: int| 0 <= k < s.len() ==> #[trigger] s[k].0 <= s[i].0,
    ensures
        min_key(s.remove(i)) == min_key(s),
{
    let r = s.remove(i);
    lemma_min_key(s);
    lemma_min_key(r);
    let kr = choose|k: int| 0 <= k < r.len() && r[k].0 == min_key(r);
    let ks = choose|k: int| 0 <= k < s.len() && s[k].0 == min_key(s);
    if kr < i {
        assert(r[kr] == s[kr]);
    } else {
        assert(r[kr] == s[kr + 1]);
    }
    if ks < i {
        assert(r[ks] == s[ks]);
    } else if ks > i {
        assert(r[ks - 1] == s[ks]);
    } else {
        let other = if i == 0 { 1int } else { 0int };
        assert(s[other].0 <= s[i].0);
        if other < i {
            assert(r[other] == s[other]);
        } else {
            assert(r[other - 1] == s[other]);
        }
    }
}

/// Index of the smallest pair (by `scored_le`).
pub fn position_of_min(v: &Vec<(u32, usize)>) -> (p: usize)
    requires
        v@.len() >= 1,
    ensures
        p < v@.len(),
        forall|k: int| 0 <= k < v@.len() ==> scored_le(v@[p as int], #[trigger] v@[k]),
{
    let mut p: usize = 0;
    let mut i: usize = 1;
    while i < v.len()
        invariant
            1 <= i <= v@.len(),
            p < i,
            forall|k: int| 0 <= k < i ==> scored_le(v@[p as int], #[trigger] v@[k]),
        decreases v@.len() - i,
    {
        let a = v[i];
        let b = v[p];
        if a.0 < b.0 || (a.0 == b.0 && a.1 < b.1) {
            p = i;
        }
        i = i + 1;
    }
    p
}

/// Index of the largest pair (by `scored_le`).
pub fn position_of_max(v: &Vec<(u32, usize)>) -> (p: usize)
    requires
        v@.len() >= 1,
    ensures
        p < v@.len(),
        forall|k: int| 0 <= k < v@.len() ==> scored_le(#[trigger] v@[k], v@[p as int]),
{
    let mut p: usize = 0;
    let mut i: usize = 1;
    while i < v.len()
        invariant
            1 <= i <= v@.len(),
            p < i,
            forall|k: int| 0 <= k < i ==> scored_le(#[trigger] v@[k], v@[p as int]),
        decreases v@.len() - i,
    {
        let a = v[i];
        let b = v[p];
        if a.0 > b.0 || (a.0 == b.0 && a.1 > b.1) {
            p = i;
        }
        i = i + 1;
    }
    p
}

/// Sorts a scored list by `scored_le`; the result is a permutation of the input.
pub fn sort_scored(v: Vec<(u32, usize)>) -> (out: Vec<(u32, usize)>)
    ensures
        sorted_scored(out@),
        out@.to_multiset() == v@.to_multiset(),
        out@.len() == v@.len(),
{
    let ghost input = v@;
    let mut work = v;
    let mut out: Vec<(u32, usize)> = Vec::new();
    while work.len() > 0
        invariant
            out@.to_multiset().add(work@.to_multiset()) == input.to_multiset(),
            out@.len() + work@.len() == input.len(),
            sorted_scored(out@),
            forall|a: int, b: int|
                0 <= a < out@.len() && 0 <= b < work@.len() ==> scored_le(
                    #[trigger] out@[a],
                    #[trigger] work@[b],
                ),
        decreases work@.len(),
    {
        let p = position_of_min(&work);
        let ghost before = work@;
        let x = work.remove(p);
        assert(before.remove(p as int) == work@);
        assert(before[p as int] == x);
        assert(work@.to_multiset() =~= before.to_multiset().remove(x));
        assert forall|b: int| 0 <= b < work@.len() implies scored_le(x, #[trigger] work@[b]) by {
            if b < p {
                assert(work@[b] == before[b]);
            } else {
                assert(work@[b] == before[b + 1]);
            }
        }
        let ghost out_before = out@;
        out.push(x);
        assert(out@.to_multiset() =~= out_before.to_multiset().insert(x));
        assert forall|a: int, b: int|
            0 <= a < out@.len() && 0 <= b < work@.len() implies scored_le(
            #[trigger] out@[a],
            #[trigger] work@[b],
        ) by {
            if a < out_before.len() {
                if b < p {
                    assert(work@[b] == before[b]);
                } else {
                    assert(work@[b] == before[b + 1]);
                }
            }
        }
        assert forall|a: int, b: int| 0 <= a < b < out@.len() implies scored_le(
            #[trigger] out@[a],
            #[trigger] out@[b],
        ) by {
            if b == out@.len() - 1 {
                assert(scored_le(out_before[a], before[p as int]));
            }
        }
        assert(out@.to_multiset().add(work@.to_multiset()) =~= input.to_multiset());
    }
    assert(work@.to_multiset() =~= Multiset::empty());
    assert(out@.to_multiset() =~= input.to_multiset());
    out
}

/// A permutation keeps the set of elements.
pub proof fn lemma_perm_contains(a: Seq<(u32, usize)>, b: Seq<(u32, usize)>, x: (u32, usize))
    requires
        a.to_multiset() == b.to_multiset(),
    ensures
        a.contains(x) <==> b.contains(x),
{
    assert(a.contains(x) <==> a.to_multiset().count(x) > 0);
    assert(b.contains(x) <==> b.to_multiset().count(x) > 0);
}

/// A permutation keeps the absence of duplicates.
pub proof fn lemma_perm_no_duplicates(a: Seq<(u32, usize)>, b: Seq<(u32, usize)>)
    requires
        a.to_multiset() == b.to_multiset(),
        a.no_duplicates(),
    ensures
        b.no_duplicates(),
{
    a.lemma_multiset_has_no_duplicates();
    b.lemma_multiset_has_no_duplicates_conv();
}

} // verus!
