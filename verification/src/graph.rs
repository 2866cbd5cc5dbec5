//! Records and the layered proximity graph they form, with the two graph
//! walks of the HNSW index (the greedy descent and the best-first beam
//! search on one layer) and the linking of a new node into a layer.
use std::collections::HashSet;
use vstd::prelude::*;
use crate::scored::{distinct_nodes, lemma_min_key, lemma_min_key_push, lemma_min_key_remove_max, lemma_perm_contains, lemma_perm_no_duplicates, min_key, node_ids, position_of_max, position_of_min, scored_le, sort_scored, sorted_scored};

verus! {

broadcast use vstd::std_specs::hash::group_hash_axioms;

pub use crate::metadata::Metadata;

/// Maximum number of links a new node gets on each layer.
pub const M: usize = 16;

/// Maximum number of links a node keeps on layer 0.
pub const M_MAX_0: usize = 32;

/// Beam width used while linking a new node.
pub const EF_CONSTRUCTION: usize = 100;

/// Beam width used when answering a query.
pub const EF_SEARCH: usize = 50;

/// A stored vector with its user id, its index in the collection, optional
/// metadata, and one neighbour list per graph layer it takes part in.
#[derive(Debug)]
pub struct Record<E> {
    pub id: String,
    pub mapped_id: usize,
    pub embeddings: E,
    pub metadata: Option<Metadata>,
    pub layers: Vec<Vec<usize>>,
}

impl<E> Record<E> {
    /// A record not yet linked: `max_layer + 1` empty neighbour lists and a
    /// placeholder index of 0.
    pub fn new(id: String, embeddings: E, metadata: Option<Metadata>, max_layer: usize) -> (r: Self)
        requires
            max_layer < usize::MAX,
        ensures
            r.id == id,
            r.embeddings == embeddings,
            r.metadata == metadata,
            r.mapped_id == 0,
            r.layers@.len() == max_layer + 1,
            r.unlinked(),
    {
        Record { id, embeddings, mapped_id: 0, metadata, layers: empty_layers(max_layer + 1) }
    }

    /// At least one layer, and no neighbours on any layer.
    pub open spec fn unlinked(&self) -> bool {
        &&& self.layers@.len() >= 1
        &&& forall|l: int| 0 <= l < self.layers@.len() ==> (#[trigger] self.layers@[l])@.len() == 0
    }
}

/// `count` empty neighbour lists.
pub fn empty_layers(count: usize) -> (layers: Vec<Vec<usize>>)
    ensures
        layers@.len() == count,
        forall|l: int| 0 <= l < count ==> (#[trigger] layers@[l])@.len() == 0,
{
    let mut layers: Vec<Vec<usize>> = Vec::with_capacity(count);
    let mut i: usize = 0;
    while i < count
        invariant
            i <= count,
            layers@.len() == i,
            forall|l: int| 0 <= l < i ==> (#[trigger] layers@[l])@.len() == 0,
        decreases count - i,
    {
        layers.push(Vec::new());
        i = i + 1;
    }
    layers
}

/// A copy of a neighbour list.
fn copy_links(list: &Vec<usize>) -> (r: Vec<usize>)
    ensures
        r@ == list@,
{
    let mut r: Vec<usize> = Vec::with_capacity(list.len());
    let mut i: usize = 0;
    while i < list.len()
        invariant
            i <= list@.len(),
            r@ == list@.take(i as int),
        decreases list@.len() - i,
    {
        r.push(list[i]);
        i = i + 1;
        assert(r@ =~= list@.take(i as int));
    }
    assert(list@.take(i as int) =~= list@);
    r
}

impl<E: Clone> Clone for Record<E> {
    /// A record with the same id, index, metadata and neighbour lists, and a
    /// clone of the vector.
    fn clone(&self) -> (r: Self)
        ensures
            r.id == self.id,
            r.mapped_id == self.mapped_id,
            cloned(self.embeddings, r.embeddings),
            match (r.metadata, self.metadata) {
                (Some(a), Some(b)) => a@ == b@,
                (None, None) => true,
                _ => false,
            },
            r.layers@.len() == self.layers@.len(),
            forall|l: int| 0 <= l < self.layers@.len() ==> (#[trigger] r.layers@[l])@ == self.layers@[l]@,
    {
        let mut layers: Vec<Vec<usize>> = Vec::with_capacity(self.layers.len());
        let mut i: usize = 0;
        while i < self.layers.len()
            invariant
                i <= self.layers@.len(),
                layers@.len() == i,
                forall|l: int| 0 <= l < i ==> (#[trigger] layers@[l])@ == self.layers@[l]@,
            decreases self.layers@.len() - i,
        {
            layers.push(copy_links(&self.layers[i]));
            i = i + 1;
        }
        let metadata = match &self.metadata {
            Some(m) => Some(m.clone()),
            None => None,
        };
        Record { id: self.id.clone(), mapped_id: self.mapped_id, embeddings: self.embeddings.clone(), metadata, layers }
    }
}

// ------------------------------ distances ------------------------------
/// What the HNSW walks ask of a distance function: it can be called on any
/// two vectors and gives one key for each pair. Smaller keys are closer.
pub open spec fn metric_ok<E, F: Fn(&E, &E) -> u32>(f: F) -> bool {
    &&& forall|a: E, b: E| #[trigger] call_requires(f, (&a, &b))
    &&& forall|a: E, b: E, x: u32, y: u32|
        #[trigger] call_ensures(f, (&a, &b), x) && #[trigger] call_ensures(f, (&a, &b), y) ==> x == y
}

/// `d` is the distance key that `f` gives for `(a, b)`.
pub open spec fn measured<E, F: Fn(&E, &E) -> u32>(f: F, a: E, b: E, d: u32) -> bool {
    call_ensures(f, (&a, &b), d)
}

// ------------------------------ graph shape ------------------------------
/// Node `i` exists and takes part in layer `l`.
pub open spec fn has_layer<E>(vs: Seq<Record<E>>, i: int, l: int) -> bool {
    0 <= i < vs.len() && 0 <= l < vs[i].layers@.len()
}

/// Neighbour list of node `i` on layer `l`.
pub open spec fn links<E>(vs: Seq<Record<E>>, i: int, l: int) -> Seq<usize> {
    vs[i].layers@[l]@
}

/// Some node lists `x` as a neighbour on layer `l`.
pub open spec fn linked_at<E>(vs: Seq<Record<E>>, l: int, x: usize) -> bool {
    exists|v: int, m: int| has_layer(vs, v, l) && 0 <= m < links(vs, v, l).len() && #[trigger] links(vs, v, l)[m] == x
}

/// Largest neighbour list allowed on layer `l`.
pub open spec fn max_degree(l: int) -> int {
    if l == 0 {
        M_MAX_0 as int
    } else {
        M as int
    }
}

/// Every link points to another existing node that takes part in the same layer.
pub open spec fn links_valid<E>(vs: Seq<Record<E>>) -> bool {
    forall|i: int, l: int, k: int|
        has_layer(vs, i, l) && 0 <= k < links(vs, i, l).len() ==> {
            let j = #[trigger] links(vs, i, l)[k];
            &&& (j as int) < vs.len()
            &&& j as int != i
            &&& has_layer(vs, j as int, l)
        }
}

/// Neighbour lists hold no repeats and stay within the degree bound of their layer.
pub open spec fn degrees_bounded<E>(vs: Seq<Record<E>>) -> bool {
    forall|i: int, l: int|
        #![trigger links(vs, i, l)]
        has_layer(vs, i, l) ==> links(vs, i, l).len() <= max_degree(l) && links(vs, i, l).no_duplicates()
}

/// Every node sits at its own index and takes part in layer 0.
pub open spec fn nodes_indexed<E>(vs: Seq<Record<E>>) -> bool {
    forall|i: int| 0 <= i < vs.len() ==> (#[trigger] vs[i]).mapped_id == i && vs[i].layers@.len() >= 1
}

/// Well-formed layered graph with its entry point and top layer.
pub open spec fn graph_wf<E>(vs: Seq<Record<E>>, entry: Option<usize>, top: usize) -> bool {
    &&& nodes_indexed(vs)
    &&& links_valid(vs)
    &&& degrees_bounded(vs)
    &&& (entry is None <==> vs.len() == 0)
    &&& (vs.len() == 0 ==> top == 0)
    &&& (entry matches Some(e) ==> has_layer(vs, e as int, top as int))
}

/// Every neighbour of `node` on layer `l` is at least `bound` away from `q`.
pub open spec fn neighbours_no_closer<E, F: Fn(&E, &E) -> u32>(
    f: F,
    vs: Seq<Record<E>>,
    q: E,
    node: int,
    l: int,
    bound: u32,
) -> bool {
    has_layer(vs, node, l) ==> forall|m: int, d: u32|
        0 <= m < links(vs, node, l).len() && #[trigger] measured(f, vs[links(vs, node, l)[m] as int].embeddings, q, d)
            ==> bound <= d
}

/// Neighbour `j` of node `n` on layer `l` links back to `n`, or its list was
/// cut to the layer's bound keeping only nodes no farther from `j` than `n`.
pub open spec fn linked_back<E, F: Fn(&E, &E) -> u32>(f: F, vs: Seq<Record<E>>, n: int, j: int, l: int) -> bool {
    ||| links(vs, j, l).contains(n as usize)
    ||| {
        &&& links(vs, j, l).len() == max_degree(l)
        &&& forall|a: int, da: u32, dn: u32|
            0 <= a < links(vs, j, l).len() && #[trigger] measured(f, vs[links(vs, j, l)[a] as int].embeddings, vs[j].embeddings, da)
                && #[trigger] measured(f, vs[n].embeddings, vs[j].embeddings, dn) ==> da <= dn
    }
}

/// Node `n` has just been joined to layer `l`: it has between one and `M`
/// neighbours there, listed closest first (by the key `f` gives between each
/// neighbour and `n`), and each neighbour links back to `n` unless its own
/// list was cut to the layer's bound in favour of closer nodes.
pub open spec fn joined<E, F: Fn(&E, &E) -> u32>(f: F, vs: Seq<Record<E>>, n: int, l: int) -> bool {
    &&& has_layer(vs, n, l)
    &&& 1 <= links(vs, n, l).len() <= M
    &&& forall|a: int, b: int, da: u32, db: u32|
        0 <= a < b < links(vs, n, l).len() && #[trigger] measured(f, vs[links(vs, n, l)[a] as int].embeddings, vs[n].embeddings, da)
            && #[trigger] measured(f, vs[links(vs, n, l)[b] as int].embeddings, vs[n].embeddings, db) ==> da <= db
    &&& forall|k: int| 0 <= k < links(vs, n, l).len() ==> #[trigger] linked_back(f, vs, n, links(vs, n, l)[k] as int, l)
}

/// `list` is what the neighbour list `cands` of node `j` is cut to: its
/// entries, without repeats, ordered by (key to `j`, index), and no entry of
/// `cands` left out comes before one kept in that order.
pub open spec fn cut_to<E, F: Fn(&E, &E) -> u32>(f: F, vs: Seq<Record<E>>, list: Seq<usize>, j: int, cands: Seq<usize>) -> bool {
    &&& list.no_duplicates()
    &&& forall|k: int| 0 <= k < list.len() ==> cands.contains(#[trigger] list[k])
    &&& forall|a: int, b: int, da: u32, db: u32|
        0 <= a < b < list.len() && #[trigger] measured(f, vs[list[a] as int].embeddings, vs[j].embeddings, da)
            && #[trigger] measured(f, vs[list[b] as int].embeddings, vs[j].embeddings, db) ==> scored_le((da, list[a]), (db, list[b]))
    &&& forall|a: int, y: usize, da: u32, dy: u32|
        0 <= a < list.len() && cands.contains(y) && !list.contains(y)
            && #[trigger] measured(f, vs[list[a] as int].embeddings, vs[j].embeddings, da)
            && #[trigger] measured(f, vs[y as int].embeddings, vs[j].embeddings, dy) ==> scored_le((da, list[a]), (dy, y))
}

/// What linking `n` into layer `l` does to the list of its neighbour `j`:
/// `n` is appended, and a list that this takes past the layer's bound is cut
/// back to the bound (see `cut_to`).
pub open spec fn neighbour_updated<E, F: Fn(&E, &E) -> u32>(f: F, a: Seq<Record<E>>, b: Seq<Record<E>>, n: int, j: int, l: int) -> bool {
    if links(a, j, l).len() < max_degree(l) {
        links(b, j, l) == links(a, j, l).push(n as usize)
    } else {
        links(b, j, l).len() == max_degree(l) && cut_to(f, b, links(b, j, l), j, links(a, j, l).push(n as usize))
    }
}

/// Linking node `n` into layer `l` changed, of the other nodes' lists on
/// that layer, only those of `n`'s neighbours, each as `neighbour_updated` says.
pub open spec fn layer_linked<E, F: Fn(&E, &E) -> u32>(f: F, a: Seq<Record<E>>, b: Seq<Record<E>>, n: int, l: int) -> bool {
    &&& forall|j: int|
        has_layer(a, j, l) && j != n && !links(b, n, l).contains(j as usize) ==> #[trigger] links(b, j, l) == links(a, j, l)
    &&& forall|k: int| 0 <= k < links(b, n, l).len() ==> #[trigger] neighbour_updated(f, a, b, n, links(b, n, l)[k] as int, l)
}

/// Cutting a list is stated over the vectors alone.
pub proof fn lemma_cut_to_payload<E, F: Fn(&E, &E) -> u32>(
    f: F,
    a: Seq<Record<E>>,
    b: Seq<Record<E>>,
    list: Seq<usize>,
    j: int,
    cands: Seq<usize>,
)
    requires
        cut_to(f, a, list, j, cands),
        same_payload(a, b),
        0 <= j < a.len(),
        forall|k: int| 0 <= k < cands.len() ==> (#[trigger] cands[k] as int) < a.len(),
    ensures
        cut_to(f, b, list, j, cands),
{
    assert forall|k: int| 0 <= k < list.len() implies (#[trigger] list[k] as int) < a.len() by {
        assert(cands.contains(list[k]));
    }
    assert forall|x: int, y: int, dx: u32, dy: u32|
        0 <= x < y < list.len() && #[trigger] measured(f, b[list[x] as int].embeddings, b[j].embeddings, dx)
            && #[trigger] measured(f, b[list[y] as int].embeddings, b[j].embeddings, dy) implies scored_le((dx, list[x]), (dy, list[y])) by {
        assert(b[list[x] as int].embeddings == a[list[x] as int].embeddings);
        assert(b[list[y] as int].embeddings == a[list[y] as int].embeddings);
        assert(b[j].embeddings == a[j].embeddings);
        assert(measured(f, a[list[x] as int].embeddings, a[j].embeddings, dx));
    }
    assert forall|x: int, y: usize, dx: u32, dy: u32|
        0 <= x < list.len() && cands.contains(y) && !list.contains(y)
            && #[trigger] measured(f, b[list[x] as int].embeddings, b[j].embeddings, dx)
            && #[trigger] measured(f, b[y as int].embeddings, b[j].embeddings, dy) implies scored_le((dx, list[x]), (dy, y)) by {
        let w = choose|w: int| 0 <= w < cands.len() && cands[w] == y;
        assert(b[list[x] as int].embeddings == a[list[x] as int].embeddings);
        assert(b[y as int].embeddings == a[y as int].embeddings);
        assert(b[j].embeddings == a[j].embeddings);
        assert(measured(f, a[list[x] as int].embeddings, a[j].embeddings, dx));
    }
}

/// No neighbour list that holds a link in `a` is empty in `b`.
pub open spec fn kept_linked<E>(a: Seq<Record<E>>, b: Seq<Record<E>>) -> bool {
    forall|i: int, l: int| has_layer(a, i, l) && links(a, i, l).len() > 0 ==> #[trigger] links(b, i, l).len() > 0
}

/// Linking back survives changes that keep every vector and the neighbour
/// list of `j` on layer `l`.
pub proof fn lemma_linked_back_frame<E, F: Fn(&E, &E) -> u32>(f: F, a: Seq<Record<E>>, b: Seq<Record<E>>, n: int, j: int, l: int)
    requires
        linked_back(f, a, n, j, l),
        links_valid(a),
        has_layer(a, j, l),
        0 <= n < a.len(),
        same_payload(a, b),
        links(b, j, l) == links(a, j, l),
    ensures
        linked_back(f, b, n, j, l),
{
    let lj = links(a, j, l);
    if !lj.contains(n as usize) {
        assert forall|x: int, da: u32, dn: u32|
            0 <= x < links(b, j, l).len() && #[trigger] measured(f, b[links(b, j, l)[x] as int].embeddings, b[j].embeddings, da)
                && #[trigger] measured(f, b[n].embeddings, b[j].embeddings, dn) implies da <= dn by {
            assert(links(a, j, l)[x] == lj[x]);
            assert(b[lj[x] as int].embeddings == a[lj[x] as int].embeddings);
            assert(b[j].embeddings == a[j].embeddings);
            assert(b[n].embeddings == a[n].embeddings);
            assert(measured(f, a[links(a, j, l)[x] as int].embeddings, a[j].embeddings, da));
        }
    }
}

/// Being joined to a layer survives changes that keep every vector and every
/// neighbour list of that layer.
pub proof fn lemma_joined_frame<E, F: Fn(&E, &E) -> u32>(f: F, a: Seq<Record<E>>, b: Seq<Record<E>>, n: int, l: int)
    requires
        joined(f, a, n, l),
        links_valid(a),
        same_payload(a, b),
        forall|j: int| has_layer(a, j, l) ==> #[trigger] links(b, j, l) == links(a, j, l),
    ensures
        joined(f, b, n, l),
{
    let na = links(a, n, l);
    assert(links(b, n, l) == na);
    assert forall|k: int| 0 <= k < na.len() implies has_layer(a, #[trigger] na[k] as int, l) by {
        assert(links(a, n, l)[k] == na[k]);
    }
    assert forall|a1: int, b1: int, da: u32, db: u32|
        0 <= a1 < b1 < links(b, n, l).len() && #[trigger] measured(f, b[links(b, n, l)[a1] as int].embeddings, b[n].embeddings, da)
            && #[trigger] measured(f, b[links(b, n, l)[b1] as int].embeddings, b[n].embeddings, db) implies da <= db by {
        assert(has_layer(a, na[a1] as int, l));
        assert(has_layer(a, na[b1] as int, l));
        assert(b[na[a1] as int].embeddings == a[na[a1] as int].embeddings);
        assert(b[na[b1] as int].embeddings == a[na[b1] as int].embeddings);
        assert(b[n].embeddings == a[n].embeddings);
        assert(measured(f, a[links(a, n, l)[a1] as int].embeddings, a[n].embeddings, da));
    }
    assert forall|k: int| 0 <= k < links(b, n, l).len() implies #[trigger] linked_back(f, b, n, links(b, n, l)[k] as int, l) by {
        let j = na[k] as int;
        assert(links(a, n, l)[k] == na[k]);
        assert(has_layer(a, j, l));
        assert(linked_back(f, a, n, j, l));
        lemma_linked_back_frame(f, a, b, n, j, l);
    }
}

// ------------------------------ walks ------------------------------
/// Greedy walk on one layer: from `start`, move to a closer neighbour of the
/// current node while there is one. Returns the node where it stops and its key.
pub fn greedy_closest<E, F: Fn(&E, &E) -> u32>(
    vs: &Vec<Record<E>>,
    query: &E,
    start: usize,
    layer: usize,
    metric: &F,
) -> (res: (usize, u32))
    requires
        metric_ok::<E, F>(*metric),
        links_valid(vs@),
        has_layer(vs@, start as int, layer as int),
    ensures
        has_layer(vs@, res.0 as int, layer as int),
        measured(*metric, vs@[res.0 as int].embeddings, *query, res.1),
        forall|d: u32| measured(*metric, vs@[start as int].embeddings, *query, d) ==> res.1 <= d,
        neighbours_no_closer(*metric, vs@, *query, res.0 as int, layer as int, res.1),
        res.0 == start || linked_at(vs@, layer as int, res.0),
{
    let mut current = start;
    let mut best = metric(&vs[current].embeddings, query);
    let ghost start_key = best;
    loop
        invariant
            metric_ok::<E, F>(*metric),
            links_valid(vs@),
            has_layer(vs@, current as int, layer as int),
            measured(*metric, vs@[current as int].embeddings, *query, best),
            measured(*metric, vs@[start as int].embeddings, *query, start_key),
            best <= start_key,
            current == start || linked_at(vs@, layer as int, current),
        decreases best,
    {
        let ghost round_start = best;
        let ghost round_node = current;
        let mut moved = false;
        let node = &vs[current];
        if layer < node.layers.len() {
            let nbrs = &node.layers[layer];
            let mut k: usize = 0;
            while k < nbrs.len()
                invariant
                    metric_ok::<E, F>(*metric),
                    links_valid(vs@),
                    has_layer(vs@, round_node as int, layer as int),
                    nbrs@ == links(vs@, round_node as int, layer as int),
                    k <= nbrs@.len(),
                    has_layer(vs@, current as int, layer as int),
                    measured(*metric, vs@[current as int].embeddings, *query, best),
                    best <= round_start,
                    moved ==> best < round_start,
                    !moved ==> current == round_node && best == round_start,
                    current == start || linked_at(vs@, layer as int, current),
                    forall|m: int, d: u32|
                        0 <= m < k && #[trigger] measured(
                            *metric,
                            vs@[links(vs@, round_node as int, layer as int)[m] as int].embeddings,
                            *query,
                            d,
                        ) ==> best <= d,
                decreases nbrs@.len() - k,
            {
                let nb = nbrs[k];
                assert(links(vs@, round_node as int, layer as int)[k as int] == nb);
                let d = metric(&vs[nb].embeddings, query);
                if d < best {
                    best = d;
                    current = nb;
                    moved = true;
                }
                k = k + 1;
            }
        }
        if !moved {
            return (current, best);
        }
    }
}

/// Some entry of `s` is node `x`.
pub open spec fn holds_node(s: Seq<(u32, usize)>, x: usize) -> bool {
    exists|k: int| 0 <= k < s.len() && s[k].1 == x
}

/// The state of a beam search of width `ef` that has visited `visited` and
/// holds `results`: every visited node left out of the results is no closer
/// to `q` than any result, and nodes are only left out once the results
/// number at least `ef`.
pub open spec fn beam_ok<E, F: Fn(&E, &E) -> u32>(f: F, vs: Seq<Record<E>>, q: E, visited: Set<usize>, results: Seq<(u32, usize)>, ef: usize) -> bool {
    &&& forall|x: usize, k: int, d: u32|
        #![trigger visited.contains(x), results[k], measured(f, vs[x as int].embeddings, q, d)]
        visited.contains(x) && !holds_node(results, x) && 0 <= k < results.len() && measured(f, vs[x as int].embeddings, q, d) ==> results[k].0 <= d
    &&& forall|x: usize| #[trigger] visited.contains(x) && !holds_node(results, x) ==> results.len() >= ef
}

/// `x` is one of `entry_points`, or can be reached from one in at most `n`
/// steps along neighbour lists of layer `l`.
pub open spec fn reach_within<E>(vs: Seq<Record<E>>, entry_points: Seq<usize>, l: int, x: usize, n: nat) -> bool
    decreases n,
{
    if n == 0 {
        entry_points.contains(x)
    } else {
        reach_within(vs, entry_points, l, x, (n - 1) as nat) || exists|y: usize, m: int|
            reach_within(vs, entry_points, l, y, (n - 1) as nat) && has_layer(vs, y as int, l) && 0 <= m < links(vs, y as int, l).len()
                && #[trigger] links(vs, y as int, l)[m] == x
    }
}

/// `x` is one of `entry_points` or can be reached from one along neighbour
/// lists of layer `l`.
pub open spec fn reachable<E>(vs: Seq<Record<E>>, entry_points: Seq<usize>, l: int, x: usize) -> bool {
    exists|n: nat| #[trigger] reach_within(vs, entry_points, l, x, n)
}

/// Node `x` exists and takes part in layer `l` or is one of `entry_points`.
pub open spec fn node_ok<E>(vs: Seq<Record<E>>, entry_points: Seq<usize>, x: int, l: int) -> bool {
    0 <= x < vs.len() && (has_layer(vs, x, l) || entry_points.contains(x as usize))
}

/// `results` is what a beam search of width `ef` on layer `l` from
/// `entry_points` ends with: some explored set of nodes, each an entry point
/// or reachable from one on the layer, holds the entry points, the results
/// and every neighbour of every result; no
/// explored node left out of the results is closer to `q` than a result; and
/// nodes are left out only when there are at least `ef` results.
pub open spec fn beam_result<E, F: Fn(&E, &E) -> u32>(
    f: F,
    vs: Seq<Record<E>>,
    q: E,
    entry_points: Seq<usize>,
    l: int,
    ef: usize,
    results: Seq<(u32, usize)>,
) -> bool {
    exists|v: Set<usize>|
        {
            &&& forall|k: int| 0 <= k < entry_points.len() ==> v.contains(#[trigger] entry_points[k])
            &&& forall|k: int| 0 <= k < results.len() ==> v.contains((#[trigger] results[k]).1) && expanded(vs, v, results[k].1 as int, l)
            &&& forall|x: usize| v.contains(x) ==> node_ok(vs, entry_points, x as int, l) && reachable(vs, entry_points, l, x)
            &&& #[trigger] beam_ok(f, vs, q, v, results, ef)
        }
}

/// A beam search result may be given in any order.
proof fn lemma_beam_result_perm<E, F: Fn(&E, &E) -> u32>(
    f: F,
    vs: Seq<Record<E>>,
    q: E,
    entry_points: Seq<usize>,
    l: int,
    ef: usize,
    a: Seq<(u32, usize)>,
    b: Seq<(u32, usize)>,
)
    requires
        beam_result(f, vs, q, entry_points, l, ef, a),
        a.to_multiset() == b.to_multiset(),
        a.len() == b.len(),
        distinct_nodes(a),
    ensures
        beam_result(f, vs, q, entry_points, l, ef, b),
{
    let v = choose|v: Set<usize>|
        {
            &&& forall|k: int| 0 <= k < entry_points.len() ==> v.contains(#[trigger] entry_points[k])
            &&& forall|k: int| 0 <= k < a.len() ==> v.contains((#[trigger] a[k]).1) && expanded(vs, v, a[k].1 as int, l)
            &&& forall|x: usize| v.contains(x) ==> node_ok(vs, entry_points, x as int, l) && reachable(vs, entry_points, l, x)
            &&& #[trigger] beam_ok(f, vs, q, v, a, ef)
        };
    lemma_perm_distinct_nodes(a, b);
    assert forall|x: usize| holds_node(a, x) <==> holds_node(b, x) by {
        if holds_node(a, x) {
            let k = choose|k: int| 0 <= k < a.len() && a[k].1 == x;
            assert(a.contains(a[k]));
            let j = choose|j: int| 0 <= j < b.len() && b[j] == a[k];
        }
        if holds_node(b, x) {
            let k = choose|k: int| 0 <= k < b.len() && b[k].1 == x;
            assert(b.contains(b[k]));
            let j = choose|j: int| 0 <= j < a.len() && a[j] == b[k];
        }
    }
    assert forall|k: int| 0 <= k < b.len() implies v.contains((#[trigger] b[k]).1) && expanded(vs, v, b[k].1 as int, l) by {
        assert(b.contains(b[k]));
        let j = choose|j: int| 0 <= j < a.len() && a[j] == b[k];
    }
    assert forall|x: usize, k: int, d: u32|
        #![trigger v.contains(x), b[k], measured(f, vs[x as int].embeddings, q, d)]
        v.contains(x) && !holds_node(b, x) && 0 <= k < b.len() && measured(f, vs[x as int].embeddings, q, d) implies b[k].0 <= d by {
        assert(b.contains(b[k]));
        let j = choose|j: int| 0 <= j < a.len() && a[j] == b[k];
    }
    assert(beam_ok(f, vs, q, v, b, ef));
}

proof fn lemma_reach_results<E, F: Fn(&E, &E) -> u32>(
    f: F,
    vs: Seq<Record<E>>,
    q: E,
    entry_points: Seq<usize>,
    l: int,
    ef: usize,
    results: Seq<(u32, usize)>,
    v: Set<usize>,
    x: usize,
    n: nat,
)
    requires
        forall|k: int| 0 <= k < entry_points.len() ==> v.contains(#[trigger] entry_points[k]),
        forall|k: int| 0 <= k < results.len() ==> v.contains((#[trigger] results[k]).1) && expanded(vs, v, results[k].1 as int, l),
        beam_ok(f, vs, q, v, results, ef),
        results.len() < ef,
        reach_within(vs, entry_points, l, x, n),
    ensures
        holds_node(results, x),
    decreases n,
{
    if n == 0 {
        let k = choose|k: int| 0 <= k < entry_points.len() && entry_points[k] == x;
        assert(v.contains(entry_points[k]));
    } else if reach_within(vs, entry_points, l, x, (n - 1) as nat) {
        lemma_reach_results(f, vs, q, entry_points, l, ef, results, v, x, (n - 1) as nat);
    } else {
        let (y, m) = choose|y: usize, m: int|
            reach_within(vs, entry_points, l, y, (n - 1) as nat) && has_layer(vs, y as int, l) && 0 <= m < links(vs, y as int, l).len()
                && #[trigger] links(vs, y as int, l)[m] == x;
        lemma_reach_results(f, vs, q, entry_points, l, ef, results, v, y, (n - 1) as nat);
        let k = choose|k: int| 0 <= k < results.len() && results[k].1 == y;
        assert(expanded(vs, v, results[k].1 as int, l));
        assert(v.contains(links(vs, y as int, l)[m]));
    }
}

/// A beam search that ends with fewer results than its width has returned
/// every node reachable from its entry points on the layer (and, by
/// `beam_result`, only such nodes).
pub proof fn law_narrow_beam_finds_reachable<E, F: Fn(&E, &E) -> u32>(
    f: F,
    vs: Seq<Record<E>>,
    q: E,
    entry_points: Seq<usize>,
    l: int,
    ef: usize,
    results: Seq<(u32, usize)>,
    x: usize,
)
    requires
        beam_result(f, vs, q, entry_points, l, ef, results),
        results.len() < ef,
        reachable(vs, entry_points, l, x),
    ensures
        holds_node(results, x),
{
    let v = choose|v: Set<usize>|
        {
            &&& forall|k: int| 0 <= k < entry_points.len() ==> v.contains(#[trigger] entry_points[k])
            &&& forall|k: int| 0 <= k < results.len() ==> v.contains((#[trigger] results[k]).1) && expanded(vs, v, results[k].1 as int, l)
            &&& forall|x: usize| v.contains(x) ==> node_ok(vs, entry_points, x as int, l) && reachable(vs, entry_points, l, x)
            &&& #[trigger] beam_ok(f, vs, q, v, results, ef)
        };
    let n = choose|n: nat| #[trigger] reach_within(vs, entry_points, l, x, n);
    lemma_reach_results(f, vs, q, entry_points, l, ef, results, v, x, n);
}

proof fn lemma_reach_frame<E>(a: Seq<Record<E>>, b: Seq<Record<E>>, entry_points: Seq<usize>, l: int, x: usize, n: nat)
    requires
        reach_within(a, entry_points, l, x, n),
        forall|k: int| 0 <= k < entry_points.len() ==> (#[trigger] entry_points[k] as int) < b.len(),
        b.len() <= a.len(),
        forall|j: int| 0 <= j < b.len() ==> (#[trigger] a[j]).layers@.len() == b[j].layers@.len(),
        forall|j: int| 0 <= j < b.len() && has_layer(a, j, l) ==> #[trigger] links(a, j, l) == links(b, j, l),
        forall|j: int| b.len() <= j < a.len() && has_layer(a, j, l) ==> links(a, j, l).len() == 0,
        !linked_at(a, l, b.len() as usize) || b.len() == a.len(),
        b.len() + 1 >= a.len(),
        links_valid(a),
    ensures
        (x as int) < b.len(),
        reach_within(b, entry_points, l, x, n),
    decreases n,
{
    if n == 0 {
        let k = choose|k: int| 0 <= k < entry_points.len() && entry_points[k] == x;
    } else if reach_within(a, entry_points, l, x, (n - 1) as nat) {
        lemma_reach_frame(a, b, entry_points, l, x, (n - 1) as nat);
    } else {
        let (y, m) = choose|y: usize, m: int|
            reach_within(a, entry_points, l, y, (n - 1) as nat) && has_layer(a, y as int, l) && 0 <= m < links(a, y as int, l).len()
                && #[trigger] links(a, y as int, l)[m] == x;
        lemma_reach_frame(a, b, entry_points, l, y, (n - 1) as nat);
        assert(links(a, y as int, l) == links(b, y as int, l));
        if (x as int) >= b.len() {
            assert(has_layer(a, y as int, l) && 0 <= m < links(a, y as int, l).len());
            assert((x as int) < a.len());
            assert(x as int == b.len() && b.len() < a.len());
            assert(linked_at(a, l, x));
        }
        assert(links(b, y as int, l)[m] == x);
    }
}

/// A beam search result on layer `l` stays one when the records change only
/// by a last record that no node of the layer links to and that has no links
/// there, or by neighbour lists of other layers.
pub proof fn lemma_beam_result_frame<E, F: Fn(&E, &E) -> u32>(
    f: F,
    a: Seq<Record<E>>,
    b: Seq<Record<E>>,
    q: E,
    entry_points: Seq<usize>,
    l: int,
    ef: usize,
    results: Seq<(u32, usize)>,
)
    requires
        beam_result(f, a, q, entry_points, l, ef, results),
        forall|k: int| 0 <= k < entry_points.len() ==> (#[trigger] entry_points[k] as int) < b.len(),
        b.len() <= a.len(),
        b.len() + 1 >= a.len(),
        forall|j: int| 0 <= j < b.len() ==> (#[trigger] a[j]).layers@.len() == b[j].layers@.len() && a[j].embeddings == b[j].embeddings,
        forall|j: int| 0 <= j < b.len() && has_layer(a, j, l) ==> #[trigger] links(a, j, l) == links(b, j, l),
        forall|j: int| b.len() <= j < a.len() && has_layer(a, j, l) ==> links(a, j, l).len() == 0,
        !linked_at(a, l, b.len() as usize) || b.len() == a.len(),
        links_valid(a),
    ensures
        beam_result(f, b, q, entry_points, l, ef, results),
{
    let v = choose|v: Set<usize>|
        {
            &&& forall|k: int| 0 <= k < entry_points.len() ==> v.contains(#[trigger] entry_points[k])
            &&& forall|k: int| 0 <= k < results.len() ==> v.contains((#[trigger] results[k]).1) && expanded(a, v, results[k].1 as int, l)
            &&& forall|x: usize| v.contains(x) ==> node_ok(a, entry_points, x as int, l) && reachable(a, entry_points, l, x)
            &&& #[trigger] beam_ok(f, a, q, v, results, ef)
        };
    assert forall|x: usize| v.contains(x) implies (x as int) < b.len() && node_ok(b, entry_points, x as int, l) && reachable(b, entry_points, l, x) by {
        let n = choose|n: nat| #[trigger] reach_within(a, entry_points, l, x, n);
        lemma_reach_frame(a, b, entry_points, l, x, n);
        assert(a[x as int].layers@.len() == b[x as int].layers@.len());
    }
    assert forall|k: int| 0 <= k < results.len() implies v.contains((#[trigger] results[k]).1) && expanded(b, v, results[k].1 as int, l) by {
        let y = results[k].1 as int;
        assert(v.contains(results[k].1));
        assert(y < b.len());
        assert(a[y].layers@.len() == b[y].layers@.len());
        if has_layer(b, y, l) {
            assert(links(a, y, l) == links(b, y, l));
        }
    }
    assert forall|x: usize, k: int, d: u32|
        #![trigger v.contains(x), results[k], measured(f, b[x as int].embeddings, q, d)]
        v.contains(x) && !holds_node(results, x) && 0 <= k < results.len() && measured(f, b[x as int].embeddings, q, d) implies results[k].0 <= d by {
        assert((x as int) < b.len());
        assert(a[x as int].embeddings == b[x as int].embeddings);
    }
    assert(beam_ok(f, b, q, v, results, ef));
}

proof fn lemma_beam_reject<E, F: Fn(&E, &E) -> u32>(f: F, vs: Seq<Record<E>>, q: E, visited: Set<usize>, results: Seq<(u32, usize)>, ef: usize, nb: usize, d: u32)
    requires
        metric_ok::<E, F>(f),
        beam_ok(f, vs, q, visited, results, ef),
        results.len() >= ef,
        measured(f, vs[nb as int].embeddings, q, d),
        forall|k: int| 0 <= k < results.len() ==> #[trigger] results[k].0 <= d,
    ensures
        beam_ok(f, vs, q, visited.insert(nb), results, ef),
{
    let v2 = visited.insert(nb);
    assert forall|x: usize, k: int, dd: u32|
        #![trigger v2.contains(x), results[k], measured(f, vs[x as int].embeddings, q, dd)]
        v2.contains(x) && !holds_node(results, x) && 0 <= k < results.len() && measured(f, vs[x as int].embeddings, q, dd) implies results[k].0 <= dd by {
        if x == nb {
            assert(dd == d);
        } else {
            assert(visited.contains(x));
        }
    }
}

proof fn lemma_beam_push<E, F: Fn(&E, &E) -> u32>(f: F, vs: Seq<Record<E>>, q: E, visited: Set<usize>, results: Seq<(u32, usize)>, ef: usize, nb: usize, d: u32, fi: int)
    requires
        metric_ok::<E, F>(f),
        beam_ok(f, vs, q, visited, results, ef),
        0 <= fi < results.len(),
        results.len() < ef || d < results[fi].0,
    ensures
        beam_ok(f, vs, q, visited.insert(nb), results.push((d, nb)), ef),
{
    let v2 = visited.insert(nb);
    let r2 = results.push((d, nb));
    assert forall|x: usize| #[trigger] v2.contains(x) && !holds_node(r2, x) implies r2.len() >= ef by {
        if x == nb {
            assert(r2[r2.len() - 1].1 == nb);
        } else {
            assert(visited.contains(x));
            if holds_node(results, x) {
                let k = choose|k: int| 0 <= k < results.len() && results[k].1 == x;
                assert(r2[k].1 == x);
            }
        }
    }
    assert forall|x: usize, k: int, dd: u32|
        #![trigger v2.contains(x), r2[k], measured(f, vs[x as int].embeddings, q, dd)]
        v2.contains(x) && !holds_node(r2, x) && 0 <= k < r2.len() && measured(f, vs[x as int].embeddings, q, dd) implies r2[k].0 <= dd by {
        if x == nb {
            assert(r2[r2.len() - 1].1 == nb);
        } else {
            assert(visited.contains(x));
            if holds_node(results, x) {
                let k2 = choose|k2: int| 0 <= k2 < results.len() && results[k2].1 == x;
                assert(r2[k2].1 == x);
            }
            if k < results.len() {
                assert(r2[k] == results[k]);
            } else {
                assert(results[fi] == results[fi]);
                assert(results[fi].0 <= dd);
            }
        }
    }
}

proof fn lemma_beam_evict<E, F: Fn(&E, &E) -> u32>(f: F, vs: Seq<Record<E>>, q: E, visited: Set<usize>, results: Seq<(u32, usize)>, ef: usize, mi: int)
    requires
        metric_ok::<E, F>(f),
        beam_ok(f, vs, q, visited, results, ef),
        results.len() > ef,
        0 <= mi < results.len(),
        forall|t: int| 0 <= t < results.len() ==> #[trigger] results[t].0 <= results[mi].0,
        measured(f, vs[results[mi].1 as int].embeddings, q, results[mi].0),
        distinct_nodes(results),
    ensures
        beam_ok(f, vs, q, visited, results.remove(mi), ef),
{
    let r2 = results.remove(mi);
    assert forall|x: usize, k: int, dd: u32|
        #![trigger visited.contains(x), r2[k], measured(f, vs[x as int].embeddings, q, dd)]
        visited.contains(x) && !holds_node(r2, x) && 0 <= k < r2.len() && measured(f, vs[x as int].embeddings, q, dd) implies r2[k].0 <= dd by {
        let k2 = if k < mi { k } else { k + 1 };
        assert(r2[k] == results[k2]);
        if x == results[mi].1 {
            assert(dd == results[mi].0);
        } else if holds_node(results, x) {
            let w = choose|w: int| 0 <= w < results.len() && results[w].1 == x;
            let w2 = if w < mi { w } else { w - 1 };
            assert(r2[w2].1 == x);
        }
    }
}

/// The vector lengths fit a set of indices below `n`.
proof fn lemma_index_set_len(s: Set<usize>, n: int)
    requires
        0 <= n,
        forall|x: usize| s.contains(x) ==> (x as int) < n,
    ensures
        s.finite(),
        s.len() <= n,
    decreases n,
{
    let full = Set::new(|x: usize| (x as int) < n);
    lemma_usize_range(n);
    vstd::set_lib::lemma_len_subset(s, full);
}

proof fn lemma_usize_range(n: int)
    requires
        0 <= n,
    ensures
        Set::new(|x: usize| (x as int) < n).finite(),
        Set::new(|x: usize| (x as int) < n).len() <= n,
    decreases n,
{
    if n == 0 {
        assert(Set::new(|x: usize| (x as int) < n) =~= Set::empty());
    } else {
        lemma_usize_range(n - 1);
        let smaller = Set::new(|x: usize| (x as int) < n - 1);
        if n - 1 <= usize::MAX {
            assert(Set::new(|x: usize| (x as int) < n) =~= smaller.insert((n - 1) as usize));
        } else {
            assert(Set::new(|x: usize| (x as int) < n) =~= smaller);
        }
    }
}

/// Best-first beam search on one layer from the given entry points, keeping at
/// most `ef` results once the entry points have been placed (see
/// `beam_result`). An entry point that does not take part in the layer is
/// kept as a result but not expanded.
pub fn search_layer<E, F: Fn(&E, &E) -> u32>(
    vs: &Vec<Record<E>>,
    query: &E,
    entry_points: &Vec<usize>,
    layer: usize,
    ef: usize,
    metric: &F,
) -> (results: Vec<(u32, usize)>)
    requires
        metric_ok::<E, F>(*metric),
        links_valid(vs@),
        ef >= 1,
        entry_points@.len() >= 1,
        entry_points@.no_duplicates(),
        forall|k: int| 0 <= k < entry_points@.len() ==> (#[trigger] entry_points@[k] as int) < vs@.len(),
    ensures
        results@.len() >= 1,
        results@.len() <= if ef > entry_points@.len() { ef as int } else { entry_points@.len() as int },
        distinct_nodes(results@),
        beam_result(*metric, vs@, *query, entry_points@, layer as int, ef, results@),
        forall|k: int|
            0 <= k < results@.len() ==> {
                let r = #[trigger] results@[k];
                &&& node_ok(vs@, entry_points@, r.1 as int, layer as int)
                &&& measured(*metric, vs@[r.1 as int].embeddings, *query, r.0)
                &&& (entry_points@.contains(r.1) || linked_at(vs@, layer as int, r.1))
            },
        forall|k: int, d: u32|
            0 <= k < entry_points@.len() && #[trigger] measured(*metric, vs@[entry_points@[k] as int].embeddings, *query, d)
                ==> min_key(results@) <= d,
        forall|k: int|
            0 <= k < results@.len() ==> neighbours_no_closer(
                *metric,
                vs@,
                *query,
                (#[trigger] results@[k]).1 as int,
                layer as int,
                min_key(results@),
            ),
{
    let n = vs.len();
    let mut visited: HashSet<usize> = HashSet::new();
    let mut candidates: Vec<(u32, usize)> = Vec::new();
    let mut results: Vec<(u32, usize)> = Vec::new();
    let mut e: usize = 0;
    while e < entry_points.len()
        invariant
            metric_ok::<E, F>(*metric),
            e <= entry_points@.len(),
            entry_points@.no_duplicates(),
            forall|k: int| 0 <= k < entry_points@.len() ==> (#[trigger] entry_points@[k] as int) < vs@.len(),
            results@ == candidates@,
            results@.len() == e,
            forall|k: int| 0 <= k < e ==> (#[trigger] results@[k]).1 == entry_points@[k],
            forall|k: int| 0 <= k < e ==> measured(*metric, vs@[entry_points@[k] as int].embeddings, *query, #[trigger] results@[k].0),
            forall|x: usize| visited@.contains(x) <==> exists|k: int| 0 <= k < e && entry_points@[k] == x,
        decreases entry_points@.len() - e,
    {
        let ep = entry_points[e];
        visited.insert(ep);
        let d = metric(&vs[ep].embeddings, query);
        candidates.push((d, ep));
        results.push((d, ep));
        e = e + 1;
        assert forall|x: usize| visited@.contains(x) <==> exists|k: int| 0 <= k < e && entry_points@[k] == x by {
            if x == ep {
                assert(entry_points@[e - 1] == x);
            }
        }
    }
    proof {
        assert forall|a: int, b: int| 0 <= a < results@.len() && 0 <= b < results@.len() && a != b implies
            #[trigger] results@[a].1 != #[trigger] results@[b].1 by {
            assert(results@[a].1 == entry_points@[a]);
            assert(results@[b].1 == entry_points@[b]);
        }
        lemma_min_key(results@);
        assert forall|x: usize| #[trigger] visited@.contains(x) implies {
            &&& node_ok(vs@, entry_points@, x as int, layer as int)
            &&& (entry_points@.contains(x) || linked_at(vs@, layer as int, x))
            &&& forall|d: u32| #[trigger] measured(*metric, vs@[x as int].embeddings, *query, d) ==> min_key(results@) <= d
        } by {
            let k = choose|k: int| 0 <= k < e && entry_points@[k] == x;
            assert(results@[k].1 == x);
            assert(measured(*metric, vs@[x as int].embeddings, *query, results@[k].0));
        }
        assert forall|k: int| 0 <= k < entry_points@.len() implies visited@.contains(#[trigger] entry_points@[k]) by {}
        assert forall|k: int| 0 <= k < results@.len() implies candidates@.contains(#[trigger] results@[k]) by {
            assert(candidates@[k] == results@[k]);
        }
        assert forall|x: usize| #[trigger] visited@.contains(x) implies holds_node(results@, x) by {
            let k = choose|k: int| 0 <= k < e && entry_points@[k] == x;
            assert(results@[k].1 == x);
        }
        assert forall|x: usize| #[trigger] visited@.contains(x) implies reachable(vs@, entry_points@, layer as int, x) by {
            let k = choose|k: int| 0 <= k < e && entry_points@[k] == x;
            assert(entry_points@.contains(x));
            assert(reach_within(vs@, entry_points@, layer as int, x, 0));
        }
    }
    // Loop over the candidate queue, closest first.
    loop
        invariant_except_break
            metric_ok::<E, F>(*metric),
            links_valid(vs@),
            n == vs@.len(),
            ef >= 1,
            entry_points@.len() >= 1,
            forall|k: int| 0 <= k < entry_points@.len() ==> (#[trigger] entry_points@[k] as int) < vs@.len(),
            forall|k: int| 0 <= k < entry_points@.len() ==> visited@.contains(#[trigger] entry_points@[k]),
            results@.len() >= 1,
            results@.len() <= if ef > entry_points@.len() { ef as int } else { entry_points@.len() as int },
            distinct_nodes(results@),
            distinct_nodes(candidates@),
            forall|k: int| 0 <= k < results@.len() ==> {
                let r = #[trigger] results@[k];
                &&& visited@.contains(r.1)
                &&& node_ok(vs@, entry_points@, r.1 as int, layer as int)
                &&& measured(*metric, vs@[r.1 as int].embeddings, *query, r.0)
                &&& (candidates@.contains(r) || expanded(vs@, visited@, r.1 as int, layer as int))
            },
            forall|k: int| 0 <= k < candidates@.len() ==> {
                let c = #[trigger] candidates@[k];
                &&& visited@.contains(c.1)
                &&& node_ok(vs@, entry_points@, c.1 as int, layer as int)
                &&& measured(*metric, vs@[c.1 as int].embeddings, *query, c.0)
            },
            forall|x: usize| #[trigger] visited@.contains(x) ==> {
                &&& node_ok(vs@, entry_points@, x as int, layer as int)
                &&& (entry_points@.contains(x) || linked_at(vs@, layer as int, x))
                &&& forall|d: u32| #[trigger] measured(*metric, vs@[x as int].embeddings, *query, d) ==> min_key(results@) <= d
            },
            beam_ok(*metric, vs@, *query, visited@, results@, ef),
            forall|x: usize| #[trigger] visited@.contains(x) ==> reachable(vs@, entry_points@, layer as int, x),
        ensures
            results@.len() >= 1,
            results@.len() <= if ef > entry_points@.len() { ef as int } else { entry_points@.len() as int },
            distinct_nodes(results@),
            forall|k: int| 0 <= k < entry_points@.len() ==> visited@.contains(#[trigger] entry_points@[k]),
            forall|k: int| 0 <= k < results@.len() ==> {
                let r = #[trigger] results@[k];
                &&& visited@.contains(r.1)
                &&& node_ok(vs@, entry_points@, r.1 as int, layer as int)
                &&& measured(*metric, vs@[r.1 as int].embeddings, *query, r.0)
                &&& expanded(vs@, visited@, r.1 as int, layer as int)
            },
            forall|x: usize| #[trigger] visited@.contains(x) ==> {
                &&& node_ok(vs@, entry_points@, x as int, layer as int)
                &&& (entry_points@.contains(x) || linked_at(vs@, layer as int, x))
                &&& forall|d: u32| #[trigger] measured(*metric, vs@[x as int].embeddings, *query, d) ==> min_key(results@) <= d
            },
            beam_ok(*metric, vs@, *query, visited@, results@, ef),
            forall|x: usize| #[trigger] visited@.contains(x) ==> reachable(vs@, entry_points@, layer as int, x),
        decreases (n - visited@.len()) + candidates@.len(),
    {
        proof {
            lemma_index_set_len(visited@, n as int);
        }
        if candidates.len() == 0 {
            assert forall|k: int| 0 <= k < results@.len() implies expanded(vs@, visited@, (#[trigger] results@[k]).1 as int, layer as int) by {
                assert(!candidates@.contains(results@[k]));
            }
            break;
        }
        let ci = position_of_min(&candidates);
        let ghost cands_before = candidates@;
        let c = candidates.remove(ci);
        assert(cands_before.remove(ci as int) == candidates@);
        let fi = position_of_max(&results);
        let f_dist = results[fi].0;
        if c.0 > f_dist {
            // Every remaining candidate is farther than every result, so no
            // result is still waiting to be expanded.
            assert forall|k: int| 0 <= k < results@.len() implies expanded(vs@, visited@, (#[trigger] results@[k]).1 as int, layer as int) by {
                let r = results@[k];
                assert(scored_le(r, results@[fi as int]));
                if cands_before.contains(r) {
                    let j = choose|j: int| 0 <= j < cands_before.len() && cands_before[j] == r;
                    assert(scored_le(cands_before[ci as int], cands_before[j]));
                    assert(false);
                }
            }
            break;
        }
        let ghost visited_before = visited@;
        let ghost results_before = results@;
        assert(candidates@.len() + 1 == cands_before.len());
        // Results other than `c` keep their "queued or expanded" status.
        assert forall|k: int| 0 <= k < results@.len() && (#[trigger] results@[k]).1 != c.1 implies
            (candidates@.contains(results@[k]) || expanded(vs@, visited@, results@[k].1 as int, layer as int)) by {
            let r = results@[k];
            if cands_before.contains(r) {
                let j = choose|j: int| 0 <= j < cands_before.len() && cands_before[j] == r;
                if j < ci {
                    assert(candidates@[j] == r);
                } else if j > ci {
                    assert(candidates@[j - 1] == r);
                } else {
                    assert(r.1 == c.1);
                }
            }
        }
        assert forall|a: int, b: int| 0 <= a < candidates@.len() && 0 <= b < candidates@.len() && a != b implies
            #[trigger] candidates@[a].1 != #[trigger] candidates@[b].1 by {
            let a2 = if a < ci { a } else { a + 1 };
            let b2 = if b < ci { b } else { b + 1 };
            assert(candidates@[a] == cands_before[a2]);
            assert(candidates@[b] == cands_before[b2]);
        }
        let node = &vs[c.1];
        if layer >= node.layers.len() {
            proof {
                lemma_index_set_len(visited@, n as int);
            }
            continue;
        }
        let nbrs = &node.layers[layer];
        let ghost cnode = c.1 as int;
        let mut k: usize = 0;
        while k < nbrs.len()
            invariant
                metric_ok::<E, F>(*metric),
                links_valid(vs@),
                n == vs@.len(),
                ef >= 1,
                has_layer(vs@, cnode, layer as int),
                nbrs@ == links(vs@, cnode, layer as int),
                k <= nbrs@.len(),
                visited_before.subset_of(visited@),
                forall|t: int| 0 <= t < entry_points@.len() ==> visited@.contains(#[trigger] entry_points@[t]),
                candidates@.len() + visited_before.len() + 1 <= cands_before.len() + visited@.len(),
                visited@.finite(),
                forall|x: usize| visited@.contains(x) ==> (x as int) < n,
                forall|m: int| 0 <= m < k ==> visited@.contains(#[trigger] nbrs@[m]),
                results@.len() >= 1,
                results@.len() <= if ef > entry_points@.len() { ef as int } else { entry_points@.len() as int },
                entry_points@.len() >= 1,
                distinct_nodes(results@),
                distinct_nodes(candidates@),
                forall|j: int| 0 <= j < results@.len() ==> {
                    let r = #[trigger] results@[j];
                    &&& visited@.contains(r.1)
                    &&& node_ok(vs@, entry_points@, r.1 as int, layer as int)
                    &&& measured(*metric, vs@[r.1 as int].embeddings, *query, r.0)
                    &&& (r.1 == c.1 || candidates@.contains(r) || expanded(vs@, visited@, r.1 as int, layer as int))
                },
                forall|j: int| 0 <= j < candidates@.len() ==> {
                    let cc = #[trigger] candidates@[j];
                    &&& visited@.contains(cc.1)
                    &&& node_ok(vs@, entry_points@, cc.1 as int, layer as int)
                    &&& measured(*metric, vs@[cc.1 as int].embeddings, *query, cc.0)
                },
                forall|x: usize| #[trigger] visited@.contains(x) ==> {
                    &&& node_ok(vs@, entry_points@, x as int, layer as int)
                    &&& (entry_points@.contains(x) || linked_at(vs@, layer as int, x))
                    &&& forall|d: u32| #[trigger] measured(*metric, vs@[x as int].embeddings, *query, d) ==> min_key(results@) <= d
                },
                beam_ok(*metric, vs@, *query, visited@, results@, ef),
                forall|x: usize| #[trigger] visited@.contains(x) ==> reachable(vs@, entry_points@, layer as int, x),
                visited@.contains(cnode as usize),
            decreases nbrs@.len() - k,
        {
            let nb = nbrs[k];
            assert(links(vs@, cnode, layer as int)[k as int] == nb);
            let ghost vis_pre = visited@;
            let ghost res_pre = results@;
            let ghost cand_pre = candidates@;
            if visited.insert(nb) {
                assert(visited@ == vis_pre.insert(nb));
                assert(!vis_pre.contains(nb));
                proof {
                    assert(reachable(vs@, entry_points@, layer as int, cnode as usize));
                    let steps = choose|steps: nat| #[trigger] reach_within(vs@, entry_points@, layer as int, cnode as usize, steps);
                    assert(links(vs@, cnode, layer as int)[k as int] == nb);
                    assert(reach_within(vs@, entry_points@, layer as int, nb, steps + 1));
                    assert(forall|x: usize| #[trigger] visited@.contains(x) ==> reachable(vs@, entry_points@, layer as int, x));
                }
                let d = metric(&vs[nb].embeddings, query);
                let fi2 = position_of_max(&results);
                let f = results[fi2].0;
                proof {
                    lemma_min_key(results@);
                }
                if results.len() < ef || d < f {
                    candidates.push((d, nb));
                    results.push((d, nb));
                    proof {
                        lemma_beam_push(*metric, vs@, *query, vis_pre, res_pre, ef, nb, d, fi2 as int);
                        lemma_min_key_push(res_pre, (d, nb));
                        assert(results@ == res_pre.push((d, nb)));
                        assert(candidates@ == cand_pre.push((d, nb)));
                        assert forall|a: int, b: int| 0 <= a < results@.len() && 0 <= b < results@.len() && a != b implies
                            #[trigger] results@[a].1 != #[trigger] results@[b].1 by {
                            if a < res_pre.len() {
                                assert(vis_pre.contains(results@[a].1));
                            }
                            if b < res_pre.len() {
                                assert(vis_pre.contains(results@[b].1));
                            }
                        }
                        assert forall|a: int, b: int| 0 <= a < candidates@.len() && 0 <= b < candidates@.len() && a != b implies
                            #[trigger] candidates@[a].1 != #[trigger] candidates@[b].1 by {
                            if a < cand_pre.len() {
                                assert(vis_pre.contains(candidates@[a].1));
                            }
                            if b < cand_pre.len() {
                                assert(vis_pre.contains(candidates@[b].1));
                            }
                        }
                        assert(candidates@.contains((d, nb))) by {
                            assert(candidates@[candidates@.len() - 1] == (d, nb));
                        }
                        assert forall|j: int| 0 <= j < results@.len() implies {
                            let r = #[trigger] results@[j];
                            r.1 == c.1 || candidates@.contains(r) || expanded(vs@, visited@, r.1 as int, layer as int)
                        } by {
                            let r = results@[j];
                            if j < res_pre.len() {
                                assert(res_pre[j] == r);
                                if cand_pre.contains(r) {
                                    let t = choose|t: int| 0 <= t < cand_pre.len() && cand_pre[t] == r;
                                    assert(candidates@[t] == r);
                                }
                                if expanded(vs@, vis_pre, r.1 as int, layer as int) {
                                    lemma_expanded_grow(vs@, vis_pre, visited@, r.1 as int, layer as int);
                                }
                            }
                        }
                    }
                    if results.len() > ef {
                        let mi = position_of_max(&results);
                        let ghost res_mid = results@;
                        results.remove(mi);
                        proof {
                            assert(res_mid.remove(mi as int) == results@);
                            assert forall|t: int| 0 <= t < res_mid.len() implies #[trigger] res_mid[t].0 <= res_mid[mi as int].0 by {
                                assert(scored_le(res_mid[t], res_mid[mi as int]));
                            }
                            lemma_min_key_remove_max(res_mid, mi as int);
                            assert(measured(*metric, vs@[res_mid[mi as int].1 as int].embeddings, *query, res_mid[mi as int].0));
                            lemma_beam_evict(*metric, vs@, *query, visited@, res_mid, ef, mi as int);
                            assert forall|a: int, b: int| 0 <= a < results@.len() && 0 <= b < results@.len() && a != b implies
                                #[trigger] results@[a].1 != #[trigger] results@[b].1 by {
                                let a2 = if a < mi { a } else { a + 1 };
                                let b2 = if b < mi { b } else { b + 1 };
                                assert(results@[a] == res_mid[a2]);
                                assert(results@[b] == res_mid[b2]);
                            }
                            assert forall|j: int| 0 <= j < results@.len() implies {
                                let r = #[trigger] results@[j];
                                &&& visited@.contains(r.1)
                                &&& node_ok(vs@, entry_points@, r.1 as int, layer as int)
                                &&& measured(*metric, vs@[r.1 as int].embeddings, *query, r.0)
                                &&& (r.1 == c.1 || candidates@.contains(r) || expanded(vs@, visited@, r.1 as int, layer as int))
                            } by {
                                let j2 = if j < mi { j } else { j + 1 };
                                assert(results@[j] == res_mid[j2]);
                            }
                        }
                    }
                } else {
                    proof {
                        assert forall|t: int| 0 <= t < res_pre.len() implies #[trigger] res_pre[t].0 <= d by {
                            assert(scored_le(res_pre[t], res_pre[fi2 as int]));
                        }
                        lemma_beam_reject(*metric, vs@, *query, vis_pre, res_pre, ef, nb, d);
                        assert(results@ == res_pre);
                        assert(min_key(results@) <= f);
                    }
                }
                proof {
                    assert(visited@.len() == vis_pre.len() + 1);
                    assert forall|x: usize| #[trigger] visited@.contains(x) implies {
                        &&& node_ok(vs@, entry_points@, x as int, layer as int)
                        &&& (entry_points@.contains(x) || linked_at(vs@, layer as int, x))
                        &&& forall|dd: u32| #[trigger] measured(*metric, vs@[x as int].embeddings, *query, dd) ==> min_key(results@) <= dd
                    } by {
                        if x == nb {
                            assert(links(vs@, cnode, layer as int)[k as int] == x);
                            assert(linked_at(vs@, layer as int, x));
                        }
                    }
                }
            } else {
                assert(visited@ == vis_pre);
            }
            k = k + 1;
        }
        proof {
            lemma_index_set_len(visited@, n as int);
            assert(expanded(vs@, visited@, cnode, layer as int));
            assert forall|j: int| 0 <= j < results@.len() implies {
                let r = #[trigger] results@[j];
                candidates@.contains(r) || expanded(vs@, visited@, r.1 as int, layer as int)
            } by {}
        }
    }
    proof {
        assert forall|k: int| 0 <= k < results@.len() implies visited@.contains((#[trigger] results@[k]).1)
            && expanded(vs@, visited@, results@[k].1 as int, layer as int) by {}
        assert(beam_ok(*metric, vs@, *query, visited@, results@, ef));
        assert(beam_result(*metric, vs@, *query, entry_points@, layer as int, ef, results@));
        assert forall|k: int, d: u32|
            0 <= k < entry_points@.len() && #[trigger] measured(*metric, vs@[entry_points@[k] as int].embeddings, *query, d)
                implies min_key(results@) <= d by {
            assert(visited@.contains(entry_points@[k]));
        }
        assert forall|k: int| 0 <= k < results@.len() implies neighbours_no_closer(
            *metric,
            vs@,
            *query,
            (#[trigger] results@[k]).1 as int,
            layer as int,
            min_key(results@),
        ) by {
            let r = results@[k];
            if has_layer(vs@, r.1 as int, layer as int) {
                assert forall|m: int, d: u32|
                    0 <= m < links(vs@, r.1 as int, layer as int).len() && #[trigger] measured(
                        *metric,
                        vs@[links(vs@, r.1 as int, layer as int)[m] as int].embeddings,
                        *query,
                        d,
                    ) implies min_key(results@) <= d by {
                    assert(visited@.contains(links(vs@, r.1 as int, layer as int)[m]));
                }
            }
        }
    }
    results
}

/// Every neighbour of `node` on layer `l` has been visited (or `node` is not on that layer).
pub open spec fn expanded<E>(vs: Seq<Record<E>>, visited: Set<usize>, node: int, l: int) -> bool {
    has_layer(vs, node, l) ==> forall|m: int| 0 <= m < links(vs, node, l).len() ==> visited.contains(#[trigger] links(vs, node, l)[m])
}

proof fn lemma_expanded_grow<E>(vs: Seq<Record<E>>, a: Set<usize>, b: Set<usize>, node: int, l: int)
    requires
        expanded(vs, a, node, l),
        a.subset_of(b),
    ensures
        expanded(vs, b, node, l),
{
}


// ------------------------------ editing links ------------------------------
/// Two record lists agree on everything but the contents of neighbour lists.
pub open spec fn same_payload<E>(a: Seq<Record<E>>, b: Seq<Record<E>>) -> bool {
    &&& a.len() == b.len()
    &&& forall|i: int|
        0 <= i < a.len() ==> {
            &&& (#[trigger] a[i]).id == b[i].id
            &&& a[i].mapped_id == b[i].mapped_id
            &&& a[i].embeddings == b[i].embeddings
            &&& a[i].metadata == b[i].metadata
            &&& a[i].layers@.len() == b[i].layers@.len()
        }
}

/// Every neighbour list other than the one of node `i` on layer `l` is unchanged.
pub open spec fn links_frame<E>(a: Seq<Record<E>>, b: Seq<Record<E>>, i: int, l: int) -> bool {
    forall|j: int, l2: int| has_layer(a, j, l2) && (j != i || l2 != l) ==> #[trigger] links(b, j, l2) == links(a, j, l2)
}

pub proof fn lemma_payload_indexed<E>(a: Seq<Record<E>>, b: Seq<Record<E>>)
    requires
        same_payload(a, b),
        nodes_indexed(a),
    ensures
        nodes_indexed(b),
{
    assert forall|i: int| 0 <= i < b.len() implies (#[trigger] b[i]).mapped_id == i && b[i].layers@.len() >= 1 by {
        assert(a[i].mapped_id == b[i].mapped_id);
    }
}

pub proof fn lemma_payload_trans<E>(a: Seq<Record<E>>, b: Seq<Record<E>>, c: Seq<Record<E>>)
    requires
        same_payload(a, b),
        same_payload(b, c),
    ensures
        same_payload(a, c),
{
    assert forall|i: int| 0 <= i < a.len() implies {
        &&& (#[trigger] a[i]).id == c[i].id
        &&& a[i].mapped_id == c[i].mapped_id
        &&& a[i].embeddings == c[i].embeddings
        &&& a[i].metadata == c[i].metadata
        &&& a[i].layers@.len() == c[i].layers@.len()
    } by {
        assert(a[i].id == b[i].id);
        assert(b[i].id == c[i].id);
    }
}

/// Replaces the neighbour list of node `i` on layer `l`.
fn set_links<E>(vs: &mut Vec<Record<E>>, i: usize, l: usize, list: Vec<usize>)
    requires
        has_layer(old(vs)@, i as int, l as int),
    ensures
        same_payload(old(vs)@, final(vs)@),
        links_frame(old(vs)@, final(vs)@, i as int, l as int),
        links(final(vs)@, i as int, l as int) == list@,
{
    let ghost before = vs@;
    let rec = &mut vs[i];
    rec.layers.set(l, list);
    proof {
        assert forall|j: int, l2: int| has_layer(before, j, l2) && (j != i || l2 != l) implies
            #[trigger] links(vs@, j, l2) == links(before, j, l2) by {
            if j == i {
                assert(vs@[j].layers@[l2] == before[j].layers@[l2]);
            } else {
                assert(vs@[j] == before[j]);
            }
        }
    }
}

/// Appends `x` to the neighbour list of node `i` on layer `l`.
fn push_link<E>(vs: &mut Vec<Record<E>>, i: usize, l: usize, x: usize)
    requires
        has_layer(old(vs)@, i as int, l as int),
    ensures
        same_payload(old(vs)@, final(vs)@),
        links_frame(old(vs)@, final(vs)@, i as int, l as int),
        links(final(vs)@, i as int, l as int) == links(old(vs)@, i as int, l as int).push(x),
{
    let ghost before = vs@;
    let rec = &mut vs[i];
    let lst = &mut rec.layers[l];
    lst.push(x);
    proof {
        assert forall|j: int, l2: int| has_layer(before, j, l2) && (j != i || l2 != l) implies
            #[trigger] links(vs@, j, l2) == links(before, j, l2) by {
            if j == i {
                assert(vs@[j].layers@[l2] == before[j].layers@[l2]);
            } else {
                assert(vs@[j] == before[j]);
            }
        }
    }
}

/// A permutation of a list with distinct nodes has distinct nodes, and the same pairs.
proof fn lemma_perm_distinct_nodes(a: Seq<(u32, usize)>, b: Seq<(u32, usize)>)
    requires
        a.to_multiset() == b.to_multiset(),
        distinct_nodes(a),
    ensures
        distinct_nodes(b),
        forall|x: (u32, usize)| a.contains(x) <==> b.contains(x),
{
    assert(a.no_duplicates()) by {
        assert forall|i: int, j: int| 0 <= i < a.len() && 0 <= j < a.len() && i != j implies a[i] != a[j] by {
            assert(a[i].1 != a[j].1);
        }
    }
    lemma_perm_no_duplicates(a, b);
    assert forall|x: (u32, usize)| a.contains(x) <==> b.contains(x) by {
        lemma_perm_contains(a, b, x);
    }
    assert forall|i: int, j: int| 0 <= i < b.len() && 0 <= j < b.len() && i != j implies #[trigger] b[i].1 != #[trigger] b[j].1 by {
        assert(b[i] != b[j]);
        assert(b.contains(b[i]));
        assert(b.contains(b[j]));
        let ia = choose|t: int| 0 <= t < a.len() && a[t] == b[i];
        let ja = choose|t: int| 0 <= t < a.len() && a[t] == b[j];
        if ia == ja {
            assert(false);
        }
    }
}

/// Node indices of the first `count` entries of a scored list.
fn first_ids(s: &Vec<(u32, usize)>, count: usize) -> (ids: Vec<usize>)
    requires
        count <= s@.len(),
    ensures
        ids@ == node_ids(s@).take(count as int),
{
    let mut ids: Vec<usize> = Vec::new();
    let mut i: usize = 0;
    while i < count
        invariant
            i <= count <= s@.len(),
            ids@ == node_ids(s@).take(i as int),
        decreases count - i,
    {
        ids.push(s[i].1);
        i = i + 1;
        assert(ids@ =~= node_ids(s@).take(i as int));
    }
    ids
}

proof fn lemma_node_ids_distinct(s: Seq<(u32, usize)>, count: int)
    requires
        distinct_nodes(s),
        0 <= count <= s.len(),
    ensures
        node_ids(s).take(count).no_duplicates(),
        node_ids(s).take(count).len() == count,
        forall|k: int| 0 <= k < count ==> #[trigger] node_ids(s).take(count)[k] == s[k].1,
{
}

/// Cuts the neighbour list of node `n` on layer `l` down to the `m_max` links
/// closest to `n` (closest first, ties by index).
fn shrink_links<E, F: Fn(&E, &E) -> u32>(vs: &mut Vec<Record<E>>, n: usize, l: usize, m_max: usize, metric: &F)
    requires
        metric_ok::<E, F>(*metric),
        has_layer(old(vs)@, n as int, l as int),
        links_valid(old(vs)@),
        links(old(vs)@, n as int, l as int).no_duplicates(),
        m_max <= links(old(vs)@, n as int, l as int).len(),
    ensures
        same_payload(old(vs)@, final(vs)@),
        links_frame(old(vs)@, final(vs)@, n as int, l as int),
        links(final(vs)@, n as int, l as int).len() == m_max,
        links(final(vs)@, n as int, l as int).no_duplicates(),
        forall|k: int| 0 <= k < m_max ==> links(old(vs)@, n as int, l as int).contains(
            #[trigger] links(final(vs)@, n as int, l as int)[k],
        ),
        cut_to(*metric, old(vs)@, links(final(vs)@, n as int, l as int), n as int, links(old(vs)@, n as int, l as int)),
{
    let ghost old_list = links(vs@, n as int, l as int);
    let ghost v0 = vs@;
    let mut connections: Vec<(u32, usize)> = Vec::new();
    let len = vs[n].layers[l].len();
    let mut k: usize = 0;
    while k < len
        invariant
            metric_ok::<E, F>(*metric),
            links_valid(vs@),
            has_layer(vs@, n as int, l as int),
            old_list == links(vs@, n as int, l as int),
            old_list.no_duplicates(),
            len == old_list.len(),
            k <= len,
            connections@.len() == k,
            forall|t: int| 0 <= t < k ==> (#[trigger] connections@[t]).1 == old_list[t],
            vs@ == v0,
            forall|t: int| 0 <= t < k ==> measured(*metric, v0[(#[trigger] connections@[t]).1 as int].embeddings, v0[n as int].embeddings, connections@[t].0),
        decreases len - k,
    {
        let id = vs[n].layers[l][k];
        assert(links(vs@, n as int, l as int)[k as int] == id);
        let d = metric(&vs[id].embeddings, &vs[n].embeddings);
        connections.push((d, id));
        k = k + 1;
    }
    let ghost conn = connections@;
    assert(distinct_nodes(conn)) by {
        assert forall|a: int, b: int| 0 <= a < conn.len() && 0 <= b < conn.len() && a != b implies #[trigger] conn[a].1 != #[trigger] conn[b].1 by {
            assert(conn[a].1 == old_list[a]);
            assert(conn[b].1 == old_list[b]);
        }
    }
    let sorted = sort_scored(connections);
    proof {
        lemma_perm_distinct_nodes(conn, sorted@);
        lemma_node_ids_distinct(sorted@, m_max as int);
    }
    let kept = first_ids(&sorted, m_max);
    proof {
        assert forall|t: int| 0 <= t < m_max implies old_list.contains(#[trigger] kept@[t]) by {
            let p = sorted@[t];
            assert(sorted@.contains(p));
            assert(conn.contains(p));
            let j = choose|j: int| 0 <= j < conn.len() && conn[j] == p;
            assert(old_list[j] == p.1);
        }
        assert forall|t: int| 0 <= t < sorted@.len() implies measured(*metric, v0[(#[trigger] sorted@[t]).1 as int].embeddings, v0[n as int].embeddings, sorted@[t].0) by {
            let p = sorted@[t];
            assert(sorted@.contains(p));
            assert(conn.contains(p));
            let j = choose|j: int| 0 <= j < conn.len() && conn[j] == p;
        }
    }
    let ghost kept_ids = kept@;
    set_links(vs, n, l, kept);
    proof {
        assert forall|a: int, b: int, da: u32, db: u32|
            0 <= a < b < kept_ids.len() && #[trigger] measured(*metric, v0[kept_ids[a] as int].embeddings, v0[n as int].embeddings, da)
                && #[trigger] measured(*metric, v0[kept_ids[b] as int].embeddings, v0[n as int].embeddings, db)
                implies scored_le((da, kept_ids[a]), (db, kept_ids[b])) by {
            assert(kept_ids[a] == sorted@[a].1);
            assert(kept_ids[b] == sorted@[b].1);
            assert(scored_le(sorted@[a], sorted@[b]));
            assert(measured(*metric, v0[sorted@[a].1 as int].embeddings, v0[n as int].embeddings, sorted@[a].0));
            assert(measured(*metric, v0[sorted@[b].1 as int].embeddings, v0[n as int].embeddings, sorted@[b].0));
        }
        assert forall|a: int, y: usize, da: u32, dy: u32|
            0 <= a < kept_ids.len() && old_list.contains(y) && !kept_ids.contains(y)
                && #[trigger] measured(*metric, v0[kept_ids[a] as int].embeddings, v0[n as int].embeddings, da)
                && #[trigger] measured(*metric, v0[y as int].embeddings, v0[n as int].embeddings, dy) implies scored_le((da, kept_ids[a]), (dy, y)) by {
            let t = choose|t: int| 0 <= t < old_list.len() && old_list[t] == y;
            assert(conn[t].1 == y);
            assert(conn.contains(conn[t]));
            assert(sorted@.contains(conn[t]));
            let p = choose|p: int| 0 <= p < sorted@.len() && sorted@[p] == conn[t];
            if p < m_max {
                assert(kept_ids[p] == y);
                assert(false);
            }
            assert(kept_ids[a] == sorted@[a].1);
            assert(scored_le(sorted@[a], sorted@[p]));
            assert(measured(*metric, v0[sorted@[a].1 as int].embeddings, v0[n as int].embeddings, sorted@[a].0));
            assert(measured(*metric, v0[sorted@[p].1 as int].embeddings, v0[n as int].embeddings, sorted@[p].0));
        }
    }
}

/// Links the last node (`new_id`) into layer `layer`: finds close nodes by
/// beam search from `ep`, makes the `M` closest of them its neighbours, adds
/// it to each of their lists, and cuts lists that grew past their bound back
/// to their closest nodes. Returns every node found, closest first, as entry
/// points for the layer below.
pub fn link_layer<E, F: Fn(&E, &E) -> u32>(
    vs: &mut Vec<Record<E>>,
    new_id: usize,
    layer: usize,
    ep: &Vec<usize>,
    metric: &F,
) -> (next_ep: Vec<usize>)
    requires
        metric_ok::<E, F>(*metric),
        new_id + 1 == old(vs)@.len(),
        nodes_indexed(old(vs)@),
        links_valid(old(vs)@),
        degrees_bounded(old(vs)@),
        has_layer(old(vs)@, new_id as int, layer as int),
        links(old(vs)@, new_id as int, layer as int).len() == 0,
        !linked_at(old(vs)@, layer as int, new_id),
        ep@.len() >= 1,
        ep@.no_duplicates(),
        forall|k: int| 0 <= k < ep@.len() ==> (#[trigger] ep@[k]) != new_id && has_layer(old(vs)@, ep@[k] as int, layer as int),
    ensures
        same_payload(old(vs)@, final(vs)@),
        nodes_indexed(final(vs)@),
        links_valid(final(vs)@),
        degrees_bounded(final(vs)@),
        forall|j: int, l2: int| has_layer(old(vs)@, j, l2) && l2 != layer ==> #[trigger] links(final(vs)@, j, l2) == links(old(vs)@, j, l2),
        joined(*metric, final(vs)@, new_id as int, layer as int),
        links(final(vs)@, new_id as int, layer as int) == next_ep@.take(
            if next_ep@.len() < M { next_ep@.len() as int } else { M as int },
        ),
        exists|ranked: Seq<(u32, usize)>|
            #[trigger] beam_result(*metric, old(vs)@, old(vs)@[new_id as int].embeddings, ep@, layer as int, EF_CONSTRUCTION, ranked)
                && sorted_scored(ranked) && next_ep@ == node_ids(ranked),
        forall|a: int, b: int, da: u32, db: u32|
            0 <= a < b < next_ep@.len() && #[trigger] measured(*metric, final(vs)@[next_ep@[a] as int].embeddings, final(vs)@[new_id as int].embeddings, da)
                && #[trigger] measured(*metric, final(vs)@[next_ep@[b] as int].embeddings, final(vs)@[new_id as int].embeddings, db) ==> da <= db,
        kept_linked(old(vs)@, final(vs)@),
        forall|j: int|
            has_layer(old(vs)@, j, layer as int) && j != new_id && !links(final(vs)@, new_id as int, layer as int).contains(j as usize)
                ==> #[trigger] links(final(vs)@, j, layer as int) == links(old(vs)@, j, layer as int),
        forall|k: int|
            0 <= k < links(final(vs)@, new_id as int, layer as int).len() ==> #[trigger] neighbour_updated(
                *metric,
                old(vs)@,
                final(vs)@,
                new_id as int,
                links(final(vs)@, new_id as int, layer as int)[k] as int,
                layer as int,
            ),
        next_ep@.len() >= 1,
        next_ep@.no_duplicates(),
        forall|k: int| 0 <= k < next_ep@.len() ==> (#[trigger] next_ep@[k]) != new_id && has_layer(final(vs)@, next_ep@[k] as int, layer as int),
{
    let ghost v0 = vs@;
    let results = search_layer(vs, &vs[new_id].embeddings, ep, layer, EF_CONSTRUCTION, metric);
    let ghost res = results@;
    let m_max = if layer == 0 { M_MAX_0 } else { M };
    let sorted = sort_scored(results);
    proof {
        lemma_perm_distinct_nodes(res, sorted@);
        lemma_node_ids_distinct(sorted@, sorted@.len() as int);
        assert forall|t: int| 0 <= t < sorted@.len() implies {
            let p = #[trigger] sorted@[t];
            &&& p.1 != new_id
            &&& has_layer(v0, p.1 as int, layer as int)
            &&& measured(*metric, v0[p.1 as int].embeddings, v0[new_id as int].embeddings, p.0)
        } by {
            let p = sorted@[t];
            assert(sorted@.contains(p));
            assert(res.contains(p));
            let j = choose|j: int| 0 <= j < res.len() && res[j] == p;
            assert(has_layer(v0, res[j].1 as int, layer as int));
            assert(measured(*metric, v0[res[j].1 as int].embeddings, v0[new_id as int].embeddings, res[j].0));
            if p.1 == new_id {
                assert(!ep@.contains(new_id));
                assert(linked_at(v0, layer as int, new_id));
            }
        }
    }
    proof {
        lemma_beam_result_perm(*metric, v0, v0[new_id as int].embeddings, ep@, layer as int, EF_CONSTRUCTION, res, sorted@);
    }
    let next_ep = first_ids(&sorted, sorted.len());
    proof {
        assert(node_ids(sorted@).take(sorted@.len() as int) =~= node_ids(sorted@));
    }
    let count = if sorted.len() < M { sorted.len() } else { M };
    proof {
        lemma_node_ids_distinct(sorted@, count as int);
    }
    let neighbors = first_ids(&sorted, count);
    let neighbors_copy = first_ids(&sorted, count);
    set_links(vs, new_id, layer, neighbors);
    let ghost v1 = vs@;
    proof {
        lemma_payload_indexed(v0, v1);
        assert forall|i: int, l: int, k: int| has_layer(v1, i, l) && 0 <= k < links(v1, i, l).len() implies {
            let j = #[trigger] links(v1, i, l)[k];
            &&& (j as int) < v1.len()
            &&& j as int != i
            &&& has_layer(v1, j as int, l)
        } by {
            if i == new_id && l == layer {
                assert(links(v1, i, l)[k] == sorted@[k].1);
            } else {
                assert(links(v1, i, l) == links(v0, i, l));
                assert(links(v0, i, l)[k] == links(v1, i, l)[k]);
            }
        }
        assert forall|i: int, l: int| #![trigger links(v1, i, l)] has_layer(v1, i, l) implies
            links(v1, i, l).len() <= max_degree(l) && links(v1, i, l).no_duplicates() by {
            if !(i == new_id && l == layer) {
                assert(links(v1, i, l) == links(v0, i, l));
            }
        }
        assert(!linked_at(v1, layer as int, new_id)) by {
            if linked_at(v1, layer as int, new_id) {
                let (v, m) = choose|v: int, m: int| has_layer(v1, v, layer as int) && 0 <= m < links(v1, v, layer as int).len()
                    && #[trigger] links(v1, v, layer as int)[m] == new_id;
                if v == new_id {
                    assert(links(v1, v, layer as int)[m] == sorted@[m].1);
                } else {
                    assert(links(v1, v, layer as int) == links(v0, v, layer as int));
                    assert(linked_at(v0, layer as int, new_id));
                }
            }
        }
    }
    // Add the reverse links; remember the lists that went past their bound.
    let mut shrink_tasks: Vec<usize> = Vec::new();
    let mut t: usize = 0;
    while t < count
        invariant
            metric_ok::<E, F>(*metric),
            count <= M,
            m_max == max_degree(layer as int),
            neighbors_copy@ == node_ids(sorted@).take(count as int),
            neighbors_copy@.no_duplicates(),
            neighbors_copy@.len() == count,
            forall|k: int| 0 <= k < count ==> (#[trigger] neighbors_copy@[k]) != new_id && has_layer(v1, neighbors_copy@[k] as int, layer as int),
            t <= count,
            new_id + 1 == vs@.len(),
            same_payload(v1, vs@),
            nodes_indexed(vs@),
            links_valid(vs@),
            has_layer(vs@, new_id as int, layer as int),
            links(vs@, new_id as int, layer as int) == links(v1, new_id as int, layer as int),
            forall|j: int, l2: int| has_layer(v1, j, l2) && l2 != layer ==> #[trigger] links(vs@, j, l2) == links(v1, j, l2),
            forall|j: int| has_layer(v1, j, layer as int) && !neighbors_copy@.subrange(0, t as int).contains(j as usize) ==> #[trigger] links(vs@, j, layer as int) == links(v1, j, layer as int),
            forall|k: int| 0 <= k < t ==> {
                let j = #[trigger] neighbors_copy@[k] as int;
                &&& links(vs@, j, layer as int) == links(v1, j, layer as int).push(new_id)
            },
            !linked_at(v1, layer as int, new_id),
            degrees_bounded(v1),
            shrink_tasks@.no_duplicates(),
            forall|k: int| 0 <= k < shrink_tasks@.len() ==> neighbors_copy@.subrange(0, t as int).contains(#[trigger] shrink_tasks@[k]),
            forall|k: int| 0 <= k < t ==> (links(vs@, #[trigger] neighbors_copy@[k] as int, layer as int).len() > m_max <==> shrink_tasks@.contains(neighbors_copy@[k])),
        decreases count - t,
    {
        let n_id = neighbors_copy[t];
        let ghost before = vs@;
        proof {
            assert(!neighbors_copy@.subrange(0, t as int).contains(n_id));
            assert(links(before, n_id as int, layer as int) == links(v1, n_id as int, layer as int));
        }
        push_link(vs, n_id, layer, new_id);
        let over = vs[n_id].layers[layer].len() > m_max;
        let ghost tasks_before = shrink_tasks@;
        if over {
            shrink_tasks.push(n_id);
        }
        t = t + 1;
        proof {
            let after = vs@;
            let prev_range = neighbors_copy@.subrange(0, t - 1);
            let cur_range = neighbors_copy@.subrange(0, t as int);
            assert(cur_range =~= prev_range.push(n_id));
            assert(cur_range[t - 1] == n_id);
            lemma_payload_trans(v1, before, after);
            lemma_payload_indexed(before, after);
            assert forall|i: int, l: int, k: int| has_layer(after, i, l) && 0 <= k < links(after, i, l).len() implies {
                let j = #[trigger] links(after, i, l)[k];
                &&& (j as int) < after.len()
                &&& j as int != i
                &&& has_layer(after, j as int, l)
            } by {
                if i == n_id && l == layer {
                    if k < links(before, i, l).len() {
                        assert(links(after, i, l)[k] == links(before, i, l)[k]);
                    }
                } else {
                    assert(links(after, i, l) == links(before, i, l));
                    assert(links(after, i, l)[k] == links(before, i, l)[k]);
                }
            }
            assert forall|j: int| has_layer(v1, j, layer as int) && !neighbors_copy@.subrange(0, t as int).contains(j as usize) implies
                #[trigger] links(after, j, layer as int) == links(v1, j, layer as int) by {
                assert(!neighbors_copy@.subrange(0, t - 1).contains(j as usize));
                assert(j != n_id);
                assert(links(after, j, layer as int) == links(before, j, layer as int));
            }
            assert forall|k: int| 0 <= k < t implies {
                let j = #[trigger] neighbors_copy@[k] as int;
                &&& links(after, j, layer as int) == links(v1, j, layer as int).push(new_id)
            } by {
                if k < t - 1 {
                    let j = neighbors_copy@[k] as int;
                    assert(neighbors_copy@[k] != n_id);
                    assert(links(after, j, layer as int) == links(before, j, layer as int));
                }
            }
            assert forall|k: int| 0 <= k < shrink_tasks@.len() implies neighbors_copy@.subrange(0, t as int).contains(#[trigger] shrink_tasks@[k]) by {
                if k < tasks_before.len() {
                    assert(neighbors_copy@.subrange(0, t - 1).contains(tasks_before[k]));
                    let w = choose|w: int| 0 <= w < prev_range.len() && prev_range[w] == tasks_before[k];
                    assert(cur_range[w] == tasks_before[k]);
                } else {
                    assert(neighbors_copy@.subrange(0, t as int)[t - 1] == n_id);
                }
            }
            assert(shrink_tasks@.no_duplicates()) by {
                if over {
                    assert(!tasks_before.contains(n_id)) by {
                        if tasks_before.contains(n_id) {
                            let w = choose|w: int| 0 <= w < tasks_before.len() && tasks_before[w] == n_id;
                            assert(neighbors_copy@.subrange(0, t - 1).contains(tasks_before[w]));
                        }
                    }
                }
            }
            assert forall|k: int| 0 <= k < t implies (links(after, #[trigger] neighbors_copy@[k] as int, layer as int).len() > m_max <==> shrink_tasks@.contains(neighbors_copy@[k])) by {
                if k < t - 1 {
                    assert(neighbors_copy@[k] != n_id);
                    if over {
                        assert(shrink_tasks@ == tasks_before.push(n_id));
                        if tasks_before.contains(neighbors_copy@[k]) {
                            let w = choose|w: int| 0 <= w < tasks_before.len() && tasks_before[w] == neighbors_copy@[k];
                            assert(shrink_tasks@[w] == neighbors_copy@[k]);
                        }
                        if shrink_tasks@.contains(neighbors_copy@[k]) {
                            let w = choose|w: int| 0 <= w < shrink_tasks@.len() && shrink_tasks@[w] == neighbors_copy@[k];
                            if w == tasks_before.len() {
                                assert(false);
                            } else {
                                assert(tasks_before[w] == neighbors_copy@[k]);
                            }
                        }
                    }
                } else {
                    assert(neighbors_copy@[k] == n_id);
                    if !over {
                        if tasks_before.contains(n_id) {
                            let w = choose|w: int| 0 <= w < tasks_before.len() && tasks_before[w] == n_id;
                            assert(neighbors_copy@.subrange(0, t - 1).contains(tasks_before[w]));
                        }
                    } else {
                        assert(shrink_tasks@[shrink_tasks@.len() - 1] == n_id);
                    }
                }
            }
        }
    }
    // State after the reverse links: only the remembered lists exceed their bound, by one.
    let ghost v2 = vs@;
    proof {
        assert forall|i: int, l2: int| #![trigger links(v2, i, l2)] has_layer(v2, i, l2) implies
            links(v2, i, l2).no_duplicates() && links(v2, i, l2).len() <= max_degree(l2) + (if l2 == layer && shrink_tasks@.contains(i as usize) { 1int } else { 0int }) by {
            assert(has_layer(v1, i, l2));
            if l2 != layer {
                assert(links(v2, i, l2) == links(v1, i, l2));
            } else if neighbors_copy@.contains(i as usize) {
                let k = choose|k: int| 0 <= k < count && neighbors_copy@[k] == i as usize;
                assert(neighbors_copy@.subrange(0, count as int) =~= neighbors_copy@);
                assert(links(v2, i, l2) == links(v1, i, l2).push(new_id));
                assert(!links(v1, i, l2).contains(new_id)) by {
                    if links(v1, i, l2).contains(new_id) {
                        let m = choose|m: int| 0 <= m < links(v1, i, l2).len() && links(v1, i, l2)[m] == new_id;
                        assert(linked_at(v1, layer as int, new_id));
                    }
                }
            } else {
                assert(neighbors_copy@.subrange(0, count as int) =~= neighbors_copy@);
                assert(links(v2, i, l2) == links(v1, i, l2));
            }
        }
        assert(!shrink_tasks@.contains(new_id)) by {
            if shrink_tasks@.contains(new_id) {
                let w = choose|w: int| 0 <= w < shrink_tasks@.len() && shrink_tasks@[w] == new_id;
                assert(neighbors_copy@.subrange(0, count as int).contains(shrink_tasks@[w]));
                let z = choose|z: int| 0 <= z < count && neighbors_copy@.subrange(0, count as int)[z] == new_id;
                assert(neighbors_copy@[z] == new_id);
            }
        }
        assert(neighbors_copy@.subrange(0, count as int) =~= neighbors_copy@);
        assert forall|k: int| 0 <= k < count implies links(v2, #[trigger] neighbors_copy@[k] as int, layer as int).contains(new_id) by {
            let j = neighbors_copy@[k] as int;
            let pushed = links(v1, j, layer as int).push(new_id);
            assert(links(v2, j, layer as int) == pushed);
            assert(pushed[pushed.len() - 1] == new_id);
        }
        assert forall|k: int| 0 <= k < count implies #[trigger] linked_back(*metric, v2, new_id as int, neighbors_copy@[k] as int, layer as int) by {
            assert(links(v2, neighbors_copy@[k] as int, layer as int).contains(new_id));
        }
        assert forall|k: int| 0 <= k < shrink_tasks@.len() implies links(v2, #[trigger] shrink_tasks@[k] as int, layer as int).contains(new_id) by {
            assert(neighbors_copy@.subrange(0, count as int).contains(shrink_tasks@[k]));
            let z = choose|z: int| 0 <= z < count && neighbors_copy@.subrange(0, count as int)[z] == shrink_tasks@[k];
            assert(neighbors_copy@[z] == shrink_tasks@[k]);
            assert(links(v2, neighbors_copy@[z] as int, layer as int).contains(new_id));
        }
        assert forall|i: int, l: int| has_layer(v0, i, l) && links(v0, i, l).len() > 0 implies #[trigger] links(v2, i, l).len() > 0 by {
            assert(has_layer(v1, i, l));
            if l != layer {
                assert(links(v2, i, l) == links(v1, i, l));
                assert(links(v1, i, l) == links(v0, i, l));
            } else {
                assert(i != new_id);
                assert(links(v1, i, l) == links(v0, i, l));
                if neighbors_copy@.contains(i as usize) {
                    let k = choose|k: int| 0 <= k < count && neighbors_copy@[k] == i as usize;
                    assert(links(v2, i, l) == links(v1, i, l).push(new_id));
                } else {
                    assert(links(v2, i, l) == links(v1, i, l));
                }
            }
        }
    }
    // Cut the lists that went past their bound.
    let mut u: usize = 0;
    assert(shrink_tasks@.subrange(0, shrink_tasks@.len() as int) =~= shrink_tasks@);
    while u < shrink_tasks.len()
        invariant
            metric_ok::<E, F>(*metric),
            m_max == max_degree(layer as int),
            u <= shrink_tasks@.len(),
            shrink_tasks@.no_duplicates(),
            !shrink_tasks@.contains(new_id),
            forall|k: int| 0 <= k < shrink_tasks@.len() ==> has_layer(v2, #[trigger] shrink_tasks@[k] as int, layer as int),
            new_id + 1 == vs@.len(),
            same_payload(v2, vs@),
            nodes_indexed(vs@),
            links_valid(vs@),
            forall|j: int, l2: int| has_layer(v2, j, l2) && l2 != layer ==> #[trigger] links(vs@, j, l2) == links(v2, j, l2),
            links(vs@, new_id as int, layer as int) == links(v2, new_id as int, layer as int),
            has_layer(vs@, new_id as int, layer as int),
            forall|i: int, l2: int| #![trigger links(vs@, i, l2)] has_layer(vs@, i, l2) ==>
                links(vs@, i, l2).no_duplicates() && links(vs@, i, l2).len() <= max_degree(l2) + (if l2 == layer && shrink_tasks@.subrange(u as int, shrink_tasks@.len() as int).contains(i as usize) { 1int } else { 0int }),
            forall|k: int| u <= k < shrink_tasks@.len() ==> links(vs@, #[trigger] shrink_tasks@[k] as int, layer as int).len() > m_max,
            forall|k: int| 0 <= k < count ==> has_layer(v2, #[trigger] neighbors_copy@[k] as int, layer as int),
            kept_linked(v2, vs@),
            links_valid(v2),
            forall|j: int| has_layer(v2, j, layer as int) && !shrink_tasks@.contains(j as usize) ==> #[trigger] links(vs@, j, layer as int) == links(v2, j, layer as int),
            forall|k: int| u <= k < shrink_tasks@.len() ==> #[trigger] links(vs@, shrink_tasks@[k] as int, layer as int) == links(v2, shrink_tasks@[k] as int, layer as int),
            forall|k: int| 0 <= k < u ==> links(vs@, #[trigger] shrink_tasks@[k] as int, layer as int).len() == m_max && cut_to(
                *metric,
                vs@,
                links(vs@, shrink_tasks@[k] as int, layer as int),
                shrink_tasks@[k] as int,
                links(v2, shrink_tasks@[k] as int, layer as int),
            ),
            forall|k: int| u <= k < shrink_tasks@.len() ==> links(vs@, #[trigger] shrink_tasks@[k] as int, layer as int).contains(new_id),
            forall|k: int| 0 <= k < count ==> #[trigger] linked_back(*metric, vs@, new_id as int, neighbors_copy@[k] as int, layer as int),
        decreases shrink_tasks@.len() - u,
    {
        let s_id = shrink_tasks[u];
        let ghost before = vs@;
        proof {
            assert(shrink_tasks@.subrange(u as int, shrink_tasks@.len() as int)[0] == s_id);
        }
        shrink_links(vs, s_id, layer, m_max, metric);
        u = u + 1;
        proof {
            let after = vs@;
            assert(shrink_tasks@[u - 1] == s_id);
            assert(s_id != new_id);
            lemma_payload_trans(v2, before, after);
            lemma_payload_indexed(before, after);
            assert forall|i: int, l: int, k: int| has_layer(after, i, l) && 0 <= k < links(after, i, l).len() implies {
                let j = #[trigger] links(after, i, l)[k];
                &&& (j as int) < after.len()
                &&& j as int != i
                &&& has_layer(after, j as int, l)
            } by {
                if i == s_id && l == layer {
                    let x = links(after, i, l)[k];
                    assert(links(before, i, l).contains(x));
                    let m = choose|m: int| 0 <= m < links(before, i, l).len() && links(before, i, l)[m] == x;
                    assert(links(before, i, l)[m] == x);
                } else {
                    assert(links(after, i, l) == links(before, i, l));
                    assert(links(after, i, l)[k] == links(before, i, l)[k]);
                }
            }
            let rest_before = shrink_tasks@.subrange(u - 1, shrink_tasks@.len() as int);
            let rest_after = shrink_tasks@.subrange(u as int, shrink_tasks@.len() as int);
            assert forall|x: usize| rest_after.contains(x) implies rest_before.contains(x) && x != s_id by {
                let w = choose|w: int| 0 <= w < rest_after.len() && rest_after[w] == x;
                assert(rest_before[w + 1] == x);
                assert(shrink_tasks@[u + w] == x);
                assert(shrink_tasks@[u - 1] == s_id);
            }
            assert forall|i: int, l2: int| #![trigger links(after, i, l2)] has_layer(after, i, l2) implies
                links(after, i, l2).no_duplicates() && links(after, i, l2).len() <= max_degree(l2) + (if l2 == layer && rest_after.contains(i as usize) { 1int } else { 0int }) by {
                if !(i == s_id && l2 == layer) {
                    assert(links(after, i, l2) == links(before, i, l2));
                    if l2 == layer && rest_before.contains(i as usize) && !rest_after.contains(i as usize) {
                        let w = choose|w: int| 0 <= w < rest_before.len() && rest_before[w] == i as usize;
                        if w == 0 {
                            assert(false);
                        } else {
                            assert(rest_after[w - 1] == i as usize);
                        }
                    }
                }
            }
            assert forall|k: int| u <= k < shrink_tasks@.len() implies links(after, #[trigger] shrink_tasks@[k] as int, layer as int).len() > m_max by {
                assert(shrink_tasks@[k] != s_id);
                assert(links(after, shrink_tasks@[k] as int, layer as int) == links(before, shrink_tasks@[k] as int, layer as int));
            }
            assert forall|j: int| has_layer(v2, j, layer as int) && !shrink_tasks@.contains(j as usize) implies #[trigger] links(after, j, layer as int) == links(v2, j, layer as int) by {
                assert(j != s_id);
                assert(links(after, j, layer as int) == links(before, j, layer as int));
            }
            assert forall|k: int| u <= k < shrink_tasks@.len() implies #[trigger] links(after, shrink_tasks@[k] as int, layer as int) == links(v2, shrink_tasks@[k] as int, layer as int) by {
                assert(shrink_tasks@[k] != s_id);
                assert(links(after, shrink_tasks@[k] as int, layer as int) == links(before, shrink_tasks@[k] as int, layer as int));
            }
            assert forall|k: int| 0 <= k < u implies links(after, #[trigger] shrink_tasks@[k] as int, layer as int).len() == m_max && cut_to(
                *metric,
                after,
                links(after, shrink_tasks@[k] as int, layer as int),
                shrink_tasks@[k] as int,
                links(v2, shrink_tasks@[k] as int, layer as int),
            ) by {
                let t = shrink_tasks@[k] as int;
                let cands = links(v2, t, layer as int);
                assert(has_layer(v2, t, layer as int));
                assert forall|w: int| 0 <= w < cands.len() implies (#[trigger] cands[w] as int) < before.len() by {
                    assert(links(v2, t, layer as int)[w] == cands[w]);
                }
                if k == u - 1 {
                    assert(t == s_id);
                    assert(links(before, t, layer as int) == cands);
                } else {
                    assert(t != s_id);
                    assert(links(after, t, layer as int) == links(before, t, layer as int));
                }
                lemma_cut_to_payload(*metric, before, after, links(after, t, layer as int), t, cands);
            }
            assert forall|i: int, l: int| has_layer(v2, i, l) && links(v2, i, l).len() > 0 implies #[trigger] links(after, i, l).len() > 0 by {
                assert(links(before, i, l).len() > 0);
                if !(i == s_id && l == layer) {
                    assert(links(after, i, l) == links(before, i, l));
                }
            }
            assert forall|k: int| u <= k < shrink_tasks@.len() implies links(after, #[trigger] shrink_tasks@[k] as int, layer as int).contains(new_id) by {
                assert(shrink_tasks@[k] != s_id);
                assert(links(after, shrink_tasks@[k] as int, layer as int) == links(before, shrink_tasks@[k] as int, layer as int));
            }
            assert(links(before, s_id as int, layer as int).contains(new_id));
            assert forall|k: int| 0 <= k < count implies #[trigger] linked_back(*metric, after, new_id as int, neighbors_copy@[k] as int, layer as int) by {
                let j = neighbors_copy@[k] as int;
                assert(has_layer(before, j, layer as int));
                if j != s_id {
                    assert(links(after, j, layer as int) == links(before, j, layer as int));
                    lemma_linked_back_frame(*metric, before, after, new_id as int, j, layer as int);
                } else if !links(after, j, layer as int).contains(new_id) {
                    let lj = links(after, j, layer as int);
                    assert forall|a: int, da: u32, dn: u32|
                        0 <= a < lj.len() && #[trigger] measured(*metric, after[lj[a] as int].embeddings, after[j].embeddings, da)
                            && #[trigger] measured(*metric, after[new_id as int].embeddings, after[j].embeddings, dn) implies da <= dn by {
                        assert(has_layer(after, j, layer as int));
                        assert((lj[a] as int) < after.len());
                        assert(after[lj[a] as int].embeddings == before[lj[a] as int].embeddings);
                        assert(after[j].embeddings == before[j].embeddings);
                        assert(after[new_id as int].embeddings == before[new_id as int].embeddings);
                    }
                }
            }
        }
    }
    proof {
        let fin = vs@;
        assert forall|i: int, l2: int| #![trigger links(fin, i, l2)] has_layer(fin, i, l2) implies
            links(fin, i, l2).len() <= max_degree(l2) && links(fin, i, l2).no_duplicates() by {
            assert(shrink_tasks@.subrange(u as int, shrink_tasks@.len() as int).len() == 0);
        }
        assert(same_payload(v0, fin));
        assert forall|j: int, l2: int| has_layer(v0, j, l2) && l2 != layer implies #[trigger] links(fin, j, l2) == links(v0, j, l2) by {
            assert(links(v1, j, l2) == links(v0, j, l2));
            assert(links(v2, j, l2) == links(v1, j, l2));
        }
        assert forall|k: int| 0 <= k < next_ep@.len() implies (#[trigger] next_ep@[k]) != new_id && has_layer(fin, next_ep@[k] as int, layer as int) by {
            assert(next_ep@[k] == sorted@[k].1);
        }
        let nl = links(fin, new_id as int, layer as int);
        assert(nl == neighbors_copy@);
        assert(sorted@.len() == res.len());
        assert forall|a: int, b: int, da: u32, db: u32|
            0 <= a < b < nl.len() && #[trigger] measured(*metric, fin[nl[a] as int].embeddings, fin[new_id as int].embeddings, da)
                && #[trigger] measured(*metric, fin[nl[b] as int].embeddings, fin[new_id as int].embeddings, db) implies da <= db by {
            let pa = sorted@[a];
            let pb = sorted@[b];
            assert(nl[a] == pa.1);
            assert(nl[b] == pb.1);
            assert(has_layer(v0, pa.1 as int, layer as int));
            assert(has_layer(v0, pb.1 as int, layer as int));
            assert(fin[pa.1 as int].embeddings == v0[pa.1 as int].embeddings);
            assert(fin[pb.1 as int].embeddings == v0[pb.1 as int].embeddings);
            assert(fin[new_id as int].embeddings == v0[new_id as int].embeddings);
            assert(measured(*metric, v0[pa.1 as int].embeddings, v0[new_id as int].embeddings, pa.0));
            assert(measured(*metric, v0[pb.1 as int].embeddings, v0[new_id as int].embeddings, pb.0));
            assert(scored_le(pa, pb));
        }
        assert(nl =~= next_ep@.take(count as int));
        assert forall|a: int, b: int, da: u32, db: u32|
            0 <= a < b < next_ep@.len() && #[trigger] measured(*metric, fin[next_ep@[a] as int].embeddings, fin[new_id as int].embeddings, da)
                && #[trigger] measured(*metric, fin[next_ep@[b] as int].embeddings, fin[new_id as int].embeddings, db) implies da <= db by {
            let pa = sorted@[a];
            let pb = sorted@[b];
            assert(next_ep@[a] == pa.1);
            assert(next_ep@[b] == pb.1);
            assert(has_layer(v0, pa.1 as int, layer as int));
            assert(has_layer(v0, pb.1 as int, layer as int));
            assert(fin[pa.1 as int].embeddings == v0[pa.1 as int].embeddings);
            assert(fin[pb.1 as int].embeddings == v0[pb.1 as int].embeddings);
            assert(fin[new_id as int].embeddings == v0[new_id as int].embeddings);
            assert(measured(*metric, v0[pa.1 as int].embeddings, v0[new_id as int].embeddings, pa.0));
            assert(measured(*metric, v0[pb.1 as int].embeddings, v0[new_id as int].embeddings, pb.0));
            assert(scored_le(pa, pb));
        }
        assert forall|k: int| 0 <= k < nl.len() implies #[trigger] linked_back(*metric, fin, new_id as int, nl[k] as int, layer as int) by {
            assert(nl[k] == neighbors_copy@[k]);
        }
        assert(joined(*metric, fin, new_id as int, layer as int));
        assert forall|j: int|
            has_layer(v0, j, layer as int) && j != new_id && !nl.contains(j as usize) implies #[trigger] links(fin, j, layer as int) == links(v0, j, layer as int) by {
            assert(has_layer(v1, j, layer as int));
            assert(!neighbors_copy@.subrange(0, count as int).contains(j as usize));
            assert(links(v2, j, layer as int) == links(v1, j, layer as int));
            assert(links(v1, j, layer as int) == links(v0, j, layer as int));
            if shrink_tasks@.contains(j as usize) {
                let w = choose|w: int| 0 <= w < shrink_tasks@.len() && shrink_tasks@[w] == j as usize;
                assert(neighbors_copy@.subrange(0, count as int).contains(shrink_tasks@[w]));
            }
            assert(has_layer(v2, j, layer as int));
        }
        assert forall|k: int| 0 <= k < nl.len() implies #[trigger] neighbour_updated(*metric, v0, fin, new_id as int, nl[k] as int, layer as int) by {
            let j = nl[k] as int;
            assert(nl[k] == neighbors_copy@[k]);
            assert(has_layer(v1, j, layer as int));
            assert(links(v1, j, layer as int) == links(v0, j, layer as int));
            assert(neighbors_copy@.subrange(0, count as int)[k] == neighbors_copy@[k]);
            assert(links(v2, j, layer as int) == links(v1, j, layer as int).push(new_id));
            assert(links(v0, j, layer as int).len() <= max_degree(layer as int));
            if links(v2, j, layer as int).len() > m_max {
                assert(shrink_tasks@.contains(j as usize));
                let w = choose|w: int| 0 <= w < shrink_tasks@.len() && shrink_tasks@[w] == j as usize;
                assert(links(fin, shrink_tasks@[w] as int, layer as int).len() == m_max);
            } else {
                if shrink_tasks@.contains(j as usize) {
                    assert(links(v2, neighbors_copy@[k] as int, layer as int).len() > m_max);
                }
                assert(has_layer(v2, j, layer as int));
                assert(links(fin, j, layer as int) == links(v2, j, layer as int));
            }
        }
        assert forall|i: int, l: int| has_layer(v0, i, l) && links(v0, i, l).len() > 0 implies #[trigger] links(fin, i, l).len() > 0 by {
            assert(links(v2, i, l).len() > 0);
            assert(has_layer(v2, i, l));
        }
    }
    next_ep
}

// ------------------------------ checking a stored graph ------------------------------
fn list_has_no_duplicates(list: &Vec<usize>) -> (b: bool)
    ensures
        b == list@.no_duplicates(),
{
    let mut a: usize = 0;
    while a < list.len()
        invariant
            a <= list@.len(),
            forall|x: int, y: int| 0 <= x < a && 0 <= y < list@.len() && x != y ==> list@[x] != list@[y],
        decreases list@.len() - a,
    {
        let mut c: usize = 0;
        while c < list.len()
            invariant
                a < list@.len(),
                c <= list@.len(),
                forall|x: int, y: int| 0 <= x < a && 0 <= y < list@.len() && x != y ==> list@[x] != list@[y],
                forall|y: int| 0 <= y < c && y != a ==> list@[a as int] != list@[y],
            decreases list@.len() - c,
        {
            if c != a && list[a] == list[c] {
                return false;
            }
            c = c + 1;
        }
        a = a + 1;
    }
    true
}

/// Checks node `i`: it sits at index `i`, takes part in layer 0, and each of
/// its lists is valid, without repeats and within its degree bound.
fn node_is_wf<E>(vs: &Vec<Record<E>>, i: usize) -> (b: bool)
    requires
        i < vs@.len(),
    ensures
        b == node_wf(vs@, i as int),
{
    let rec = &vs[i];
    if rec.mapped_id != i || rec.layers.len() == 0 {
        return false;
    }
    let mut l: usize = 0;
    while l < rec.layers.len()
        invariant
            i < vs@.len(),
            rec == vs@[i as int],
            rec.mapped_id == i,
            rec.layers@.len() >= 1,
            l <= rec.layers@.len(),
            forall|l2: int| 0 <= l2 < l ==> #[trigger] list_wf(vs@, i as int, l2),
        decreases rec.layers@.len() - l,
    {
        let list = &rec.layers[l];
        let bound = if l == 0 { M_MAX_0 } else { M };
        if list.len() > bound || !list_has_no_duplicates(list) {
            proof {
                assert(!list_wf(vs@, i as int, l as int));
            }
            return false;
        }
        let mut k: usize = 0;
        while k < list.len()
            invariant
                i < vs@.len(),
                rec == vs@[i as int],
                l < rec.layers@.len(),
                list@ == links(vs@, i as int, l as int),
                k <= list@.len(),
                forall|k2: int| 0 <= k2 < k ==> #[trigger] link_ok(vs@, i as int, l as int, list@[k2]),
            decreases list@.len() - k,
        {
            let j = list[k];
            if j >= vs.len() || j == i || vs[j].layers.len() <= l {
                proof {
                    assert(!link_ok(vs@, i as int, l as int, list@[k as int]));
                    assert(!list_wf(vs@, i as int, l as int));
                }
                return false;
            }
            k = k + 1;
        }
        l = l + 1;
    }
    true
}

/// The link `j` in a list of node `i` on layer `l` is valid.
pub open spec fn link_ok<E>(vs: Seq<Record<E>>, i: int, l: int, j: usize) -> bool {
    (j as int) < vs.len() && j as int != i && has_layer(vs, j as int, l)
}

/// The list of node `i` on layer `l` is valid, without repeats and within its bound.
pub open spec fn list_wf<E>(vs: Seq<Record<E>>, i: int, l: int) -> bool {
    &&& links(vs, i, l).len() <= max_degree(l)
    &&& links(vs, i, l).no_duplicates()
    &&& forall|k: int| 0 <= k < links(vs, i, l).len() ==> #[trigger] link_ok(vs, i, l, links(vs, i, l)[k])
}

/// Node `i` sits at index `i`, takes part in layer 0, and all its lists are well formed.
pub open spec fn node_wf<E>(vs: Seq<Record<E>>, i: int) -> bool {
    &&& vs[i].mapped_id == i
    &&& vs[i].layers@.len() >= 1
    &&& forall|l: int| 0 <= l < vs[i].layers@.len() ==> #[trigger] list_wf(vs, i, l)
}

/// Decides `graph_wf` for a stored graph.
pub fn graph_is_wf<E>(vs: &Vec<Record<E>>, entry: Option<usize>, top: usize) -> (b: bool)
    ensures
        b == graph_wf(vs@, entry, top),
{
    let mut i: usize = 0;
    while i < vs.len()
        invariant
            i <= vs@.len(),
            forall|i2: int| 0 <= i2 < i ==> #[trigger] node_wf(vs@, i2),
        decreases vs@.len() - i,
    {
        if !node_is_wf(vs, i) {
            proof {
                assert(!nodes_indexed(vs@) || !links_valid(vs@) || !degrees_bounded(vs@)) by {
                    if nodes_indexed(vs@) && links_valid(vs@) && degrees_bounded(vs@) {
                        assert(vs@[i as int].mapped_id == i);
                        assert forall|l: int| 0 <= l < vs@[i as int].layers@.len() implies #[trigger] list_wf(vs@, i as int, l) by {
                            assert(links(vs@, i as int, l).len() <= max_degree(l));
                            assert forall|k: int| 0 <= k < links(vs@, i as int, l).len() implies #[trigger] link_ok(vs@, i as int, l, links(vs@, i as int, l)[k]) by {
                                assert(has_layer(vs@, i as int, l));
                            }
                        }
                    }
                }
            }
            return false;
        }
        i = i + 1;
    }
    proof {
        assert forall|i2: int| 0 <= i2 < vs@.len() implies (#[trigger] vs@[i2]).mapped_id == i2 && vs@[i2].layers@.len() >= 1 by {
            assert(node_wf(vs@, i2));
        }
        assert forall|i2: int, l: int, k: int| has_layer(vs@, i2, l) && 0 <= k < links(vs@, i2, l).len() implies {
            let j = #[trigger] links(vs@, i2, l)[k];
            &&& (j as int) < vs@.len()
            &&& j as int != i2
            &&& has_layer(vs@, j as int, l)
        } by {
            assert(node_wf(vs@, i2));
            assert(list_wf(vs@, i2, l));
            assert(link_ok(vs@, i2, l, links(vs@, i2, l)[k]));
        }
        assert forall|i2: int, l: int| #![trigger links(vs@, i2, l)] has_layer(vs@, i2, l) implies links(vs@, i2, l).len()
            <= max_degree(l) && links(vs@, i2, l).no_duplicates() by {
            assert(node_wf(vs@, i2));
            assert(list_wf(vs@, i2, l));
        }
    }
    match entry {
        None => vs.len() == 0 && top == 0,
        Some(e) => e < vs.len() && top < vs[e].layers.len(),
    }
}
} // verus!
