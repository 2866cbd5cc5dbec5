//! Collections of records and the HNSW index over them.
use vstd::hash_map::StringHashMap;
use vstd::prelude::*;
use vstd::string::StrSliceExecFns;
use crate::errors::RecordError;
use crate::graph::{
    beam_result, empty_layers, graph_is_wf, graph_wf, greedy_closest, has_layer, joined, layer_linked, neighbour_updated, kept_linked, link_layer, linked_at, links, links_valid, measured, metric_ok,
    neighbours_no_closer, nodes_indexed, degrees_bounded, same_payload, search_layer, Metadata, Record, EF_CONSTRUCTION, EF_SEARCH, M,
};
use crate::scored::{lemma_min_key, min_key, node_ids, position_of_min, scored_le, sorted_scored};
use crate::text::{vector_id, vector_id_of};

verus! {

broadcast use vstd::string::group_string_axioms, vstd::hash_map::group_hash_map_axioms;

/// Map from each record id to the index of the last record carrying it.
pub open spec fn id_index<E>(vs: Seq<Record<E>>) -> Map<Seq<char>, usize>
    decreases vs.len(),
{
    if vs.len() == 0 {
        Map::empty()
    } else {
        id_index(vs.drop_last()).insert(vs.last().id@, (vs.len() - 1) as usize)
    }
}

pub proof fn lemma_id_index<E>(vs: Seq<Record<E>>)
    requires
        vs.len() <= usize::MAX,
    ensures
        forall|k: Seq<char>| #[trigger] id_index(vs).contains_key(k) ==> {
            &&& (id_index(vs)[k] as int) < vs.len()
            &&& vs[id_index(vs)[k] as int].id@ == k
        },
        forall|i: int| 0 <= i < vs.len() ==> id_index(vs).contains_key(#[trigger] vs[i].id@),
    decreases vs.len(),
{
    if vs.len() > 0 {
        let t = vs.drop_last();
        lemma_id_index(t);
        assert forall|i: int| 0 <= i < vs.len() implies id_index(vs).contains_key(#[trigger] vs[i].id@) by {
            if i < vs.len() - 1 {
                assert(vs[i] == t[i]);
                assert(id_index(t).contains_key(t[i].id@));
            }
        }
        assert forall|k: Seq<char>| #[trigger] id_index(vs).contains_key(k) implies {
            &&& (id_index(vs)[k] as int) < vs.len()
            &&& vs[id_index(vs)[k] as int].id@ == k
        } by {
            if k != vs.last().id@ {
                assert(id_index(t).contains_key(k));
                assert(id_index(vs)[k] == id_index(t)[k]);
                assert(vs[id_index(t)[k] as int] == t[id_index(t)[k] as int]);
            } else {
                assert(id_index(vs)[k] == (vs.len() - 1) as usize);
                assert(vs[vs.len() - 1] == vs.last());
            }
        }
    }
}

proof fn lemma_id_index_payload<E>(a: Seq<Record<E>>, b: Seq<Record<E>>)
    requires
        same_payload(a, b),
    ensures
        id_index(a) == id_index(b),
    decreases a.len(),
{
    if a.len() > 0 {
        let ta = a.drop_last();
        let tb = b.drop_last();
        assert(same_payload(ta, tb)) by {
            assert forall|i: int| 0 <= i < ta.len() implies {
                &&& (#[trigger] ta[i]).id == tb[i].id
                &&& ta[i].mapped_id == tb[i].mapped_id
                &&& ta[i].embeddings == tb[i].embeddings
                &&& ta[i].metadata == tb[i].metadata
                &&& ta[i].layers@.len() == tb[i].layers@.len()
            } by {
                assert(ta[i] == a[i]);
                assert(tb[i] == b[i]);
            }
        }
        lemma_id_index_payload(ta, tb);
        assert(a.last().id == b.last().id);
    }
}

/// An index type is HNSW when its uppercase form is `HNSW`. Besides the
/// ASCII letters, only U+017F (long s), whose uppercase is `S`, uppercases
/// to one of these four letters.
pub open spec fn is_hnsw_name(s: Seq<char>) -> bool {
    &&& s.len() == 4
    &&& (s[0] == 'h' || s[0] == 'H')
    &&& (s[1] == 'n' || s[1] == 'N')
    &&& (s[2] == 's' || s[2] == 'S' || s[2] == '\u{17F}')
    &&& (s[3] == 'w' || s[3] == 'W')
}

/// Decides `is_hnsw_name`.
pub fn indexing_type_is_hnsw(s: &str) -> (b: bool)
    ensures
        b == is_hnsw_name(s@),
{
    if s.unicode_len() != 4 {
        return false;
    }
    let c0 = s.get_char(0);
    let c1 = s.get_char(1);
    let c2 = s.get_char(2);
    let c3 = s.get_char(3);
    (c0 == 'h' || c0 == 'H') && (c1 == 'n' || c1 == 'N') && (c2 == 's' || c2 == 'S' || c2 == '\u{17F}') && (c3 == 'w'
        || c3 == 'W')
}

/// A named set of vectors with its HNSW graph: records in insertion order,
/// the map from record ids to indices, the graph's entry point and top layer.
pub struct Collection<E> {
    pub(crate) name: String,
    pub(crate) vectors: Vec<Record<E>>,
    pub(crate) id_map: StringHashMap<usize>,
    pub(crate) entry_point: Option<usize>,
    pub(crate) max_layer: usize,
    pub(crate) next_id: usize,
    pub(crate) indexing_type: String,
}

impl<E> Collection<E> {
    #[verifier::type_invariant]
    spec fn inv(self) -> bool {
        &&& self.next_id == self.vectors@.len()
        &&& graph_wf(self.vectors@, self.entry_point, self.max_layer)
        &&& self.id_map@ == id_index(self.vectors@)
    }

    pub closed spec fn records(&self) -> Seq<Record<E>> {
        self.vectors@
    }

    pub closed spec fn entry(&self) -> Option<usize> {
        self.entry_point
    }

    pub closed spec fn top_layer(&self) -> usize {
        self.max_layer
    }

    pub closed spec fn name_view(&self) -> Seq<char> {
        self.name@
    }

    pub closed spec fn indexing_type_view(&self) -> Seq<char> {
        self.indexing_type@
    }

    /// Every collection holds a well-formed graph (see `graph_wf`): the
    /// invariant that all operations keep, made available to verified callers.
    pub fn well_formed_graph(&self)
        ensures
            graph_wf(self.records(), self.entry(), self.top_layer()),
    {
        proof {
            use_type_invariant(self);
        }
    }

    /// An empty collection; its index type is `HNSW` unless another is given.
    pub fn new(name: &str, indexing_type: Option<&str>) -> (c: Self)
        ensures
            c.name_view() == name@,
            c.indexing_type_view() == match indexing_type {
                Some(t) => t@,
                None => "HNSW"@,
            },
            c.records().len() == 0,
            c.entry() is None,
            c.top_layer() == 0,
    {
        let indexing_type = indexing_type.unwrap_or("HNSW");
        Collection {
            name: name.to_string(),
            vectors: Vec::new(),
            id_map: StringHashMap::new(),
            entry_point: None,
            max_layer: 0,
            next_id: 0,
            indexing_type: indexing_type.to_string(),
        }
    }

    /// The record whose id is `id` (the last one inserted with that id).
    pub fn get(&self, id: &str) -> (res: Result<&Record<E>, RecordError>)
        ensures
            match res {
                Ok(r) => id_index(self.records()).contains_key(id@) && *r == self.records()[id_index(
                    self.records(),
                )[id@] as int],
                Err(e) => !id_index(self.records()).contains_key(id@) && e == RecordError::RecordNotFound(
                    e->RecordNotFound_0,
                ) && e->RecordNotFound_0@ == id@,
            },
    {
        proof {
            use_type_invariant(self);
            lemma_id_index(self.vectors@);
        }
        match self.id_map.get(id) {
            Some(i) => {
                let i = *i;
                if i < self.vectors.len() {
                    Ok(&self.vectors[i])
                } else {
                    Err(RecordError::RecordNotFound(id.to_string()))
                }
            },
            None => Err(RecordError::RecordNotFound(id.to_string())),
        }
    }
}

impl<E> Collection<E> {
    /// Rebuilds a collection from stored parts, after checking that the
    /// graph is well formed and that `next_id` counts the records; `None`
    /// when a check fails.
    pub fn from_parts(
        name: String,
        vectors: Vec<Record<E>>,
        entry_point: Option<usize>,
        max_layer: usize,
        next_id: usize,
        indexing_type: String,
    ) -> (res: Option<Self>)
        ensures
            res is Some <==> graph_wf(vectors@, entry_point, max_layer) && next_id == vectors@.len(),
            res matches Some(c) ==> c.records() == vectors@ && c.entry() == entry_point && c.top_layer() == max_layer
                && c.name_view() == name@ && c.indexing_type_view() == indexing_type@,
    {
        if next_id != vectors.len() || !graph_is_wf(&vectors, entry_point, max_layer) {
            return None;
        }
        let mut id_map: StringHashMap<usize> = StringHashMap::new();
        let mut i: usize = 0;
        while i < vectors.len()
            invariant
                i <= vectors@.len(),
                id_map@ == id_index(vectors@.take(i as int)),
            decreases vectors@.len() - i,
        {
            proof {
                assert(vectors@.take(i + 1).drop_last() =~= vectors@.take(i as int));
                assert(vectors@.take(i + 1).last() == vectors@[i as int]);
            }
            id_map.insert(vectors[i].id.clone(), i);
            i = i + 1;
        }
        proof {
            assert(vectors@.take(i as int) =~= vectors@);
        }
        Some(Collection { name, vectors, id_map, entry_point, max_layer, next_id, indexing_type })
    }

    /// The collection's name.
    pub fn name(&self) -> (r: &String)
        ensures
            r@ == self.name_view(),
    {
        &self.name
    }

    /// The records, in insertion order.
    pub fn vectors(&self) -> (r: &Vec<Record<E>>)
        ensures
            r@ == self.records(),
    {
        &self.vectors
    }

    /// The graph's entry point (`None` when empty).
    pub fn entry_point(&self) -> (r: Option<usize>)
        ensures
            r == self.entry(),
    {
        self.entry_point
    }

    /// The graph's top layer.
    pub fn max_layer(&self) -> (r: usize)
        ensures
            r == self.top_layer(),
    {
        self.max_layer
    }

    /// Index the next record will get: the number of records.
    pub fn next_id(&self) -> (r: usize)
        ensures
            r == self.records().len(),
    {
        proof {
            use_type_invariant(self);
        }
        self.next_id
    }

    /// The index type.
    pub fn indexing_type(&self) -> (r: &String)
        ensures
            r@ == self.indexing_type_view(),
    {
        &self.indexing_type
    }
}

/// The HNSW index: greedy descent through the upper layers, then a beam
/// search on the bottom layer. Distances come from a caller's function that
/// maps two vectors to an order key (smaller is closer).
pub struct HnswIndex;

impl HnswIndex {
    /// Links `record` into the collection's graph at levels `0..=node_max_layer`
    /// (its own neighbour lists are first emptied): a greedy descent from the
    /// entry point through the levels above, then a beam search of width
    /// `EF_CONSTRUCTION` on each linked level (see `linked_by_search`).
    /// On each of these levels that the graph already has, the new node is
    /// joined: it gets one to `M` neighbours, closest first (the closest of
    /// the nodes a beam search of width `EF_CONSTRUCTION` finds), and each of
    /// them gets the new node appended to its list, which is cut back to the
    /// level's bound, keeping the closest nodes by (key, index), when it grows
    /// past it; no other list of that level changes. A list that held a link
    /// never ends up empty. The new node's other lists are empty, and it has
    /// as many lists as it came with or as its level asks for, whichever is
    /// more. Above the graph's top level the new node becomes the entry point.
    pub fn insert<E, F: Fn(&E, &E) -> u32>(
        collection: &mut Collection<E>,
        record: Record<E>,
        node_max_layer: usize,
        metric: &F,
    )
        requires
            metric_ok::<E, F>(*metric),
            node_max_layer < usize::MAX,
            old(collection).records().len() < usize::MAX,
        ensures
            graph_wf(final(collection).records(), final(collection).entry(), final(collection).top_layer()),
            appended(
                old(collection).records(),
                final(collection).records(),
                record.id@,
                record.embeddings,
                record.metadata,
                linked_levels(record, node_max_layer),
            ),
            id_index(final(collection).records()) == id_index(old(collection).records()).insert(
                record.id@,
                old(collection).records().len() as usize,
            ),
            final(collection).name_view() == old(collection).name_view(),
            final(collection).indexing_type_view() == old(collection).indexing_type_view(),
            old(collection).records().len() == 0 ==> final(collection).entry() == Some(0usize) && final(collection).top_layer() == node_max_layer,
            old(collection).records().len() > 0 && node_max_layer > old(collection).top_layer() ==> final(collection).entry() == Some(old(collection).records().len() as usize) && final(collection).top_layer() == node_max_layer,
            old(collection).records().len() > 0 && node_max_layer <= old(collection).top_layer() ==> final(collection).entry() == old(collection).entry() && final(collection).top_layer() == old(collection).top_layer(),
            kept_linked(old(collection).records(), final(collection).records()),
            old(collection).records().len() > 0 ==> (old(collection).entry() matches Some(e) && linked_by_search(
                *metric,
                old(collection).records(),
                record.embeddings,
                e,
                old(collection).top_layer() as int,
                if node_max_layer < old(collection).top_layer() { node_max_layer as int } else { old(collection).top_layer() as int },
                final(collection).records(),
            )),
            old(collection).records().len() > 0 ==> forall|l: int|
                0 <= l <= node_max_layer && l <= old(collection).top_layer() ==> #[trigger] layer_linked(
                    *metric,
                    old(collection).records(),
                    final(collection).records(),
                    old(collection).records().len() as int,
                    l,
                ),
            forall|l: int|
                0 <= l < final(collection).records()[old(collection).records().len() as int].layers@.len() && (
                old(collection).records().len() == 0 || l > node_max_layer || l > old(collection).top_layer())
                    ==> #[trigger] links(final(collection).records(), old(collection).records().len() as int, l).len() == 0,
            old(collection).records().len() > 0 ==> forall|l: int|
                0 <= l <= node_max_layer && l <= old(collection).top_layer() ==> #[trigger] joined(
                    *metric,
                    final(collection).records(),
                    old(collection).records().len() as int,
                    l,
                ),
    {
        proof {
            use_type_invariant(&*collection);
        }
        let mut taken = Collection {
            name: String::new(),
            vectors: Vec::new(),
            id_map: StringHashMap::new(),
            entry_point: None,
            max_layer: 0,
            next_id: 0,
            indexing_type: String::new(),
        };
        std::mem::swap(collection, &mut taken);
        proof {
            use_type_invariant(&taken);
        }
        let Collection { name, mut vectors, mut id_map, mut entry_point, mut max_layer, mut next_id, indexing_type } =
            taken;
        let ghost old_vs = vectors@;
        let ghost old_entry = entry_point;
        let ghost old_top = max_layer;
        let mut record = record;
        let ghost rec_in = record;
        // The new node starts with no links, on as many layers as it has or
        // as its level asks for, whichever is more.
        let layer_count = if record.layers.len() > node_max_layer { record.layers.len() } else { node_max_layer + 1 };
        record.layers = empty_layers(layer_count);
        assert(record.layers@.len() == linked_levels(rec_in, node_max_layer));
        record.mapped_id = next_id;
        id_map.insert(record.id.clone(), record.mapped_id);
        next_id = next_id + 1;
        let ghost rec0 = record;
        if entry_point.is_none() {
            entry_point = Some(record.mapped_id);
            max_layer = node_max_layer;
            vectors.push(record);
            proof {
                assert(vectors@.drop_last() =~= old_vs);
                assert(links_valid(vectors@)) by {
                    assert forall|i: int, l: int, k: int| has_layer(vectors@, i, l) && 0 <= k < links(vectors@, i, l).len() implies {
                        let j = #[trigger] links(vectors@, i, l)[k];
                        &&& (j as int) < vectors@.len()
                        &&& j as int != i
                        &&& has_layer(vectors@, j as int, l)
                    } by {
                        assert(i == 0);
                        assert(links(vectors@, i, l).len() == 0);
                    }
                }
                assert(degrees_bounded(vectors@)) by {
                    assert forall|i: int, l: int| #![trigger links(vectors@, i, l)] has_layer(vectors@, i, l) implies
                        links(vectors@, i, l).len() <= crate::graph::max_degree(l) && links(vectors@, i, l).no_duplicates() by {
                        assert(links(vectors@, i, l).len() == 0);
                    }
                }
                assert(appended(old_vs, vectors@, rec_in.id@, rec_in.embeddings, rec_in.metadata, linked_levels(rec_in, node_max_layer)));
                assert(old_vs.len() == 0);
            }
            *collection = Collection { name, vectors, id_map, entry_point, max_layer, next_id, indexing_type };
            return ;
        }
        let mut current = match entry_point {
            Some(e) => e,
            None => 0,
        };
        let mut current_layer = max_layer;
        let ghost entry0 = current;
        let ghost q = rec_in.embeddings;
        let ghost mut path: Seq<usize> = Seq::new((old_top + 1) as nat, |i: int| entry0);
        while current_layer > node_max_layer
            invariant
                metric_ok::<E, F>(*metric),
                vectors@ == old_vs,
                links_valid(vectors@),
                has_layer(vectors@, current as int, current_layer as int),
                current_layer <= max_layer,
                max_layer == old_top,
                current_layer < max_layer ==> current_layer >= node_max_layer,
                record.embeddings == q,
                path.len() == old_top + 1,
                path[old_top as int] == entry0,
                path[current_layer as int] == current,
                forall|l: int| current_layer < l <= old_top ==> #[trigger] descent_step(*metric, old_vs, q, path, l),
            decreases current_layer,
        {
            let closest = greedy_closest(&vectors, &record.embeddings, current, current_layer, metric);
            proof {
                let old_path = path;
                let lc = current_layer as int;
                path = path.update(lc - 1, closest.0);
                assert forall|l: int| lc - 1 < l <= old_top implies #[trigger] descent_step(*metric, old_vs, q, path, l) by {
                    if l > lc {
                        assert(descent_step(*metric, old_vs, q, old_path, l));
                        assert(path[l - 1] == old_path[l - 1]);
                        assert(path[l] == old_path[l]);
                    } else {
                        assert(path[l - 1] == closest.0);
                        assert(path[l] == current);
                    }
                }
            }
            current = closest.0;
            current_layer = current_layer - 1;
        }
        let new_id = record.mapped_id;
        let ghost record_final = record;
        vectors.push(record);
        let ghost pushed = vectors@;
        let max_link = if max_layer < node_max_layer { max_layer } else { node_max_layer };
        proof {
            assert(pushed.drop_last() =~= old_vs);
            assert(nodes_indexed(pushed));
            assert forall|i: int, l: int, k: int| has_layer(pushed, i, l) && 0 <= k < links(pushed, i, l).len() implies {
                let j = #[trigger] links(pushed, i, l)[k];
                &&& (j as int) < pushed.len()
                &&& j as int != i
                &&& has_layer(pushed, j as int, l)
            } by {
                if i < old_vs.len() {
                    assert(pushed[i] == old_vs[i]);
                    assert(links(pushed, i, l) == links(old_vs, i, l));
                    assert(links(old_vs, i, l)[k] == links(pushed, i, l)[k]);
                    assert(has_layer(old_vs, links(old_vs, i, l)[k] as int, l));
                    assert(pushed[links(old_vs, i, l)[k] as int] == old_vs[links(old_vs, i, l)[k] as int]);
                }
            }
            assert forall|i: int, l: int| #![trigger links(pushed, i, l)] has_layer(pushed, i, l) implies
                links(pushed, i, l).len() <= crate::graph::max_degree(l) && links(pushed, i, l).no_duplicates() by {
                if i < old_vs.len() {
                    assert(pushed[i] == old_vs[i]);
                    assert(links(pushed, i, l) == links(old_vs, i, l));
                }
            }
            assert forall|l: int| 0 <= l < pushed[new_id as int].layers@.len() implies !linked_at(pushed, l, new_id) by {
                if linked_at(pushed, l, new_id) {
                    let (v, m) = choose|v: int, m: int| has_layer(pushed, v, l) && 0 <= m < links(pushed, v, l).len()
                        && #[trigger] links(pushed, v, l)[m] == new_id;
                    if v < old_vs.len() {
                        assert(pushed[v] == old_vs[v]);
                        assert(links(old_vs, v, l)[m] == new_id);
                    }
                }
            }
            assert(has_layer(pushed, current as int, max_link as int)) by {
                assert(pushed[current as int] == old_vs[current as int]);
            }
            assert forall|l: int| 0 <= l < max_link + 1 implies links(pushed, new_id as int, l).len() == 0 && !linked_at(
                pushed,
                l,
                new_id,
            ) by {
                assert(pushed[new_id as int] == record_final);
                assert(record_final.layers@[l]@.len() == 0);
            }
        }
        let mut ep: Vec<usize> = Vec::new();
        ep.push(current);
        let mut layer = max_link + 1;
        let ghost start = path[max_link as int];
        let ghost mut eps: Seq<Seq<usize>> = Seq::new((max_link + 1) as nat, |i: int| seq![start]);
        let ghost mut ranked: Seq<Seq<(u32, usize)>> = Seq::new((max_link + 1) as nat, |i: int| Seq::<(u32, usize)>::empty());
        proof {
            assert(current_layer == max_link);
            assert(ep@ =~= seq![start]);
            assert forall|j: int| 0 <= j < old_vs.len() implies #[trigger] pushed[j] == old_vs[j] by {}
            assert(pushed[new_id as int].embeddings == q);
        }
        while layer > 0
            invariant
                path.len() == old_top + 1,
                path[old_top as int] == entry0,
                forall|l: int| max_link < l <= old_top ==> #[trigger] descent_step(*metric, old_vs, q, path, l),
                start == path[max_link as int],
                eps.len() == max_link + 1,
                ranked.len() == max_link + 1,
                eps[max_link as int] == seq![start],
                layer == max_link + 1 ==> ep@ == seq![start],
                layer <= max_link ==> ep@ == node_ids(ranked[layer as int]),
                forall|l: int| layer <= l < max_link ==> #[trigger] chain_step(eps, ranked, l),
                forall|l: int| layer <= l <= max_link ==> #[trigger] linked_layer_search(*metric, old_vs, q, eps, ranked, vectors@, new_id as int, l),
                forall|j: int| 0 <= j < old_vs.len() ==> #[trigger] pushed[j] == old_vs[j],
                pushed.len() == old_vs.len() + 1,
                pushed[new_id as int].embeddings == q,
                metric_ok::<E, F>(*metric),
                new_id as int == old_vs.len(),
                new_id + 1 == vectors@.len(),
                layer <= max_link + 1,
                max_link <= node_max_layer,
                max_link <= max_layer,
                max_layer == old_top,
                same_payload(pushed, vectors@),
                nodes_indexed(vectors@),
                links_valid(vectors@),
                degrees_bounded(vectors@),
                forall|l: int| 0 <= l < layer ==> (#[trigger] links(vectors@, new_id as int, l)).len() == 0 && !linked_at(
                    vectors@,
                    l,
                    new_id,
                ),
                forall|l: int| layer <= l <= max_link ==> links(vectors@, new_id as int, l).len() <= M,
                forall|l: int|
                    max_link < l < vectors@[new_id as int].layers@.len() ==> links(vectors@, new_id as int, l)
                        == links(pushed, new_id as int, l),
                vectors@[new_id as int].layers@.len() > node_max_layer,
                forall|l: int| layer <= l <= max_link ==> #[trigger] joined(*metric, vectors@, new_id as int, l),
                kept_linked(pushed, vectors@),
                links_valid(pushed),
                forall|j: int, l: int| 0 <= l < layer && has_layer(pushed, j, l) ==> #[trigger] links(vectors@, j, l) == links(pushed, j, l),
                forall|l: int| layer <= l <= max_link ==> #[trigger] layer_linked(*metric, pushed, vectors@, new_id as int, l),
                ep@.len() >= 1,
                ep@.no_duplicates(),
                forall|k: int|
                    0 <= k < ep@.len() ==> (#[trigger] ep@[k]) != new_id && (layer > 0 ==> has_layer(
                        vectors@,
                        ep@[k] as int,
                        layer - 1,
                    )),
            decreases layer,
        {
            layer = layer - 1;
            let ghost before = vectors@;
            assert(links(vectors@, new_id as int, layer as int).len() == 0);
            let ghost ep_in = ep@;
            let next = link_layer(&mut vectors, new_id, layer, &ep, metric);
            proof {
                let after = vectors@;
                let lr = layer as int;
                let r = choose|r: Seq<(u32, usize)>|
                    #[trigger] beam_result(*metric, before, before[new_id as int].embeddings, ep_in, lr, EF_CONSTRUCTION, r)
                        && sorted_scored(r) && next@ == node_ids(r);
                assert(before[new_id as int].embeddings == q);
                assert forall|k: int| 0 <= k < ep_in.len() implies (#[trigger] ep_in[k] as int) < old_vs.len() by {
                    assert(has_layer(before, ep_in[k] as int, lr));
                }
                assert forall|j: int| 0 <= j < old_vs.len() implies (#[trigger] before[j]).layers@.len() == old_vs[j].layers@.len()
                    && before[j].embeddings == old_vs[j].embeddings by {
                    assert(pushed[j] == old_vs[j]);
                }
                assert forall|j: int| 0 <= j < old_vs.len() && has_layer(before, j, lr) implies #[trigger] links(before, j, lr) == links(old_vs, j, lr) by {
                    assert(pushed[j] == old_vs[j]);
                    assert(has_layer(pushed, j, lr));
                }
                crate::graph::lemma_beam_result_frame(*metric, before, old_vs, q, ep_in, lr, EF_CONSTRUCTION, r);
                let eps0 = eps;
                let ranked0 = ranked;
                eps = eps.update(lr, ep_in);
                ranked = ranked.update(lr, r);
                assert(node_ids(r).len() == r.len());
                assert(linked_layer_search(*metric, old_vs, q, eps, ranked, after, new_id as int, lr));
                assert forall|l: int| lr < l <= max_link implies #[trigger] linked_layer_search(*metric, old_vs, q, eps, ranked, after, new_id as int, l) by {
                    assert(linked_layer_search(*metric, old_vs, q, eps0, ranked0, before, new_id as int, l));
                    assert(eps[l] == eps0[l]);
                    assert(ranked[l] == ranked0[l]);
                    assert(links(after, new_id as int, l) == links(before, new_id as int, l));
                }
                assert forall|l: int| lr <= l < max_link implies #[trigger] chain_step(eps, ranked, l) by {
                    if l > lr {
                        assert(chain_step(eps0, ranked0, l));
                    } else {
                        assert(ranked[l + 1] == ranked0[l + 1]);
                    }
                }
                if lr < max_link {
                    assert(eps[max_link as int] == eps0[max_link as int]);
                }
            }
            ep = next;
            proof {
                crate::graph::lemma_payload_trans(pushed, before, vectors@);
                assert forall|l: int| 0 <= l < layer implies links(vectors@, new_id as int, l).len() == 0 && !linked_at(
                    vectors@,
                    l,
                    new_id,
                ) by {
                    assert(has_layer(before, new_id as int, l));
                    assert(links(vectors@, new_id as int, l) == links(before, new_id as int, l));
                    if linked_at(vectors@, l, new_id) {
                        let (v, m) = choose|v: int, m: int| has_layer(vectors@, v, l) && 0 <= m < links(vectors@, v, l).len()
                            && #[trigger] links(vectors@, v, l)[m] == new_id;
                        assert(links(vectors@, v, l) == links(before, v, l));
                        assert(links(before, v, l)[m] == new_id);
                    }
                }
                assert forall|l: int| layer < l <= max_link implies links(vectors@, new_id as int, l).len() <= M by {
                    assert(links(vectors@, new_id as int, l) == links(before, new_id as int, l));
                }
                assert forall|i: int, l: int| has_layer(pushed, i, l) && links(pushed, i, l).len() > 0 implies #[trigger] links(vectors@, i, l).len() > 0 by {
                    assert(links(before, i, l).len() > 0);
                    assert(has_layer(before, i, l));
                }
                let after = vectors@;
                assert forall|j: int, l: int| 0 <= l < layer && has_layer(pushed, j, l) implies #[trigger] links(after, j, l) == links(pushed, j, l) by {
                    assert(has_layer(before, j, l));
                    assert(links(after, j, l) == links(before, j, l));
                }
                assert forall|l: int| layer <= l <= max_link implies #[trigger] layer_linked(*metric, pushed, after, new_id as int, l) by {
                    let nl = links(after, new_id as int, l);
                    if l == layer {
                        assert forall|j: int|
                            has_layer(pushed, j, l) && j != new_id && !nl.contains(j as usize) implies #[trigger] links(after, j, l) == links(pushed, j, l) by {
                            assert(has_layer(before, j, l));
                            assert(links(before, j, l) == links(pushed, j, l));
                        }
                        assert forall|k: int| 0 <= k < nl.len() implies #[trigger] neighbour_updated(*metric, pushed, after, new_id as int, nl[k] as int, l) by {
                            let j = nl[k] as int;
                            assert(neighbour_updated(*metric, before, after, new_id as int, j, l));
                            assert(has_layer(after, j, l));
                            assert(has_layer(pushed, j, l));
                            assert(links(before, j, l) == links(pushed, j, l));
                        }
                    } else {
                        assert(layer_linked(*metric, pushed, before, new_id as int, l));
                        assert(links(after, new_id as int, l) == links(before, new_id as int, l));
                        assert forall|j: int|
                            has_layer(pushed, j, l) && j != new_id && !nl.contains(j as usize) implies #[trigger] links(after, j, l) == links(pushed, j, l) by {
                            assert(has_layer(before, j, l));
                            assert(links(after, j, l) == links(before, j, l));
                            assert(links(before, j, l) == links(pushed, j, l));
                        }
                        assert forall|k: int| 0 <= k < nl.len() implies #[trigger] neighbour_updated(*metric, pushed, after, new_id as int, nl[k] as int, l) by {
                            let j = nl[k] as int;
                            assert(nl[k] == links(before, new_id as int, l)[k]);
                            assert(neighbour_updated(*metric, pushed, before, new_id as int, j, l));
                            assert(has_layer(before, new_id as int, l));
                            assert(has_layer(before, j, l));
                            assert(links(after, j, l) == links(before, j, l));
                            let cands = links(pushed, j, l).push(new_id);
                            assert(has_layer(pushed, j, l));
                            assert forall|w: int| 0 <= w < cands.len() implies (#[trigger] cands[w] as int) < before.len() by {
                                if w < links(pushed, j, l).len() {
                                    assert(links(pushed, j, l)[w] == cands[w]);
                                    assert((links(pushed, j, l)[w] as int) < pushed.len());
                                }
                            }
                            if links(pushed, j, l).len() >= crate::graph::max_degree(l) {
                                crate::graph::lemma_cut_to_payload(*metric, before, after, links(after, j, l), j, cands);
                            }
                        }
                    }
                }
                assert forall|l: int| layer <= l <= max_link implies #[trigger] joined(*metric, vectors@, new_id as int, l) by {
                    if l > layer {
                        assert forall|j: int| has_layer(before, j, l) implies #[trigger] links(vectors@, j, l) == links(before, j, l) by {}
                        crate::graph::lemma_joined_frame(*metric, before, vectors@, new_id as int, l);
                    }
                }
                assert forall|l: int|
                    max_link < l < vectors@[new_id as int].layers@.len() implies links(vectors@, new_id as int, l)
                        == links(pushed, new_id as int, l) by {
                    assert(links(vectors@, new_id as int, l) == links(before, new_id as int, l));
                }
            }
        }
        if node_max_layer > max_layer {
            max_layer = node_max_layer;
            entry_point = Some(new_id);
        }
        proof {
            assert(graph_wf(vectors@, entry_point, max_layer)) by {
                match entry_point {
                    Some(e) => {
                        if e != new_id {
                            assert(has_layer(old_vs, e as int, old_top as int));
                            assert(pushed[e as int] == old_vs[e as int]);
                        }
                    },
                    None => {},
                }
            }
            lemma_id_index_payload(pushed, vectors@);
            assert(pushed.drop_last() =~= old_vs);
            assert(linked_by_search(*metric, old_vs, q, entry0, old_top as int, max_link as int, vectors@)) by {
                assert(eps[max_link as int] == seq![path[max_link as int]]);
            }
            assert forall|l: int| max_link < l < vectors@[new_id as int].layers@.len() implies #[trigger] links(vectors@, new_id as int, l).len() == 0 by {
                assert(links(vectors@, new_id as int, l) == links(pushed, new_id as int, l));
                assert(pushed[new_id as int] == record_final);
                assert(record_final.layers@[l]@.len() == 0);
            }
            assert forall|l: int| 0 <= l <= node_max_layer && l <= old_top implies #[trigger] layer_linked(*metric, old_vs, vectors@, new_id as int, l) by {
                assert(layer_linked(*metric, pushed, vectors@, new_id as int, l));
                let nl = links(vectors@, new_id as int, l);
                assert forall|j: int|
                    has_layer(old_vs, j, l) && j != new_id && !nl.contains(j as usize) implies #[trigger] links(vectors@, j, l) == links(old_vs, j, l) by {
                    assert(pushed[j] == old_vs[j]);
                    assert(has_layer(pushed, j, l));
                }
                assert forall|k: int| 0 <= k < nl.len() implies #[trigger] neighbour_updated(*metric, old_vs, vectors@, new_id as int, nl[k] as int, l) by {
                    let j = nl[k] as int;
                    assert(neighbour_updated(*metric, pushed, vectors@, new_id as int, j, l));
                    assert(has_layer(vectors@, new_id as int, l));
                    assert(j < vectors@.len() && j != new_id);
                    assert(pushed[j] == old_vs[j]);
                    assert(links(pushed, j, l) == links(old_vs, j, l));
                }
            }
            assert forall|i: int, l: int| has_layer(old_vs, i, l) && links(old_vs, i, l).len() > 0 implies #[trigger] links(vectors@, i, l).len() > 0 by {
                assert(pushed[i] == old_vs[i]);
                assert(links(pushed, i, l).len() > 0);
            }
            assert(appended(old_vs, vectors@, rec_in.id@, rec_in.embeddings, rec_in.metadata, linked_levels(rec_in, node_max_layer))) by {
                assert forall|i: int| 0 <= i < old_vs.len() implies {
                    &&& (#[trigger] vectors@[i]).id == old_vs[i].id
                    &&& vectors@[i].embeddings == old_vs[i].embeddings
                    &&& vectors@[i].metadata == old_vs[i].metadata
                    &&& vectors@[i].mapped_id == i
                    &&& vectors@[i].layers@.len() == old_vs[i].layers@.len()
                } by {
                    assert(pushed[i] == old_vs[i]);
                }
            }
        }
        *collection = Collection { name, vectors, id_map, entry_point, max_layer, next_id, indexing_type };
    }
}

/// `p` is an acceptable answer of the index to query `q`: the id and key of
/// some record `i` that is a local minimum of the bottom layer (no neighbour of
/// it is closer to `q`) and is no farther from `q` than the entry point.
pub open spec fn is_search_answer<E, F: Fn(&E, &E) -> u32>(
    f: F,
    rs: Seq<Record<E>>,
    entry: usize,
    q: E,
    p: (String, u32),
) -> bool {
    exists|i: int|
        0 <= i < rs.len() && #[trigger] rs[i].id@ == p.0@ && measured(f, rs[i].embeddings, q, p.1)
            && neighbours_no_closer(f, rs, q, i, 0, p.1) && forall|d: u32|
            #[trigger] measured(f, rs[entry as int].embeddings, q, d) ==> p.1 <= d
}

/// Step `l` of a greedy descent along `path` (indexed by layer): the node
/// `path[l - 1]` reached from `path[l]` takes part in layer `l`, is no
/// farther from `q`, and no neighbour of it on layer `l` is closer to `q`.
pub open spec fn descent_step<E, F: Fn(&E, &E) -> u32>(f: F, rs: Seq<Record<E>>, q: E, path: Seq<usize>, l: int) -> bool {
    &&& has_layer(rs, path[l - 1] as int, l)
    &&& forall|d: u32, dp: u32|
        #[trigger] measured(f, rs[path[l - 1] as int].embeddings, q, d) && #[trigger] measured(f, rs[path[l] as int].embeddings, q, dp)
            ==> d <= dp
    &&& forall|d: u32| #[trigger] measured(f, rs[path[l - 1] as int].embeddings, q, d) ==> neighbours_no_closer(f, rs, q, path[l - 1] as int, l, d)
}

/// `p` is what the index answers to `q`: following a greedy descent from
/// `entry` on the layers `top` down to 1, a beam search of width
/// `EF_SEARCH` on layer 0 from where the descent ended finds results, and
/// `p` is the id and key of a result of smallest key.
pub open spec fn descended_answer<E, F: Fn(&E, &E) -> u32>(f: F, rs: Seq<Record<E>>, entry: usize, top: int, q: E, p: (String, u32)) -> bool {
    exists|path: Seq<usize>, results: Seq<(u32, usize)>|
        {
            &&& path.len() == top + 1
            &&& path[top] == entry
            &&& forall|l: int| 1 <= l <= top ==> #[trigger] descent_step(f, rs, q, path, l)
            &&& #[trigger] beam_result(f, rs, q, seq![path[0]], 0, EF_SEARCH, results)
            &&& exists|k: int|
                0 <= k < results.len() && rs[results[k].1 as int].id@ == p.0@ && results[k].0 == p.1 && forall|j: int|
                    0 <= j < results.len() ==> results[k].0 <= #[trigger] results[j].0
        }
}

/// The search on layer `l` started from the nodes the search on layer
/// `l + 1` found.
pub open spec fn chain_step(eps: Seq<Seq<usize>>, ranked: Seq<Seq<(u32, usize)>>, l: int) -> bool {
    eps[l] == node_ids(ranked[l + 1])
}

/// On layer `l`, a beam search of width `EF_CONSTRUCTION` from `eps[l]` for
/// the vector `q` found `ranked[l]`, closest first, and node `n` of `after`
/// has the first `M` of them as its neighbours there.
pub open spec fn linked_layer_search<E, F: Fn(&E, &E) -> u32>(
    f: F,
    rs: Seq<Record<E>>,
    q: E,
    eps: Seq<Seq<usize>>,
    ranked: Seq<Seq<(u32, usize)>>,
    after: Seq<Record<E>>,
    n: int,
    l: int,
) -> bool {
    &&& beam_result(f, rs, q, eps[l], l, EF_CONSTRUCTION, ranked[l])
    &&& sorted_scored(ranked[l])
    &&& links(after, n, l) == node_ids(ranked[l]).take(if ranked[l].len() < M { ranked[l].len() as int } else { M as int })
}

/// How a new node `n == rs.len()` with vector `q` was linked into the graph
/// `rs` (with entry point `entry` and top layer `top`), giving `after`: a
/// greedy descent from the entry point through the layers above `low`, then,
/// on each layer from `low` down to 0, a beam search of width
/// `EF_CONSTRUCTION` from where the descent ended or from what the search on
/// the layer above found, whose first `M` nodes became the new node's
/// neighbours.
pub open spec fn linked_by_search<E, F: Fn(&E, &E) -> u32>(
    f: F,
    rs: Seq<Record<E>>,
    q: E,
    entry: usize,
    top: int,
    low: int,
    after: Seq<Record<E>>,
) -> bool {
    exists|path: Seq<usize>, eps: Seq<Seq<usize>>, ranked: Seq<Seq<(u32, usize)>>|
        {
            &&& path.len() == top + 1
            &&& path[top] == entry
            &&& forall|l: int| low < l <= top ==> #[trigger] descent_step(f, rs, q, path, l)
            &&& eps.len() == low + 1
            &&& ranked.len() == low + 1
            &&& eps[low] == seq![path[low]]
            &&& forall|l: int| 0 <= l < low ==> #[trigger] chain_step(eps, ranked, l)
            &&& forall|l: int| 0 <= l <= low ==> #[trigger] linked_layer_search(f, rs, q, eps, ranked, after, rs.len() as int, l)
        }
}

impl HnswIndex {
    /// Nearest-neighbour query: greedy descent from the entry point through
    /// the upper layers, then a beam search of width `EF_SEARCH` on layer 0;
    /// answers the closest node found (ties by index).
    pub fn search<E, F: Fn(&E, &E) -> u32>(collection: &Collection<E>, query: &E, metric: &F) -> (res: Result<
        Option<(String, u32)>,
        RecordError,
    >)
        requires
            metric_ok::<E, F>(*metric),
        ensures
            collection.records().len() == 0 ==> (res matches Err(RecordError::RecordNotFound(m)) && m@
                == "No entry point found, the collection is empty."@),
            collection.records().len() > 0 ==> (res matches Ok(Some(p)) && (collection.entry() matches Some(e)
                && is_search_answer(*metric, collection.records(), e, *query, p)
                && descended_answer(*metric, collection.records(), e, collection.top_layer() as int, *query, p))),
    {
        proof {
            use_type_invariant(collection);
        }
        let vs = &collection.vectors;
        let entry = match collection.entry_point {
            Some(id) => id,
            None => {
                return Err(
                    RecordError::RecordNotFound("No entry point found, the collection is empty.".to_string()),
                );
            },
        };
        let mut current = entry;
        let mut current_layer = collection.max_layer;
        let ghost mut known = false;
        let ghost mut cur_key: u32 = 0;
        let ghost top = collection.max_layer as int;
        let ghost mut path: Seq<usize> = Seq::new((top + 1) as nat, |i: int| entry);
        while current_layer > 0
            invariant
                metric_ok::<E, F>(*metric),
                links_valid(vs@),
                has_layer(vs@, current as int, current_layer as int),
                has_layer(vs@, entry as int, 0),
                0 <= current_layer <= top,
                path.len() == top + 1,
                path[top] == entry,
                path[current_layer as int] == current,
                forall|l: int| current_layer < l <= top ==> #[trigger] descent_step(*metric, vs@, *query, path, l),
                known ==> measured(*metric, vs@[current as int].embeddings, *query, cur_key) && forall|d: u32|
                    #[trigger] measured(*metric, vs@[entry as int].embeddings, *query, d) ==> cur_key <= d,
                !known ==> current == entry,
            decreases current_layer,
        {
            let closest = greedy_closest(vs, query, current, current_layer, metric);
            proof {
                if known {
                    assert(closest.1 <= cur_key);
                }
                known = true;
                cur_key = closest.1;
                let old_path = path;
                let lc = current_layer as int;
                path = path.update(lc - 1, closest.0);
                assert forall|l: int| lc - 1 < l <= top implies #[trigger] descent_step(*metric, vs@, *query, path, l) by {
                    if l > lc {
                        assert(descent_step(*metric, vs@, *query, old_path, l));
                        assert(path[l - 1] == old_path[l - 1]);
                        assert(path[l] == old_path[l]);
                    } else {
                        assert(path[l - 1] == closest.0);
                        assert(path[l] == current);
                    }
                }
            }
            current = closest.0;
            current_layer = current_layer - 1;
        }
        let mut ep: Vec<usize> = Vec::new();
        ep.push(current);
        proof {
            assert(ep@.no_duplicates());
            assert(ep@[0] == current);
        }
        let results = search_layer(vs, query, &ep, 0, EF_SEARCH, metric);
        let best = position_of_min(&results);
        let pick = results[best];
        proof {
            lemma_min_key(results@);
            let k = choose|k: int| 0 <= k < results@.len() && results@[k].0 == min_key(results@);
            assert(scored_le(pick, results@[k]));
            assert(pick.0 == min_key(results@));
            assert forall|d: u32| #[trigger] measured(*metric, vs@[entry as int].embeddings, *query, d) implies pick.0 <= d by {
                if known {
                    assert(measured(*metric, vs@[ep@[0] as int].embeddings, *query, cur_key));
                } else {
                    assert(measured(*metric, vs@[ep@[0] as int].embeddings, *query, d));
                }
            }
            assert(neighbours_no_closer(*metric, vs@, *query, results@[best as int].1 as int, 0, min_key(results@)));
        }
        let name = vs[pick.1].id.clone();
        proof {
            assert(vs@[pick.1 as int].id@ == name@);
            assert(ep@ =~= seq![path[0]]);
            assert(forall|j: int| 0 <= j < results@.len() ==> scored_le(results@[best as int], #[trigger] results@[j]));
            assert(exists|k: int|
                0 <= k < results@.len() && vs@[results@[k].1 as int].id@ == name@ && results@[k].0 == pick.0 && forall|j: int|
                    0 <= j < results@.len() ==> results@[k].0 <= #[trigger] results@[j].0) by {
                assert(results@[best as int] == pick);
            }
            assert(descended_answer(*metric, vs@, entry, top, *query, (name, pick.0)));
        }
        Ok(Some((name, pick.0)))
    }
}

/// A graph state: records, entry point and top layer.
pub type GraphState<E> = (Seq<Record<E>>, Option<usize>, usize);

/// The state of a collection.
pub open spec fn state_of<E>(c: Collection<E>) -> GraphState<E> {
    (c.records(), c.entry(), c.top_layer())
}

/// `after` is `before` with `rec` inserted at level `level`, as
/// `HnswIndex::insert` states it.
pub open spec fn insert_step<E, F: Fn(&E, &E) -> u32>(f: F, before: GraphState<E>, after: GraphState<E>, rec: Record<E>, level: usize) -> bool {
    let b = before.0;
    let a = after.0;
    let n = b.len() as int;
    let low = if level < before.2 { level as int } else { before.2 as int };
    &&& graph_wf(a, after.1, after.2)
    &&& appended(b, a, rec.id@, rec.embeddings, rec.metadata, linked_levels(rec, level))
    &&& id_index(a) == id_index(b).insert(rec.id@, b.len() as usize)
    &&& kept_linked(b, a)
    &&& forall|l: int|
        0 <= l < a[n].layers@.len() && (n == 0 || l > level || l > before.2) ==> #[trigger] links(a, n, l).len() == 0
    &&& n == 0 ==> after.1 == Some(0usize) && after.2 == level
    &&& n > 0 && level > before.2 ==> after.1 == Some(n as usize) && after.2 == level
    &&& n > 0 && level <= before.2 ==> after.1 == before.1 && after.2 == before.2
    &&& n > 0 ==> forall|l: int| 0 <= l <= low ==> #[trigger] joined(f, a, n, l) && layer_linked(f, b, a, n, l)
    &&& n > 0 ==> (before.1 matches Some(e) && linked_by_search(f, b, rec.embeddings, e, before.2 as int, low, a))
}

/// Step `k` of a batch: `states[k + 1]` is `states[k]` with `recs[k]`
/// inserted at level `levels[k]`.
pub open spec fn batch_step<E, F: Fn(&E, &E) -> u32>(
    f: F,
    states: Seq<GraphState<E>>,
    recs: Seq<Record<E>>,
    levels: Seq<usize>,
    k: int,
) -> bool {
    insert_step(f, states[k], states[k + 1], recs[k], levels[k])
}

/// `after` is what inserting `recs` one after the other, at `levels`, makes
/// of `before`.
pub open spec fn batch_inserted<E, F: Fn(&E, &E) -> u32>(
    f: F,
    before: GraphState<E>,
    after: GraphState<E>,
    recs: Seq<Record<E>>,
    levels: Seq<usize>,
) -> bool {
    exists|states: Seq<GraphState<E>>|
        {
            &&& states.len() == recs.len() + 1
            &&& states[0] == before
            &&& states[recs.len() as int] == after
            &&& forall|k: int| 0 <= k < recs.len() ==> #[trigger] batch_step(f, states, recs, levels, k)
        }
}

/// `recs` are the unlinked one-layer records made from `input`, in order.
pub open spec fn records_of<E>(recs: Seq<Record<E>>, input: Seq<(String, E, Option<Metadata>)>) -> bool {
    &&& recs.len() == input.len()
    &&& forall|k: int|
        0 <= k < recs.len() ==> {
            let r = #[trigger] recs[k];
            &&& r.id == input[k].0
            &&& r.embeddings == input[k].1
            &&& r.metadata == input[k].2
            &&& r.mapped_id == 0
            &&& r.layers@.len() == 1
            &&& r.unlinked()
        }
}

/// `m` with each of `ids` mapped to `base` plus its position, later
/// positions winning.
pub open spec fn index_ids(m: Map<Seq<char>, usize>, ids: Seq<Seq<char>>, base: int) -> Map<Seq<char>, usize>
    decreases ids.len(),
{
    if ids.len() == 0 {
        m
    } else {
        index_ids(m, ids.drop_last(), base).insert(ids.last(), (base + ids.len() - 1) as usize)
    }
}

/// The ids of the given records, in order.
pub open spec fn record_ids<E>(recs: Seq<Record<E>>) -> Seq<Seq<char>> {
    recs.map_values(|r: Record<E>| r.id@)
}

/// Every record from index `from` on, except a record at index 0, has at
/// least one neighbour on the bottom layer.
pub open spec fn linked_from<E>(vs: Seq<Record<E>>, from: int) -> bool {
    forall|i: int| from <= i < vs.len() && i > 0 ==> #[trigger] links(vs, i, 0).len() > 0
}

/// `after` is `before` followed by one record for each of `recs`, in order,
/// carrying its id, vector and metadata; the `k`-th takes part in at least
/// `levels[k] + 1` layers.
pub open spec fn appended_all<E>(
    before: Seq<Record<E>>,
    after: Seq<Record<E>>,
    recs: Seq<Record<E>>,
    levels: Seq<usize>,
) -> bool {
    &&& after.len() == before.len() + recs.len()
    &&& keeps_prefix(before, after)
    &&& forall|k: int|
        0 <= k < recs.len() ==> {
            let r = #[trigger] after[before.len() + k];
            &&& r.id@ == recs[k].id@
            &&& r.embeddings == recs[k].embeddings
            &&& r.metadata == recs[k].metadata
            &&& r.mapped_id == before.len() + k
            &&& r.layers@.len() == linked_levels(recs[k], levels[k])
        }
}

impl HnswIndex {
    /// Inserts the records one after the other; the `k`-th is linked at
    /// levels `0..=levels[k]`, each step as `HnswIndex::insert` states it
    /// (see `batch_inserted`).
    pub fn insert_batch<E, F: Fn(&E, &E) -> u32>(
        collection: &mut Collection<E>,
        records: Vec<Record<E>>,
        levels: &Vec<usize>,
        metric: &F,
    )
        requires
            metric_ok::<E, F>(*metric),
            levels@.len() == records@.len(),
            forall|k: int| 0 <= k < levels@.len() ==> #[trigger] levels@[k] < usize::MAX,
            old(collection).records().len() + records@.len() <= usize::MAX,
        ensures
            graph_wf(final(collection).records(), final(collection).entry(), final(collection).top_layer()),
            appended_all(old(collection).records(), final(collection).records(), records@, levels@),
            id_index(final(collection).records()) == index_ids(
                id_index(old(collection).records()),
                record_ids(records@),
                old(collection).records().len() as int,
            ),
            linked_from(final(collection).records(), old(collection).records().len() as int),
            batch_inserted(*metric, state_of(*old(collection)), state_of(*final(collection)), records@, levels@),
            final(collection).name_view() == old(collection).name_view(),
            final(collection).indexing_type_view() == old(collection).indexing_type_view(),
    {
        proof {
            use_type_invariant(&*collection);
        }
        let ghost mut states: Seq<GraphState<E>> = seq![state_of(*collection)];
        let ghost recs = records@;
        let ghost start = collection.records();
        let mut k: usize = 0;
        for rec in it: records.into_iter()
            invariant
                metric_ok::<E, F>(*metric),
                it.seq() == recs,
                k == it.index(),
                levels@.len() == recs.len(),
                forall|t: int| 0 <= t < levels@.len() ==> #[trigger] levels@[t] < usize::MAX,
                start.len() + recs.len() <= usize::MAX,
                appended_all(start, collection.records(), recs.take(k as int), levels@.take(k as int)),
                collection.name_view() == old(collection).name_view(),
                collection.indexing_type_view() == old(collection).indexing_type_view(),
                graph_wf(collection.records(), collection.entry(), collection.top_layer()),
                linked_from(collection.records(), start.len() as int),
                id_index(collection.records()) == index_ids(id_index(start), record_ids(recs.take(k as int)), start.len() as int),
                states.len() == k + 1,
                states[0] == state_of(*old(collection)),
                states[k as int] == state_of(*collection),
                forall|t: int| 0 <= t < k ==> #[trigger] batch_step(*metric, states, recs, levels@, t),
        {
            let ghost before = collection.records();
            let ghost before_state = state_of(*collection);
            assert(rec == recs[k as int]);
            HnswIndex::insert(collection, rec, levels[k], metric);
            proof {
                let st0 = states;
                states = states.push(state_of(*collection));
                assert(insert_step(*metric, before_state, state_of(*collection), recs[k as int], levels@[k as int]));
                assert(batch_step(*metric, states, recs, levels@, k as int));
                assert forall|t: int| 0 <= t < k + 1 implies #[trigger] batch_step(*metric, states, recs, levels@, t) by {
                    if t < k {
                        assert(batch_step(*metric, st0, recs, levels@, t));
                        assert(states[t] == st0[t]);
                        assert(states[t + 1] == st0[t + 1]);
                    }
                }
            }
            proof {
                let after = collection.records();
                let r2 = recs.take(k + 1);
                let l2 = levels@.take(k + 1);
                assert forall|t: int| 0 <= t < r2.len() implies {
                    let r = #[trigger] after[start.len() + t];
                    &&& r.id@ == r2[t].id@
                    &&& r.embeddings == r2[t].embeddings
                    &&& r.metadata == r2[t].metadata
                    &&& r.mapped_id == start.len() + t
                    &&& r.layers@.len() >= linked_levels(r2[t], l2[t])
                } by {
                    if t < k {
                        assert(r2[t] == recs.take(k as int)[t]);
                        assert(l2[t] == levels@.take(k as int)[t]);
                        let r0 = before[start.len() + t];
                        assert(r0.layers@.len() >= linked_levels(recs.take(k as int)[t], levels@.take(k as int)[t]));
                    } else {
                        assert(after[start.len() + t] == after.last());
                    }
                }
                assert(record_ids(r2).drop_last() =~= record_ids(recs.take(k as int)));
                assert(record_ids(r2).last() == recs[k as int].id@);
                assert(id_index(after) == index_ids(id_index(start), record_ids(r2), start.len() as int));
                assert forall|i: int| start.len() <= i < after.len() && i > 0 implies #[trigger] links(after, i, 0).len() > 0 by {
                    if i < before.len() {
                        assert(links(before, i, 0).len() > 0);
                        assert(has_layer(before, i, 0));
                    } else {
                        assert(joined(*metric, after, before.len() as int, 0));
                    }
                }
            }
            k = k + 1;
        }
        proof {
            assert(recs.take(k as int) =~= recs);
            assert(levels@.take(k as int) =~= levels@);
            assert(batch_inserted(*metric, state_of(*old(collection)), state_of(*collection), recs, levels@));
        }
    }
}

impl<E> Collection<E> {
    /// Adds one vector with id `vec_<n>` (n = the number of records so far),
    /// `max_layer + 1` neighbour lists, linked into the HNSW graph at levels
    /// `0..=node_level` (see `HnswIndex::insert` for what linking gives).
    /// Fails, changing nothing, when the collection's index type is not HNSW.
    pub fn insert<F: Fn(&E, &E) -> u32>(
        &mut self,
        embeddings: E,
        max_layer: usize,
        metadata: Option<Metadata>,
        node_level: usize,
        metric: &F,
    ) -> (res: Result<(), RecordError>)
        requires
            metric_ok::<E, F>(*metric),
            max_layer < usize::MAX,
            node_level < usize::MAX,
            old(self).records().len() < usize::MAX,
        ensures
            res is Ok <==> is_hnsw_name(old(self).indexing_type_view()),
            res matches Err(e) ==> (e matches RecordError::IndexingTypeNotFound(t) && t@ == old(self).indexing_type_view())
                && *final(self) == *old(self),
            res is Ok ==> appended(
                old(self).records(),
                final(self).records(),
                vector_id_of(old(self).records().len()),
                embeddings,
                metadata,
                if max_layer > node_level { max_layer + 1 } else { node_level + 1 },
            ),
            res is Ok ==> id_index(final(self).records()) == id_index(old(self).records()).insert(
                vector_id_of(old(self).records().len()),
                old(self).records().len() as usize,
            ),
            res is Ok ==> kept_linked(old(self).records(), final(self).records()),
            res is Ok && old(self).records().len() > 0 ==> (old(self).entry() matches Some(e) && linked_by_search(
                *metric,
                old(self).records(),
                embeddings,
                e,
                old(self).top_layer() as int,
                if node_level < old(self).top_layer() { node_level as int } else { old(self).top_layer() as int },
                final(self).records(),
            )),
            res is Ok && old(self).records().len() > 0 ==> forall|l: int|
                0 <= l <= node_level && l <= old(self).top_layer() ==> #[trigger] layer_linked(
                    *metric,
                    old(self).records(),
                    final(self).records(),
                    old(self).records().len() as int,
                    l,
                ),
            res is Ok && old(self).records().len() > 0 ==> forall|l: int|
                0 <= l <= node_level && l <= old(self).top_layer() ==> #[trigger] joined(
                    *metric,
                    final(self).records(),
                    old(self).records().len() as int,
                    l,
                ),
            graph_wf(final(self).records(), final(self).entry(), final(self).top_layer()),
            final(self).name_view() == old(self).name_view(),
            final(self).indexing_type_view() == old(self).indexing_type_view(),
    {
        proof {
            use_type_invariant(&*self);
        }
        let id = vector_id(self.vectors.len());
        let record = Record::new(id, embeddings, metadata, max_layer);
        if indexing_type_is_hnsw(self.indexing_type.as_str()) {
            HnswIndex::insert(self, record, node_level, metric);
            Ok(())
        } else {
            Err(RecordError::IndexingTypeNotFound(self.indexing_type.clone()))
        }
    }

    /// Adds the given `(id, vector, metadata)` triples in order, the `k`-th
    /// linked at levels `0..=levels[k]`; each new record but a first one ends
    /// with a neighbour on the bottom layer. Fails, changing nothing, when the
    /// collection's index type is not HNSW.
    pub fn insert_batch<F: Fn(&E, &E) -> u32>(
        &mut self,
        records: Vec<(String, E, Option<Metadata>)>,
        levels: &Vec<usize>,
        metric: &F,
    ) -> (res: Result<(), RecordError>)
        requires
            metric_ok::<E, F>(*metric),
            levels@.len() == records@.len(),
            forall|k: int| 0 <= k < levels@.len() ==> #[trigger] levels@[k] < usize::MAX,
            old(self).records().len() + records@.len() <= usize::MAX,
        ensures
            res is Ok <==> is_hnsw_name(old(self).indexing_type_view()),
            res matches Err(e) ==> (e matches RecordError::IndexingTypeNotFound(t) && t@ == old(self).indexing_type_view())
                && *final(self) == *old(self),
            res is Ok ==> final(self).records().len() == old(self).records().len() + records@.len(),
            res is Ok ==> keeps_prefix(old(self).records(), final(self).records()),
            res is Ok ==> forall|k: int|
                0 <= k < records@.len() ==> {
                    let r = #[trigger] final(self).records()[old(self).records().len() + k];
                    &&& r.id@ == records@[k].0@
                    &&& r.embeddings == records@[k].1
                    &&& r.metadata == records@[k].2
                    &&& r.layers@.len() == levels@[k] + 1
                },
            res is Ok ==> linked_from(final(self).records(), old(self).records().len() as int),
            res is Ok ==> exists|recs: Seq<Record<E>>|
                records_of(recs, records@) && #[trigger] batch_inserted(*metric, state_of(*old(self)), state_of(*final(self)), recs, levels@),
            res is Ok ==> id_index(final(self).records()) == index_ids(
                id_index(old(self).records()),
                records@.map_values(|t: (String, E, Option<Metadata>)| t.0@),
                old(self).records().len() as int,
            ),
            graph_wf(final(self).records(), final(self).entry(), final(self).top_layer()),
            final(self).name_view() == old(self).name_view(),
            final(self).indexing_type_view() == old(self).indexing_type_view(),
    {
        proof {
            use_type_invariant(&*self);
        }
        let ghost input = records@;
        let mut to_insert: Vec<Record<E>> = Vec::with_capacity(records.len());
        for item in it: records.into_iter()
            invariant
                it.seq() == input,
                to_insert@.len() == it.index(),
                forall|t: int| 0 <= t < to_insert@.len() ==> {
                    let r = #[trigger] to_insert@[t];
                    &&& r.unlinked()
                    &&& r.layers@.len() == 1
                    &&& r.mapped_id == 0
                    &&& r.id == input[t].0
                    &&& r.embeddings == input[t].1
                    &&& r.metadata == input[t].2
                },
        {
            let (id, embeddings, metadata) = item;
            to_insert.push(Record::new(id, embeddings, metadata, 0));
        }
        if indexing_type_is_hnsw(self.indexing_type.as_str()) {
            let ghost before = self.records();
            proof {
                assert(record_ids(to_insert@) =~= input.map_values(|t: (String, E, Option<Metadata>)| t.0@));
            }
            let ghost made = to_insert@;
            proof {
                assert(records_of(made, input));
            }
            HnswIndex::insert_batch(self, to_insert, levels, metric);
            Ok(())
        } else {
            Err(RecordError::IndexingTypeNotFound(self.indexing_type.clone()))
        }
    }

    /// Nearest-neighbour query through the collection's index; see `HnswIndex::search`.
    pub fn query<F: Fn(&E, &E) -> u32>(&self, query_vector: &E, metric: &F) -> (res: Result<
        Option<(String, u32)>,
        RecordError,
    >)
        requires
            metric_ok::<E, F>(*metric),
        ensures
            !is_hnsw_name(self.indexing_type_view()) ==> (res matches Err(RecordError::IndexingTypeNotFound(t)) && t@
                == self.indexing_type_view()),
            is_hnsw_name(self.indexing_type_view()) && self.records().len() == 0 ==> (res matches Err(
                RecordError::RecordNotFound(m),
            ) && m@ == "No entry point found, the collection is empty."@),
            is_hnsw_name(self.indexing_type_view()) && self.records().len() > 0 ==> (res matches Ok(Some(p)) && (
            self.entry() matches Some(e) && is_search_answer(*metric, self.records(), e, *query_vector, p)
                && descended_answer(*metric, self.records(), e, self.top_layer() as int, *query_vector, p))),
    {
        if indexing_type_is_hnsw(self.indexing_type.as_str()) {
            HnswIndex::search(self, query_vector, metric)
        } else {
            Err(RecordError::IndexingTypeNotFound(self.indexing_type.clone()))
        }
    }
}

/// `after` starts with the records of `before`, each with the same id,
/// vector and metadata, at its own index.
pub open spec fn keeps_prefix<E>(before: Seq<Record<E>>, after: Seq<Record<E>>) -> bool {
    &&& before.len() <= after.len()
    &&& forall|i: int|
        0 <= i < before.len() ==> {
            &&& (#[trigger] after[i]).id == before[i].id
            &&& after[i].embeddings == before[i].embeddings
            &&& after[i].metadata == before[i].metadata
            &&& after[i].mapped_id == i
            &&& after[i].layers@.len() == before[i].layers@.len()
        }
}

/// `after` is `before` with one more record at the end, which carries the
/// given id, vector and metadata and takes part in at least `levels` layers.
pub open spec fn appended<E>(
    before: Seq<Record<E>>,
    after: Seq<Record<E>>,
    id: Seq<char>,
    emb: E,
    meta: Option<Metadata>,
    levels: int,
) -> bool {
    &&& after.len() == before.len() + 1
    &&& keeps_prefix(before, after)
    &&& after.last().id@ == id
    &&& after.last().embeddings == emb
    &&& after.last().metadata == meta
    &&& after.last().mapped_id == before.len()
    &&& after.last().layers@.len() == levels
}

/// Number of layers a record takes part in after insertion at `node_max_layer`.
pub open spec fn linked_levels<E>(record: Record<E>, node_max_layer: usize) -> int {
    if record.layers@.len() > node_max_layer + 1 {
        record.layers@.len() as int
    } else {
        node_max_layer + 1
    }
}

} // verus!
