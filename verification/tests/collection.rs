use rand::Rng;
use vecdb::collection::{indexing_type_is_hnsw, Collection, HnswIndex};
use vecdb::errors::RecordError;
use vecdb::graph::{search_layer, Metadata, Record, M, M_MAX_0};

fn order_key(d: f32) -> u32 {
    let bits = d.to_bits();
    if bits & 0x8000_0000 != 0 {
        !bits
    } else {
        bits | 0x8000_0000
    }
}

fn cosine(a: &Vec<f32>, b: &Vec<f32>) -> f32 {
    let len = a.len().min(b.len());
    let mut dot = 0.0f32;
    let mut na = 0.0f32;
    let mut nb = 0.0f32;
    for i in 0..len {
        dot += a[i] * b[i];
        na += a[i] * a[i];
        nb += b[i] * b[i];
    }
    if na == 0.0 || nb == 0.0 {
        return 1.0;
    }
    1.0 - dot / (na.sqrt() * nb.sqrt())
}

fn metric(a: &Vec<f32>, b: &Vec<f32>) -> u32 {
    order_key(cosine(a, b))
}

fn squared(a: &(i32, i32), b: &(i32, i32)) -> u32 {
    let dx = (a.0 - b.0) as i64;
    let dy = (a.1 - b.1) as i64;
    (dx * dx + dy * dy) as u32
}

fn grid_point(i: usize) -> (i32, i32) {
    (((i * 37) % 101) as i32, ((i * 53) % 97) as i32)
}

fn check_graph<E>(c: &Collection<E>) {
    let vs = c.vectors();
    for (i, r) in vs.iter().enumerate() {
        assert_eq!(r.mapped_id, i);
        assert!(!r.layers.is_empty());
        for (l, list) in r.layers.iter().enumerate() {
            let bound = if l == 0 { M_MAX_0 } else { M };
            assert!(list.len() <= bound);
            for (k, &j) in list.iter().enumerate() {
                assert!(j < vs.len());
                assert_ne!(j, i);
                assert!(vs[j].layers.len() > l);
                assert!(!list[k + 1..].contains(&j));
            }
        }
    }
    match c.entry_point() {
        None => assert!(vs.is_empty()),
        Some(e) => assert!(vs[e].layers.len() > c.max_layer()),
    }
}

#[test]
fn new_collection_defaults_to_hnsw() {
    let c: Collection<Vec<f32>> = Collection::new("docs", None);
    assert_eq!(c.name(), "docs");
    assert_eq!(c.indexing_type(), "HNSW");
    assert_eq!(c.vectors().len(), 0);
    assert_eq!(c.entry_point(), None);
    assert_eq!(c.max_layer(), 0);
    assert_eq!(c.next_id(), 0);
}

#[test]
fn indexing_type_check_ignores_case() {
    assert!(indexing_type_is_hnsw("HNSW"));
    assert!(indexing_type_is_hnsw("hnsw"));
    assert!(indexing_type_is_hnsw("HnSw"));
    assert!(indexing_type_is_hnsw("hn\u{17F}w"));
    assert!(!indexing_type_is_hnsw("IVF"));
    assert!(!indexing_type_is_hnsw("HNSW "));
    assert!(!indexing_type_is_hnsw(""));
}

#[test]
fn insert_names_records_in_order() {
    let mut c: Collection<Vec<f32>> = Collection::new("docs", Some("HNSW"));
    c.insert(vec![0.1, 0.2, 0.3], 0, None, 0, &metric).unwrap();
    c.insert(vec![0.3, 0.2, 0.1], 2, None, 1, &metric).unwrap();
    c.insert(vec![0.9, 0.1, 0.0], 0, None, 0, &metric).unwrap();
    assert_eq!(c.vectors().len(), 3);
    assert_eq!(c.next_id(), 3);
    let r0 = c.get("vec_0").unwrap();
    assert_eq!(r0.id, "vec_0");
    assert_eq!(r0.mapped_id, 0);
    assert_eq!(r0.embeddings, vec![0.1, 0.2, 0.3]);
    let r1 = c.get("vec_1").unwrap();
    assert_eq!(r1.layers.len(), 3);
    assert_eq!(c.get("vec_2").unwrap().embeddings, vec![0.9, 0.1, 0.0]);
    assert_eq!(c.get("vec_3").unwrap_err(), RecordError::RecordNotFound("vec_3".to_string()));
    check_graph(&c);
}

#[test]
fn insert_rejects_unknown_index_type() {
    let mut c: Collection<Vec<f32>> = Collection::new("docs", Some("IVF"));
    let r = c.insert(vec![1.0, 0.0], 0, None, 0, &metric);
    assert_eq!(r, Err(RecordError::IndexingTypeNotFound("IVF".to_string())));
    assert_eq!(c.vectors().len(), 0);
    let q = c.query(&vec![1.0, 0.0], &metric);
    assert_eq!(q, Err(RecordError::IndexingTypeNotFound("IVF".to_string())));
    let b = c.insert_batch(vec![("a".to_string(), vec![1.0], None)], &vec![0], &metric);
    assert_eq!(b, Err(RecordError::IndexingTypeNotFound("IVF".to_string())));
    assert_eq!(c.vectors().len(), 0);
}

#[test]
fn query_on_empty_collection_fails() {
    let c: Collection<Vec<f32>> = Collection::new("docs", None);
    assert_eq!(
        c.query(&vec![1.0, 2.0], &metric),
        Err(RecordError::RecordNotFound("No entry point found, the collection is empty.".to_string()))
    );
}

#[test]
fn query_single_record() {
    let mut c: Collection<Vec<f32>> = Collection::new("docs", None);
    c.insert(vec![0.12, 0.45, 0.89], 0, None, 0, &metric).unwrap();
    let (id, key) = c.query(&vec![0.10, 0.40, 0.90], &metric).unwrap().unwrap();
    assert_eq!(id, "vec_0");
    assert_eq!(key, metric(&vec![0.12, 0.45, 0.89], &vec![0.10, 0.40, 0.90]));
}

#[test]
fn query_finds_each_stored_point() {
    let mut c: Collection<(i32, i32)> = Collection::new("grid", None);
    for i in 0..40 {
        let level = if i % 7 == 0 { 1 } else { 0 };
        c.insert(grid_point(i), 0, None, level, &squared).unwrap();
    }
    check_graph(&c);
    for i in 0..40 {
        let (id, key) = c.query(&grid_point(i), &squared).unwrap().unwrap();
        assert_eq!(key, 0);
        assert_eq!(id, format!("vec_{}", i));
    }
}

#[test]
fn answer_is_a_local_minimum_of_layer_zero() {
    let mut c: Collection<(i32, i32)> = Collection::new("grid", None);
    for i in 0..300 {
        let level = if i % 16 == 0 { 1 } else if i % 97 == 0 { 2 } else { 0 };
        c.insert(grid_point(i), 0, None, level, &squared).unwrap();
    }
    check_graph(&c);
    let q = (50, 50);
    let (id, key) = c.query(&q, &squared).unwrap().unwrap();
    let r = c.get(&id).unwrap();
    assert_eq!(key, squared(&r.embeddings, &q));
    for &n in &r.layers[0] {
        assert!(squared(&c.vectors()[n].embeddings, &q) >= key);
    }
    let e = c.entry_point().unwrap();
    assert!(key <= squared(&c.vectors()[e].embeddings, &q));
}

#[test]
fn degree_bounds_hold_after_many_inserts() {
    let mut c: Collection<(i32, i32)> = Collection::new("grid", None);
    for i in 0..400 {
        let level = if i % 50 == 0 { 2 } else { 0 };
        c.insert(((i % 20) as i32, (i / 20) as i32), 0, None, level, &squared).unwrap();
        if i > 0 {
            check_joined(&c, i, level.min(c.max_layer()));
        }
    }
    check_graph(&c);
    assert_eq!(c.vectors().len(), 400);
}

#[test]
fn entry_point_moves_to_higher_levels() {
    let mut c: Collection<(i32, i32)> = Collection::new("grid", None);
    c.insert((0, 0), 0, None, 0, &squared).unwrap();
    assert_eq!(c.entry_point(), Some(0));
    assert_eq!(c.max_layer(), 0);
    c.insert((1, 1), 0, None, 2, &squared).unwrap();
    assert_eq!(c.entry_point(), Some(1));
    assert_eq!(c.max_layer(), 2);
    c.insert((2, 2), 0, None, 1, &squared).unwrap();
    assert_eq!(c.entry_point(), Some(1));
    assert_eq!(c.max_layer(), 2);
    assert_eq!(c.vectors()[2].layers.len(), 2);
    assert_eq!(c.vectors()[2].layers[1], vec![1]);
    check_graph(&c);
}

#[test]
fn insert_batch_keeps_given_ids() {
    let mut c: Collection<(i32, i32)> = Collection::new("grid", None);
    let batch: Vec<(String, (i32, i32), Option<Metadata>)> = (0..10)
        .map(|i| (format!("p{}", i), grid_point(i), Some(Metadata::from_pairs(vec![("n".to_string(), i.to_string())]))))
        .collect();
    let levels = vec![0, 1, 0, 0, 2, 0, 0, 0, 1, 0];
    c.insert_batch(batch, &levels, &squared).unwrap();
    assert_eq!(c.vectors().len(), 10);
    assert_eq!(c.get("p4").unwrap().mapped_id, 4);
    assert_eq!(c.get("p4").unwrap().layers.len(), 3);
    assert_eq!(c.get("p7").unwrap().metadata.as_ref().unwrap().entries(), &vec![("n".to_string(), "7".to_string())]);
    assert_eq!(c.max_layer(), 2);
    check_graph(&c);
}

#[test]
fn later_record_wins_for_a_repeated_id() {
    let mut c: Collection<(i32, i32)> = Collection::new("grid", None);
    let batch = vec![
        ("same".to_string(), (0, 0), None),
        ("same".to_string(), (5, 5), None),
    ];
    c.insert_batch(batch, &vec![0, 0], &squared).unwrap();
    assert_eq!(c.get("same").unwrap().embeddings, (5, 5));
}

#[test]
fn hnsw_index_works_on_records_directly() {
    let mut c: Collection<(i32, i32)> = Collection::new("grid", None);
    HnswIndex::insert(&mut c, Record::new("a".to_string(), (3, 4), None, 0), 0, &squared);
    HnswIndex::insert(&mut c, Record::new("b".to_string(), (10, 10), None, 1), 1, &squared);
    let (id, key) = HnswIndex::search(&c, &(9, 9), &squared).unwrap().unwrap();
    assert_eq!(id, "b");
    assert_eq!(key, 2);
    let recs = vec![Record::new("c".to_string(), (0, 0), None, 0)];
    HnswIndex::insert_batch(&mut c, recs, &vec![0], &squared);
    assert_eq!(c.vectors().len(), 3);
    check_graph(&c);
}

#[test]
fn collection_round_trips_through_its_parts() {
    let mut c: Collection<(i32, i32)> = Collection::new("grid", None);
    for i in 0..20 {
        c.insert(grid_point(i), 0, None, i % 3, &squared).unwrap();
    }
    let vectors: Vec<Record<(i32, i32)>> = c
        .vectors()
        .iter()
        .map(|r| Record {
            id: r.id.clone(),
            mapped_id: r.mapped_id,
            embeddings: r.embeddings,
            metadata: r.metadata.clone(),
            layers: r.layers.clone(),
        })
        .collect();
    let rebuilt = Collection::from_parts(
        c.name().clone(),
        vectors,
        c.entry_point(),
        c.max_layer(),
        c.next_id(),
        c.indexing_type().clone(),
    )
    .unwrap();
    assert_eq!(rebuilt.get("vec_7").unwrap().embeddings, grid_point(7));
    assert_eq!(rebuilt.query(&grid_point(11), &squared).unwrap().unwrap().0, "vec_11");
    let broken = vec![Record { id: "x".to_string(), mapped_id: 0, embeddings: (0, 0), metadata: None, layers: vec![vec![0]] }];
    assert!(Collection::from_parts("g".to_string(), broken, Some(0), 0, 1, "HNSW".to_string()).is_none());
    let wrong_count: Vec<Record<(i32, i32)>> = Vec::new();
    assert!(Collection::from_parts("g".to_string(), wrong_count, None, 0, 1, "HNSW".to_string()).is_none());
}

/// Checks what insertion promises of the record at `n`, on each layer up to `levels`.
fn check_joined(c: &Collection<(i32, i32)>, n: usize, levels: usize) {
    let vs = c.vectors();
    for l in 0..=levels {
        let list = &vs[n].layers[l];
        assert!(!list.is_empty() && list.len() <= M);
        let keys: Vec<u32> = list.iter().map(|&j| squared(&vs[j].embeddings, &vs[n].embeddings)).collect();
        assert!(keys.windows(2).all(|w| w[0] <= w[1]));
        let bound = if l == 0 { M_MAX_0 } else { M };
        for &j in list {
            let back = &vs[j].layers[l];
            if !back.contains(&n) {
                assert_eq!(back.len(), bound);
                let dn = squared(&vs[n].embeddings, &vs[j].embeddings);
                for &x in back {
                    assert!(squared(&vs[x].embeddings, &vs[j].embeddings) <= dn);
                }
            }
        }
    }
}

#[test]
fn new_records_are_joined_closest_first() {
    let mut c: Collection<(i32, i32)> = Collection::new("grid", None);
    c.insert((0, 0), 0, None, 1, &squared).unwrap();
    for i in 1..120 {
        c.insert(grid_point(i), 0, None, i % 2, &squared).unwrap();
        check_joined(&c, i, i % 2);
    }
    check_graph(&c);
}

#[test]
fn batch_records_keep_a_bottom_neighbour() {
    let mut c: Collection<(i32, i32)> = Collection::new("grid", None);
    let batch: Vec<(String, (i32, i32), Option<Metadata>)> =
        (0..300).map(|i| (format!("p{}", i), grid_point(i), None)).collect();
    let levels: Vec<usize> = (0..300).map(|i| if i % 40 == 0 { 1 } else { 0 }).collect();
    c.insert_batch(batch, &levels, &squared).unwrap();
    for (i, r) in c.vectors().iter().enumerate() {
        if i > 0 {
            assert!(!r.layers[0].is_empty());
        }
    }
    check_graph(&c);
}

#[test]
fn random_vectors_insert_and_query() {
    let mut rng = rand::thread_rng();
    let dim = 32;
    let mut c: Collection<Vec<f32>> = Collection::new("vectors", Some("HNSW"));
    let batch: Vec<(String, Vec<f32>, Option<Metadata>)> = (0..1000)
        .map(|i| (format!("vec_{}", i), (0..dim).map(|_| rng.gen_range(-1.0..1.0)).collect(), None))
        .collect();
    let levels: Vec<usize> = (0..1000).map(|i| if i % 16 == 0 { 1 } else { 0 }).collect();
    c.insert_batch(batch, &levels, &metric).unwrap();
    assert_eq!(c.vectors().len(), 1000);
    for _ in 0..50 {
        let q: Vec<f32> = (0..dim).map(|_| rng.gen_range(-1.0..1.0)).collect();
        let (id, key) = c.query(&q, &metric).unwrap().unwrap();
        let r = c.get(&id).unwrap();
        assert_eq!(metric(&r.embeddings, &q), key);
        for &j in &r.layers[0] {
            assert!(metric(&c.vectors()[j].embeddings, &q) >= key);
        }
    }
    check_graph(&c);
}

#[test]
fn inserted_record_starts_without_links() {
    let mut c: Collection<(i32, i32)> = Collection::new("grid", None);
    HnswIndex::insert(&mut c, Record::new("a".to_string(), (0, 0), None, 0), 0, &squared);
    let stale = Record { id: "b".to_string(), mapped_id: 7, embeddings: (1, 1), metadata: None, layers: vec![vec![5, 9], vec![3], vec![4]] };
    HnswIndex::insert(&mut c, stale, 0, &squared);
    let b = &c.vectors()[1];
    assert_eq!(b.mapped_id, 1);
    assert_eq!(b.layers.len(), 3);
    assert_eq!(b.layers[0], vec![0]);
    assert!(b.layers[1].is_empty() && b.layers[2].is_empty());
    let empty = Record { id: "c".to_string(), mapped_id: 0, embeddings: (2, 2), metadata: None, layers: vec![] };
    HnswIndex::insert(&mut c, empty, 1, &squared);
    assert_eq!(c.vectors()[2].layers.len(), 2);
    assert_eq!(c.entry_point(), Some(2));
    check_graph(&c);
}

#[test]
fn batch_ids_are_found_afterwards() {
    let mut c: Collection<(i32, i32)> = Collection::new("grid", None);
    c.insert((9, 9), 0, None, 0, &squared).unwrap();
    let batch = vec![
        ("x".to_string(), (0, 0), None),
        ("y".to_string(), (1, 0), None),
        ("x".to_string(), (2, 0), None),
    ];
    c.insert_batch(batch, &vec![0, 0, 0], &squared).unwrap();
    assert_eq!(c.get("vec_0").unwrap().mapped_id, 0);
    assert_eq!(c.get("y").unwrap().mapped_id, 2);
    assert_eq!(c.get("x").unwrap().mapped_id, 3);
}

#[test]
fn record_clone_copies_everything() {
    let r = Record {
        id: "a".to_string(),
        mapped_id: 3,
        embeddings: vec![1.0f32, 2.0],
        metadata: Some(Metadata::from_pairs(vec![("k".to_string(), "v".to_string()), ("k".to_string(), "w".to_string())])),
        layers: vec![vec![1, 2], vec![]],
    };
    let mut c = r.clone();
    assert_eq!(c.id, r.id);
    assert_eq!(c.mapped_id, 3);
    assert_eq!(c.embeddings, r.embeddings);
    assert_eq!(c.metadata.as_ref().unwrap().entries(), &vec![("k".to_string(), "w".to_string())]);
    assert_eq!(c.metadata.as_ref().unwrap().entries(), r.metadata.as_ref().unwrap().entries());
    assert_eq!(c.layers, r.layers);
    c.layers[0].push(9);
    assert_eq!(r.layers[0], vec![1, 2]);
}

#[test]
fn search_layer_accepts_entry_points_off_the_layer() {
    let mut c: Collection<(i32, i32)> = Collection::new("grid", None);
    for i in 0..20 {
        c.insert(grid_point(i), 0, None, if i == 0 { 1 } else { 0 }, &squared).unwrap();
    }
    let res = search_layer(c.vectors(), &(5, 5), &vec![3, 0], 1, 10, &squared);
    assert!(res.iter().any(|&(_, id)| id == 3));
    let all = search_layer(c.vectors(), &(5, 5), &vec![0], 0, 100, &squared);
    assert_eq!(all.len(), 20);
}
