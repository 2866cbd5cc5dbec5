use vecdb::engine::{check_load_path, Engine};
use vecdb::errors::{CollectionError, EngineError};

fn squared(a: &(i32, i32), b: &(i32, i32)) -> u32 {
    let dx = (a.0 - b.0) as i64;
    let dy = (a.1 - b.1) as i64;
    (dx * dx + dy * dy) as u32
}

#[test]
fn new_engine_is_empty() {
    let e: Engine<(i32, i32)> = Engine::new("production_db");
    assert_eq!(e.id(), "production_db");
    assert!(e.collections().is_empty());
    assert_eq!(e.save_path(), &None);
    assert!(e.health_check().is_ok());
}

#[test]
fn create_then_get_collection() {
    let mut e: Engine<(i32, i32)> = Engine::new("db");
    e.create_collection("documents", Some("HNSW")).unwrap();
    assert!(e.check_collection_found("documents"));
    assert!(!e.check_collection_found("images"));
    let c = e.get_collection("documents").unwrap();
    assert_eq!(c.name(), "documents");
    assert_eq!(c.indexing_type(), "HNSW");
    assert_eq!(c.vectors().len(), 0);
    e.create_collection("images", None).unwrap();
    assert_eq!(e.get_collection("images").unwrap().indexing_type(), "HNSW");
    assert_eq!(e.collections().len(), 2);
}

#[test]
fn creating_a_taken_name_fails() {
    let mut e: Engine<(i32, i32)> = Engine::new("db");
    e.create_collection("documents", None).unwrap();
    assert_eq!(
        e.create_collection("documents", Some("IVF")),
        Err(CollectionError::CollectionAlreadyExists("documents".to_string()))
    );
    assert_eq!(e.get_collection("documents").unwrap().indexing_type(), "HNSW");
}

#[test]
fn missing_collection_is_reported() {
    let mut e: Engine<(i32, i32)> = Engine::new("db");
    assert_eq!(e.get_collection("nope").err(), Some(CollectionError::CollectionNotFound("nope".to_string())));
    assert_eq!(e.get_collection_mut("nope").err(), Some(CollectionError::CollectionNotFound("nope".to_string())));
    assert_eq!(e.delete_collection("nope"), Err(CollectionError::CollectionDeleteFailed("nope".to_string())));
}

#[test]
fn delete_collection_removes_only_that_one() {
    let mut e: Engine<(i32, i32)> = Engine::new("db");
    e.create_collection("a", None).unwrap();
    e.create_collection("b", None).unwrap();
    e.create_collection("c", None).unwrap();
    e.delete_collection("b").unwrap();
    assert!(!e.check_collection_found("b"));
    assert!(e.check_collection_found("a"));
    assert!(e.check_collection_found("c"));
    assert!(e.get_collection("b").is_err());
    e.create_collection("b", Some("flat")).unwrap();
    assert_eq!(e.get_collection("b").unwrap().indexing_type(), "flat");
}

#[test]
fn changes_through_get_collection_mut_stay() {
    let mut e: Engine<(i32, i32)> = Engine::new("db");
    e.create_collection("vectors", Some("HNSW")).unwrap();
    {
        let c = e.get_collection_mut("vectors").unwrap();
        c.insert((1, 2), 0, None, 0, &squared).unwrap();
        c.insert((3, 4), 0, None, 0, &squared).unwrap();
    }
    let c = e.get_collection("vectors").unwrap();
    assert_eq!(c.vectors().len(), 2);
    assert_eq!(c.query(&(3, 3), &squared).unwrap().unwrap().0, "vec_1");
}

#[test]
fn save_needs_a_path() {
    let mut e: Engine<(i32, i32)> = Engine::new("db");
    assert_eq!(e.save_destination(), Err(EngineError::EngineSaveFailed("Save path not set".to_string())));
    e.set_save_path(Some("/tmp/db.bin".to_string()));
    assert_eq!(e.save_destination(), Ok("/tmp/db.bin".to_string()));
}

#[test]
fn load_needs_a_path() {
    assert_eq!(check_load_path(""), Err(EngineError::EngineLoadFilePathNotFound("Save path not set".to_string())));
    assert_eq!(check_load_path("db.bin"), Ok(()));
}

#[test]
fn engine_rebuilds_from_parts() {
    let mut e: Engine<(i32, i32)> = Engine::new("db");
    e.create_collection("a", None).unwrap();
    e.create_collection("b", None).unwrap();
    let parts = vec![
        ("x".to_string(), vecdb::collection::Collection::<(i32, i32)>::new("x", None)),
        ("x".to_string(), vecdb::collection::Collection::new("x2", Some("IVF"))),
    ];
    let r = Engine::from_parts("db2".to_string(), parts, Some("p".to_string()));
    assert_eq!(r.id(), "db2");
    assert_eq!(r.collections().len(), 1);
    assert_eq!(r.get_collection("x").unwrap().indexing_type(), "IVF");
    assert_eq!(r.save_path(), &Some("p".to_string()));
    e.destroy();
}
