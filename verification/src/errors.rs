//! Error values of the engine, its collections and their records. Each
//! variant carries the name, id or message it is about.
use vstd::prelude::*;

verus! {

#[derive(Debug, PartialEq, Eq)]
pub enum CollectionError {
    CollectionAlreadyExists(String),
    CollectionNotFound(String),
    CollectionDeleteFailed(String),
    CollectionGetFailed(String),
    CollectionUpdateFailed(String),
}

#[derive(Debug, PartialEq, Eq)]
pub enum RecordError {
    RecordAlreadyExists(String),
    RecordNotFound(String),
    RecordDeleteFailed(String),
    RecordGetFailed(String),
    RecordUpdateFailed(String),
    IndexingTypeNotFound(String),
    IndexingTypeAlreadyRegistered(String),
}

#[derive(Debug, PartialEq, Eq)]
pub enum EngineError {
    EngineAlreadyExists(String),
    EngineNotFound(String),
    EngineDeleteFailed(String),
    EngineGetFailed(String),
    EngineUpdateFailed(String),
    EngineSaveFailed(String),
    EngineLoadFailed(String),
    EngineLoadFilePathNotFound(String),
}

} // verus!
