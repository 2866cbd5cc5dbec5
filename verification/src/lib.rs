pub mod errors;
pub mod scored;
pub mod metadata;
pub mod graph;
pub mod text;
pub mod collection;
pub mod engine;
pub mod chunker;
pub mod documents;
pub mod ingest;
pub mod models;
pub mod metrics;
pub mod laws;
