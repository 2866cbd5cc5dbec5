# vecdb

A vector database engine: named collections of vectors, each indexed by a
Hierarchical Navigable Small World (HNSW) graph, served over HTTP, with
document ingestion (text, PDF, Word, Excel) and persistence to disk.

The library in `src/` is written in Verus and verified:

- `graph.rs`: records, the layered proximity graph and its well-formedness,
  the greedy descent and the beam search on one layer, and the linking of a
  new node into a layer (with neighbour-list pruning).
- `metadata.rs`: record metadata, a map from keys to values.
- `scored.rs`: lists of (distance key, node) pairs and their sorting.
- `collection.rs`: collections with their id map, and the HNSW index
  (insertion, batch insertion, nearest-neighbour query).
- `engine.rs`: the engine, a map from names to collections.
- `text.rs`: record ids `vec_<n>`.
- `chunker.rs`: splitting text into chunks of paragraphs.
- `documents.rs`: choosing a reader by file extension, the text of a Word
  document's XML body, the text layout of spreadsheet cells.
- `ingest.rs`: document ids and the records built from embedded texts.
- `models.rs`, `errors.rs`, `metrics.rs`: request bodies, error types and the
  names of the distance metrics.
- `laws.rs`: properties that relate several operations.

Distances are handed to the library as a function from two vectors to an
order key (`u32`, smaller is closer), so that the graph code works on any
vector type and never on floating point.

`app/` is the program around the library: the HTTP server (axum, tokio),
the floating-point distance metrics and the random choice of node levels,
file reading (pdf-extract, zip, calamine), persistence (serde, bincode) and
the embedding services. `tests/` exercises the library.
