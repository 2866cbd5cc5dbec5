//! Building the records that the ingestion of raw texts inserts, and the
//! embedding services a text can be sent to.
use vstd::prelude::*;
use vstd::string::StringExecFns;
use crate::graph::Metadata;
use crate::metadata::pairs_map;

verus! {

broadcast use vstd::string::group_string_axioms;

/// `c` is a lowercase hexadecimal digit.
pub open spec fn is_lower_hex(c: char) -> bool {
    ('0' <= c <= '9') || ('a' <= c <= 'f')
}

/// `s` is a UUID in hyphenated lowercase form (8-4-4-4-12 hex digits).
pub open spec fn is_hyphenated_uuid(s: Seq<char>) -> bool {
    &&& s.len() == 36
    &&& forall|i: int|
        0 <= i < 36 ==> if i == 8 || i == 13 || i == 18 || i == 23 {
            #[trigger] s[i] == '-'
        } else {
            is_lower_hex(s[i])
        }
}

/// `s` is a random (version 4, RFC 4122 variant) UUID in hyphenated
/// lowercase form: the version digit is `4` and the variant digit is one of
/// `8`, `9`, `a`, `b`.
pub open spec fn is_v4_uuid(s: Seq<char>) -> bool {
    &&& is_hyphenated_uuid(s)
    &&& s[14] == '4'
    &&& (s[19] == '8' || s[19] == '9' || s[19] == 'a' || s[19] == 'b')
}

/// Calls `uuid::Uuid::new_v4` and renders it with `to_string`, which writes
/// the hyphenated lowercase form; `new_v4` sets the version and variant bits.
/// Which of the other digits come out is left to chance.
#[verifier::external_body]
fn random_uuid() -> (s: String)
    ensures
        is_v4_uuid(s@),
{
    uuid::Uuid::new_v4().to_string()
}

/// `id` is a document id: `doc_` followed by a random UUID.
pub open spec fn is_document_id(id: Seq<char>) -> bool {
    id.len() == 40 && id.take(4) == seq!['d', 'o', 'c', '_'] && is_v4_uuid(id.skip(4))
}

/// A fresh document id `doc_<random UUID>`.
pub fn new_document_id() -> (id: String)
    ensures
        is_document_id(id@),
{
    let u = random_uuid();
    let mut id = String::from_str("doc_");
    id.append(u.as_str());
    proof {
        reveal_strlit("doc_");
        assert(id@.take(4) =~= seq!['d', 'o', 'c', '_']);
        assert(id@.skip(4) =~= u@);
    }
    id
}

/// The metadata of an ingested text: the single key `text`, holding it.
pub open spec fn text_metadata(m: Metadata, text: Seq<char>) -> bool {
    m@ == Map::<Seq<char>, Seq<char>>::empty().insert("text"@, text)
}

/// One record per embedding, in order: a fresh document id, the embedding,
/// and metadata holding the text it was computed from.
pub fn ingest_records<E>(texts: &Vec<String>, embeddings: Vec<E>) -> (records: Vec<(String, E, Option<Metadata>)>)
    requires
        embeddings@.len() <= texts@.len(),
    ensures
        records@.len() == embeddings@.len(),
        forall|k: int|
            0 <= k < records@.len() ==> {
                let r = #[trigger] records@[k];
                &&& is_document_id(r.0@)
                &&& r.1 == embeddings@[k]
                &&& r.2 matches Some(m) && text_metadata(m, texts@[k]@)
            },
{
    let ghost embs = embeddings@;
    let mut records: Vec<(String, E, Option<Metadata>)> = Vec::with_capacity(embeddings.len());
    let mut i: usize = 0;
    for emb in it: embeddings.into_iter()
        invariant
            it.seq() == embs,
            i == it.index(),
            embs.len() <= texts@.len(),
            records@.len() == i,
            forall|k: int|
                0 <= k < records@.len() ==> {
                    let r = #[trigger] records@[k];
                    &&& is_document_id(r.0@)
                    &&& r.1 == embs[k]
                    &&& r.2 matches Some(m) && text_metadata(m, texts@[k]@)
                },
    {
        let key = String::from_str("text");
        proof {
            reveal_strlit("text");
        }
        let value = texts[i].clone();
        let ghost kv = (key, value);
        let mut pairs: Vec<(String, String)> = Vec::new();
        pairs.push((key, value));
        let ghost pv = pairs@;
        let meta = Metadata::from_pairs(pairs);
        proof {
            assert(pv.drop_last() =~= Seq::<(String, String)>::empty());
            assert(pv.last() == kv);
            assert(kv.0@ == "text"@);
            assert(kv.1@ == texts@[i as int]@);
            assert(pairs_map(pv.drop_last()) == Map::<Seq<char>, Seq<char>>::empty());
            assert(pairs_map(pv) == pairs_map(pv.drop_last()).insert(kv.0@, kv.1@));
            assert(meta@ =~= Map::<Seq<char>, Seq<char>>::empty().insert("text"@, texts@[i as int]@));
        }
        let id = new_document_id();
        records.push((id, emb, Some(meta)));
        assert(i < texts.len());
        i = i + 1;
    }
    records
}

/// An embedding service reached through the OpenAI API.
pub struct OpenAiEmbedder {
    pub api_key: String,
    pub model: String,
}

/// An embedding service reached through an Ollama server.
pub struct OllamaEmbedder {
    pub url: String,
    pub model: String,
}

/// A local ONNX embedding model.
pub struct LocalOnnxEmbedder {}

} // verus!
