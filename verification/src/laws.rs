//! Properties that relate several operations of the library.
use vstd::prelude::*;
use crate::collection::{appended, id_index, is_search_answer, Collection};
use crate::graph::{measured, Metadata, Record};
use crate::text::{decimal, digit_char, vector_id_of};

verus! {

proof fn lemma_decimal_len(n: nat)
    ensures
        decimal(n).len() >= 1,
        n >= 10 ==> decimal(n).len() >= 2,
    decreases n,
{
    if n >= 10 {
        lemma_decimal_len(n / 10);
    }
}

proof fn lemma_decimal_injective(m: nat, n: nat)
    requires
        decimal(m) == decimal(n),
    ensures
        m == n,
    decreases m + n,
{
    lemma_decimal_len(m);
    lemma_decimal_len(n);
    if m < 10 && n < 10 {
        assert(decimal(m)[0] == digit_char(m));
        assert(decimal(n)[0] == digit_char(n));
    } else if m >= 10 && n >= 10 {
        let dm = decimal(m);
        let dn = decimal(n);
        assert(dm.last() == digit_char(m % 10));
        assert(dn.last() == digit_char(n % 10));
        assert(dm.drop_last() =~= decimal(m / 10));
        assert(dn.drop_last() =~= decimal(n / 10));
        lemma_decimal_injective(m / 10, n / 10);
    }
}

/// Records inserted at different positions get different ids.
pub proof fn law_vector_ids_distinct(m: nat, n: nat)
    requires
        m != n,
    ensures
        vector_id_of(m) != vector_id_of(n),
{
    if vector_id_of(m) == vector_id_of(n) {
        assert(vector_id_of(m).skip(4) =~= decimal(m));
        assert(vector_id_of(n).skip(4) =~= decimal(n));
        lemma_decimal_injective(m, n);
    }
}

/// A record inserted by `Collection::insert` is what `Collection::get` finds
/// under its id afterwards, with the vector and metadata it was given.
pub proof fn law_insert_then_get<E>(
    before: Seq<Record<E>>,
    after: Seq<Record<E>>,
    embeddings: E,
    metadata: Option<Metadata>,
    levels: int,
)
    requires
        appended(before, after, vector_id_of(before.len()), embeddings, metadata, levels),
        id_index(after) == id_index(before).insert(vector_id_of(before.len()), before.len() as usize),
        after.len() <= usize::MAX,
    ensures
        id_index(after).contains_key(vector_id_of(before.len())),
        id_index(after)[vector_id_of(before.len())] == before.len(),
        after[before.len() as int].id@ == vector_id_of(before.len()),
        after[before.len() as int].embeddings == embeddings,
        after[before.len() as int].metadata == metadata,
{
    assert(after[before.len() as int] == after.last());
}

/// On a collection of a single record, a query answers that record.
pub proof fn law_single_record_query<E, F: Fn(&E, &E) -> u32>(
    f: F,
    records: Seq<Record<E>>,
    entry: usize,
    query: E,
    answer: (String, u32),
)
    requires
        records.len() == 1,
        is_search_answer(f, records, entry, query, answer),
    ensures
        answer.0@ == records[0].id@,
        measured(f, records[0].embeddings, query, answer.1),
{
}

/// Creating a collection under a free name and then deleting it gives the
/// engine's collections back as they were.
pub proof fn law_create_then_delete<E>(
    collections: Map<Seq<char>, Collection<E>>,
    name: Seq<char>,
    created: Collection<E>,
)
    requires
        !collections.contains_key(name),
    ensures
        collections.insert(name, created).remove(name) == collections,
{
    assert(collections.insert(name, created).remove(name) =~= collections);
}

} // verus!
