//! The engine: a set of named collections.
use vstd::prelude::*;
use crate::collection::Collection;
use crate::errors::{CollectionError, EngineError};

verus! {

broadcast use vstd::string::group_string_axioms;

/// The map from names to collections that a list of named entries stands
/// for; a later entry replaces an earlier one of the same name.
pub open spec fn entries_map<E>(s: Seq<(String, Collection<E>)>) -> Map<Seq<char>, Collection<E>>
    decreases s.len(),
{
    if s.len() == 0 {
        Map::empty()
    } else {
        entries_map(s.drop_last()).insert(s.last().0@, s.last().1)
    }
}

/// The last entry named `k` is the one the map holds under `k`.
proof fn lemma_entries_last<E>(s: Seq<(String, Collection<E>)>, i: int, k: Seq<char>)
    requires
        0 <= i < s.len(),
        s[i].0@ == k,
        forall|j: int| i < j < s.len() ==> (#[trigger] s[j]).0@ != k,
    ensures
        entries_map(s).contains_key(k),
        entries_map(s)[k] == s[i].1,
    decreases s.len(),
{
    if i < s.len() - 1 {
        let t = s.drop_last();
        assert(t[i] == s[i]);
        assert forall|j: int| i < j < t.len() implies (#[trigger] t[j]).0@ != k by {
            assert(t[j] == s[j]);
        }
        lemma_entries_last(t, i, k);
        assert(s[s.len() - 1].0@ != k);
    }
}

/// A name no entry carries is not in the map.
proof fn lemma_entries_absent<E>(s: Seq<(String, Collection<E>)>, k: Seq<char>)
    requires
        forall|j: int| 0 <= j < s.len() ==> (#[trigger] s[j]).0@ != k,
    ensures
        !entries_map(s).contains_key(k),
    decreases s.len(),
{
    if s.len() > 0 {
        let t = s.drop_last();
        assert forall|j: int| 0 <= j < t.len() implies (#[trigger] t[j]).0@ != k by {
            assert(t[j] == s[j]);
        }
        lemma_entries_absent(t, k);
        assert(s[s.len() - 1].0@ != k);
    }
}

/// Replacing the collection of the last entry of its name replaces it in the map.
proof fn lemma_entries_update<E>(s: Seq<(String, Collection<E>)>, i: int, v: Collection<E>)
    requires
        0 <= i < s.len(),
        forall|j: int| i < j < s.len() ==> (#[trigger] s[j]).0@ != s[i].0@,
    ensures
        entries_map(s.update(i, (s[i].0, v))) == entries_map(s).insert(s[i].0@, v),
    decreases s.len(),
{
    let u = s.update(i, (s[i].0, v));
    let t = s.drop_last();
    if i == s.len() - 1 {
        assert(u.drop_last() =~= t);
        assert(entries_map(u) =~= entries_map(s).insert(s[i].0@, v));
    } else {
        assert(u.drop_last() =~= t.update(i, (s[i].0, v)));
        assert(t[i] == s[i]);
        assert forall|j: int| i < j < t.len() implies (#[trigger] t[j]).0@ != t[i].0@ by {
            assert(t[j] == s[j]);
        }
        lemma_entries_update(t, i, v);
        assert(s[s.len() - 1].0@ != s[i].0@);
        assert(u.last() == s.last());
        assert(entries_map(u) =~= entries_map(s).insert(s[i].0@, v));
    }
}

/// Removing an entry named `k` leaves the map as it was apart from `k`.
proof fn lemma_entries_remove<E>(s: Seq<(String, Collection<E>)>, i: int, k: Seq<char>)
    requires
        0 <= i < s.len(),
        s[i].0@ == k,
    ensures
        entries_map(s.remove(i)).remove(k) == entries_map(s).remove(k),
    decreases s.len(),
{
    let r = s.remove(i);
    let t = s.drop_last();
    if i == s.len() - 1 {
        assert(r =~= t);
        assert(entries_map(s).remove(k) =~= entries_map(t).remove(k));
    } else {
        let rt = t.remove(i);
        assert forall|j: int| 0 <= j < rt.len() implies r.drop_last()[j] == rt[j] by {
            if j < i {
                assert(r[j] == s[j]);
                assert(rt[j] == t[j]);
            } else {
                assert(r[j] == s[j + 1]);
                assert(rt[j] == t[j + 1]);
            }
        }
        assert(r.drop_last() =~= rt);
        assert(t[i] == s[i]);
        assert(r[r.len() - 1] == s[s.len() - 1]);
        lemma_entries_remove(t, i, k);
        assert(entries_map(r) == entries_map(rt).insert(s.last().0@, s.last().1));
        assert(entries_map(s) == entries_map(t).insert(s.last().0@, s.last().1));
        let a = entries_map(rt);
        let b = entries_map(t);
        let x = s.last().0@;
        let v = s.last().1;
        assert(a.remove(k) == b.remove(k));
        if x == k {
            assert(a.insert(x, v).remove(k) =~= a.remove(k));
            assert(b.insert(x, v).remove(k) =~= b.remove(k));
        } else {
            assert(a.insert(x, v).remove(k) =~= a.remove(k).insert(x, v));
            assert(b.insert(x, v).remove(k) =~= b.remove(k).insert(x, v));
        }
    }
}

/// The vector database engine: an id, its named collections, and where it is saved.
pub struct Engine<E> {
    id: String,
    collections: Vec<(String, Collection<E>)>,
    save_path: Option<String>,
}

impl<E> View for Engine<E> {
    type V = Map<Seq<char>, Collection<E>>;

    closed spec fn view(&self) -> Map<Seq<char>, Collection<E>> {
        entries_map(self.collections@)
    }
}

impl<E> Engine<E> {
    pub closed spec fn id_view(&self) -> Seq<char> {
        self.id@
    }

    pub closed spec fn save_path_view(&self) -> Option<Seq<char>> {
        match self.save_path {
            Some(p) => Some(p@),
            None => None,
        }
    }

    /// A new engine with no collections and no save path.
    pub fn new(id: &str) -> (e: Self)
        ensures
            e@ == Map::<Seq<char>, Collection<E>>::empty(),
            e.id_view() == id@,
            e.save_path_view() is None,
    {
        let e = Engine { id: id.to_string(), collections: Vec::new(), save_path: None };
        assert(e@ =~= Map::<Seq<char>, Collection<E>>::empty());
        e
    }

    /// Index of the last entry named `name`, if there is one.
    fn find(&self, name: &str) -> (r: Option<usize>)
        ensures
            match r {
                Some(i) => i < self.collections@.len() && self.collections@[i as int].0@ == name@ && forall|j: int|
                    i < j < self.collections@.len() ==> (#[trigger] self.collections@[j]).0@ != name@,
                None => forall|i: int| 0 <= i < self.collections@.len() ==> (#[trigger] self.collections@[i]).0@ != name@,
            },
    {
        let key = name.to_string();
        let mut i: usize = self.collections.len();
        while i > 0
            invariant
                key@ == name@,
                i <= self.collections@.len(),
                forall|j: int| i <= j < self.collections@.len() ==> (#[trigger] self.collections@[j]).0@ != name@,
            decreases i,
        {
            i = i - 1;
            if self.collections[i].0 == key {
                return Some(i);
            }
        }
        None
    }

    /// Whether a collection named `name` exists.
    pub fn check_collection_found(&self, name: &str) -> (b: bool)
        ensures
            b == self@.contains_key(name@),
    {
        let r = self.find(name);
        proof {
            match r {
                Some(i) => lemma_entries_last(self.collections@, i as int, name@),
                None => lemma_entries_absent(self.collections@, name@),
            }
        }
        r.is_some()
    }

    /// Consumes the engine.
    pub fn destroy(self) {
    }

    /// Always healthy.
    pub fn health_check(&self) -> (res: Result<(), EngineError>)
        ensures
            res is Ok,
    {
        Ok(())
    }

    /// Adds an empty collection named `name`; its index type is the given one
    /// or `HNSW`. Fails when the name is taken.
    pub fn create_collection(&mut self, name: &str, indexing_type: Option<&str>) -> (res: Result<(), CollectionError>)
        ensures
            res is Ok <==> !old(self)@.contains_key(name@),
            res matches Err(e) ==> (e matches CollectionError::CollectionAlreadyExists(n) && n@ == name@)
                && final(self)@ == old(self)@,
            res is Ok ==> final(self)@.dom() == old(self)@.dom().insert(name@),
            res is Ok ==> forall|k: Seq<char>| #[trigger] old(self)@.contains_key(k) ==> final(self)@[k] == old(self)@[k],
            res is Ok ==> fresh_collection(final(self)@[name@], name@, indexing_type),
            final(self).id_view() == old(self).id_view(),
            final(self).save_path_view() == old(self).save_path_view(),
    {
        if self.check_collection_found(name) {
            return Err(CollectionError::CollectionAlreadyExists(name.to_string()));
        }
        let collection = Collection::new(name, indexing_type);
        let ghost before = self.collections@;
        self.collections.push((name.to_string(), collection));
        proof {
            let after = self.collections@;
            assert(after.drop_last() =~= before);
            assert(self@ == entries_map(before).insert(name@, after.last().1));
            assert(self@.dom() =~= entries_map(before).dom().insert(name@));
        }
        Ok(())
    }

    /// The collection named `name`.
    pub fn get_collection(&self, name: &str) -> (res: Result<&Collection<E>, CollectionError>)
        ensures
            res is Ok <==> self@.contains_key(name@),
            res matches Ok(c) ==> *c == self@[name@],
            res matches Err(e) ==> (e matches CollectionError::CollectionNotFound(n) && n@ == name@),
    {
        match self.find(name) {
            Some(i) => {
                proof {
                    lemma_entries_last(self.collections@, i as int, name@);
                }
                Ok(&self.collections[i].1)
            },
            None => {
                proof {
                    lemma_entries_absent(self.collections@, name@);
                }
                Err(CollectionError::CollectionNotFound(name.to_string()))
            },
        }
    }

    /// The collection named `name`, for changes.
    pub fn get_collection_mut(&mut self, name: &str) -> (res: Result<&mut Collection<E>, CollectionError>)
        ensures
            res is Ok <==> old(self)@.contains_key(name@),
            res matches Ok(c) ==> *c == old(self)@[name@] && final(self)@ == old(self)@.insert(name@, *final(c)),
            res matches Err(e) ==> (e matches CollectionError::CollectionNotFound(n) && n@ == name@) && *final(self) == *old(self),
            final(self).id_view() == old(self).id_view(),
            final(self).save_path_view() == old(self).save_path_view(),
    {
        match self.find(name) {
            Some(i) => {
                proof {
                    lemma_entries_last(self.collections@, i as int, name@);
                }
                let ghost before = self.collections@;
                let entry = &mut self.collections[i];
                let c = &mut entry.1;
                proof {
                    lemma_entries_update(before, i as int, *final(c));
                }
                Ok(c)
            },
            None => {
                proof {
                    lemma_entries_absent(self.collections@, name@);
                }
                Err(CollectionError::CollectionNotFound(name.to_string()))
            },
        }
    }

    /// Removes the collection named `name`; fails when there is none.
    pub fn delete_collection(&mut self, name: &str) -> (res: Result<(), CollectionError>)
        ensures
            res is Ok <==> old(self)@.contains_key(name@),
            res is Ok ==> final(self)@ == old(self)@.remove(name@),
            res matches Err(e) ==> (e matches CollectionError::CollectionDeleteFailed(n) && n@ == name@)
                && final(self)@ == old(self)@,
            final(self).id_view() == old(self).id_view(),
            final(self).save_path_view() == old(self).save_path_view(),
    {
        if !self.check_collection_found(name) {
            return Err(CollectionError::CollectionDeleteFailed(name.to_string()));
        }
        let ghost orig = self.collections@;
        let key = name.to_string();
        let mut i: usize = self.collections.len();
        while i > 0
            invariant
                key@ == name@,
                i <= self.collections@.len(),
                entries_map(self.collections@).remove(name@) == entries_map(orig).remove(name@),
                forall|j: int| i <= j < self.collections@.len() ==> (#[trigger] self.collections@[j]).0@ != name@,
                self.id@ == old(self).id@,
                self.save_path == old(self).save_path,
            decreases i,
        {
            i = i - 1;
            if self.collections[i].0 == key {
                let ghost before = self.collections@;
                self.collections.remove(i);
                proof {
                    lemma_entries_remove(before, i as int, name@);
                    assert forall|j: int| i <= j < self.collections@.len() implies (#[trigger] self.collections@[j]).0@ != name@ by {
                        assert(self.collections@[j] == before[j + 1]);
                    }
                }
            }
        }
        proof {
            lemma_entries_absent(self.collections@, name@);
            assert(entries_map(self.collections@) =~= entries_map(self.collections@).remove(name@));
        }
        Ok(())
    }
}

impl<E> Engine<E> {
    /// The engine's id.
    pub fn id(&self) -> (r: &String)
        ensures
            r@ == self.id_view(),
    {
        &self.id
    }

    /// Where the engine is saved, if set.
    pub fn save_path(&self) -> (r: &Option<String>)
        ensures
            match *r {
                Some(p) => self.save_path_view() == Some(p@),
                None => self.save_path_view() is None,
            },
    {
        &self.save_path
    }

    /// Sets where the engine is saved.
    pub fn set_save_path(&mut self, path: Option<String>)
        ensures
            final(self)@ == old(self)@,
            final(self).id_view() == old(self).id_view(),
            final(self).save_path_view() == match path {
                Some(p) => Some(p@),
                None => None::<Seq<char>>,
            },
    {
        self.save_path = path;
    }

    /// The named collections, in creation order; a later entry of a name
    /// stands for it.
    pub fn collections(&self) -> (r: &Vec<(String, Collection<E>)>)
        ensures
            entries_map(r@) == self@,
    {
        &self.collections
    }

    /// The file to save the engine to; an error when no save path is set.
    pub fn save_destination(&self) -> (res: Result<String, EngineError>)
        ensures
            match self.save_path_view() {
                Some(p) => res matches Ok(s) && s@ == p,
                None => res matches Err(EngineError::EngineSaveFailed(m)) && m@ == "Save path not set"@,
            },
    {
        match &self.save_path {
            Some(p) => Ok(p.clone()),
            None => Err(EngineError::EngineSaveFailed("Save path not set".to_string())),
        }
    }

    /// Rebuilds an engine from stored parts; when a name occurs twice the
    /// later collection replaces the earlier one.
    pub fn from_parts(id: String, collections: Vec<(String, Collection<E>)>, save_path: Option<String>) -> (e: Self)
        ensures
            e@ == entries_map(collections@),
            e.id_view() == id@,
            e.save_path_view() == match save_path {
                Some(p) => Some(p@),
                None => None::<Seq<char>>,
            },
    {
        let mut e = Engine { id, collections: Vec::new(), save_path };
        let ghost input = collections@;
        let total = collections.len();
        assert(input.len() == total);
        let mut k: usize = 0;
        for entry in it: collections.into_iter()
            invariant
                it.seq() == input,
                k == it.index(),
                input.len() <= usize::MAX,
                e@ == entries_map(input.take(k as int)),
                e.id_view() == id@,
                e.save_path_view() == match save_path {
                    Some(p) => Some(p@),
                    None => None::<Seq<char>>,
                },
        {
            let (name, collection) = entry;
            proof {
                assert(input.take(k + 1).drop_last() =~= input.take(k as int));
                assert(input.take(k + 1).last() == input[k as int]);
            }
            e.put(name, collection);
            assert(k < input.len());
            k = k + 1;
        }
        proof {
            assert(input.take(k as int) =~= input);
        }
        e
    }

    /// Puts `collection` under `name`, replacing any collection of that name.
    fn put(&mut self, name: String, collection: Collection<E>)
        ensures
            final(self)@ == old(self)@.insert(name@, collection),
            final(self).id_view() == old(self).id_view(),
            final(self).save_path_view() == old(self).save_path_view(),
    {
        match self.find(name.as_str()) {
            Some(i) => {
                let ghost before = self.collections@;
                let entry = &mut self.collections[i];
                entry.1 = collection;
                proof {
                    assert(self.collections@ == before.update(i as int, (before[i as int].0, collection)));
                    lemma_entries_update(before, i as int, collection);
                }
            },
            None => {
                let ghost before = self.collections@;
                self.collections.push((name, collection));
                proof {
                    assert(self.collections@.drop_last() =~= before);
                }
            },
        }
    }
}

/// Checks a path to load an engine from: an empty path is refused.
pub fn check_load_path(path: &str) -> (res: Result<(), EngineError>)
    ensures
        res is Ok <==> path@.len() > 0,
        res matches Err(e) ==> (e matches EngineError::EngineLoadFilePathNotFound(m) && m@ == "Save path not set"@),
{
    if path.is_empty() {
        return Err(EngineError::EngineLoadFilePathNotFound("Save path not set".to_string()));
    }
    Ok(())
}

/// `c` is an empty collection named `name` whose index type is the given one or `HNSW`.
pub open spec fn fresh_collection<E>(c: Collection<E>, name: Seq<char>, indexing_type: Option<&str>) -> bool {
    &&& c.name_view() == name
    &&& c.indexing_type_view() == match indexing_type {
        Some(t) => t@,
        None => "HNSW"@,
    }
    &&& c.records().len() == 0
    &&& c.entry() is None
    &&& c.top_layer() == 0
}

} // verus!
