use crate::codec::{blob_for, EncryptedBlobCodec};
use crate::crypto::AuthorizationKey;
use crate::errors::AegError;
use crate::jsonfmt::{
    chars_to_string, pair_views, parse_registry, parse_store, render_registry, render_store,
    ser_registry, ser_store, str_to_chars,
};
use crate::memory_engine::{
    cache_map, engines_unique, lemma_cache_map_absent, lemma_cache_map_get, lemma_cache_map_push,
    lemma_cache_map_remove, AegMemoryEngine,
};
use crate::saver::{start_spec, stop_spec, SaverAction, SaverState};
use vstd::prelude::*;
use vstd::string::StrSliceExecFns;
use vstd::utf8::{decode_utf8, encode_utf8, encode_utf8_decode_utf8, encode_utf8_valid_utf8, valid_utf8};

verus! {

/// The persisted registry record: which collections exist and which one
/// unqualified key-value operations target.
#[derive(Clone)]
pub struct CollectionLock {
    pub active: String,
    pub collections: Vec<String>,
}

/// The collection names, as character sequences.
pub open spec fn names_of(s: Seq<String>) -> Seq<Seq<char>> {
    s.map_values(|x: String| x@)
}

pub open spec fn strings_unique(s: Seq<String>) -> bool {
    forall|i: int, j: int| 0 <= i < j < s.len() ==> s[i]@ != s[j]@
}

pub open spec fn has_name(s: Seq<String>, k: Seq<char>) -> bool {
    exists|i: int| 0 <= i < s.len() && s[i]@ == k
}

/// The position of a name in a list with pairwise distinct names.
pub open spec fn name_index(s: Seq<String>, k: Seq<char>) -> int {
    choose|i: int| 0 <= i < s.len() && s[i]@ == k
}

/// The engine of the whole store: the collection registry, the shared
/// write-behind cache holding one in-memory store per collection touched
/// so far, and the background saver's lifecycle flags. Constructed once
/// at startup and passed explicitly; mutations of key-value state touch
/// only this value, never the disk. `Clone` gives the flusher its
/// point-in-time snapshot, taken under the lock and flushed outside it.
#[derive(Clone)]
pub struct AegCore {
    pub active_collection: String,
    pub collections: Vec<String>,
    pub cache: Vec<AegMemoryEngine>,
    pub saver: SaverState,
}

impl AegCore {
    /// Registry invariant: at least one collection, names pairwise
    /// distinct, and the active name among them.
    pub open spec fn registry_wf(&self) -> bool {
        &&& self.collections@.len() > 0
        &&& strings_unique(self.collections@)
        &&& has_name(self.collections@, self.active_collection@)
    }

    /// Cache invariant: one engine per name, each internally well-formed.
    pub open spec fn cache_wf(&self) -> bool {
        &&& engines_unique(self.cache@)
        &&& forall|i: int| 0 <= i < self.cache@.len() ==> self.cache@[i].wf()
    }

    pub open spec fn wf(&self) -> bool {
        self.registry_wf() && self.cache_wf()
    }

    pub open spec fn collection_names(&self) -> Seq<Seq<char>> {
        names_of(self.collections@)
    }

    /// The abstract content of the shared cache: collection name to entries.
    pub open spec fn stores(&self) -> Map<Seq<char>, Map<Seq<char>, Seq<char>>> {
        cache_map(self.cache@)
    }

    /// The entries a named collection currently holds: its cached store,
    /// or nothing if it was never touched.
    pub open spec fn entries_of(&self, name: Seq<char>) -> Map<Seq<char>, Seq<char>> {
        if self.stores().contains_key(name) {
            self.stores()[name]
        } else {
            Map::empty()
        }
    }

    /// The entries of the active collection.
    pub open spec fn active_entries(&self) -> Map<Seq<char>, Seq<char>> {
        self.entries_of(self.active_collection@)
    }

    /// Key-value operations leave the registry and the saver flags alone.
    pub open spec fn same_topology(&self, other: &AegCore) -> bool {
        &&& self.active_collection@ == other.active_collection@
        &&& names_of(self.collections@) == names_of(other.collections@)
        &&& self.saver == other.saver
    }

    /// A fresh store: the "default" collection exists and is active,
    /// nothing is cached, the saver was never started.
    pub fn new_default() -> (r: Self)
        ensures
            r.wf(),
            r.active_collection@ == "default"@,
            r.collection_names() =~= seq!["default"@],
            r.stores() =~= Map::<Seq<char>, Map<Seq<char>, Seq<char>>>::empty(),
            r.saver == SaverState::initial_spec(),
    {
        let active: String = "default".to_owned();
        let mut collections: Vec<String> = Vec::new();
        collections.push("default".to_owned());
        let r = AegCore {
            active_collection: active,
            collections,
            cache: Vec::new(),
            saver: SaverState::initial(),
        };
        proof {
            assert(r.collections@[0]@ == "default"@);
            assert(r.cache@.len() == 0);
            assert(r.collection_names() =~= seq!["default"@]);
        }
        r
    }

    /// Index of a collection name in the registry, if present.
    fn find_collection(&self, name: &str) -> (r: Option<usize>)
        ensures
            match r {
                Some(i) => i < self.collections@.len() && self.collections@[i as int]@ == name@,
                None => forall|i: int|
                    0 <= i < self.collections@.len() ==> self.collections@[i]@ != name@,
            },
    {
        let k = name.to_owned();
        let mut i: usize = 0;
        while i < self.collections.len()
            invariant
                i <= self.collections@.len(),
                k@ == name@,
                forall|j: int| 0 <= j < i ==> self.collections@[j]@ != name@,
            decreases self.collections@.len() - i,
        {
            if self.collections[i] == k {
                return Some(i);
            }
            i = i + 1;
        }
        None
    }

    /// Index of a collection's cached engine, if present.
    fn find_engine(&self, name: &str) -> (r: Option<usize>)
        ensures
            match r {
                Some(i) => i < self.cache@.len() && self.cache@[i as int].collection_name@ == name@,
                None => forall|i: int|
                    0 <= i < self.cache@.len() ==> self.cache@[i].collection_name@ != name@,
            },
    {
        let k = name.to_owned();
        let mut i: usize = 0;
        while i < self.cache.len()
            invariant
                i <= self.cache@.len(),
                k@ == name@,
                forall|j: int| 0 <= j < i ==> self.cache@[j].collection_name@ != name@,
            decreases self.cache@.len() - i,
        {
            if self.cache[i].collection_name == k {
                return Some(i);
            }
            i = i + 1;
        }
        None
    }

    /// Whether a collection's store is already cached; when it is not,
    /// the caller should read the collection's file and `install_store` it.
    pub fn has_cached_store(&self, name: &str) -> (r: bool)
        requires
            self.wf(),
        ensures
            r == self.stores().contains_key(name@),
    {
        match self.find_engine(name) {
            Some(i) => {
                proof {
                    lemma_cache_map_get(self.cache@, i as int);
                }
                true
            },
            None => {
                proof {
                    lemma_cache_map_absent(self.cache@, name@);
                }
                false
            },
        }
    }

    /// All collection names, in registry order.
    pub fn list_collections(&self) -> (r: Vec<String>)
        ensures
            r@ =~= self.collections@,
    {
        let mut r: Vec<String> = Vec::new();
        let mut i: usize = 0;
        while i < self.collections.len()
            invariant
                i <= self.collections@.len(),
                r@ =~= self.collections@.subrange(0, i as int),
            decreases self.collections@.len() - i,
        {
            r.push(self.collections[i].clone());
            proof {
                assert(r@ =~= self.collections@.subrange(0, i + 1 as int));
            }
            i = i + 1;
        }
        proof {
            assert(self.collections@.subrange(0, self.collections@.len() as int)
                =~= self.collections@);
        }
        r
    }

    /// The name of the collection unqualified operations target.
    pub fn get_active_collection(&self) -> (r: &str)
        ensures
            r@ == self.active_collection@,
    {
        self.active_collection.as_str()
    }

    /// Make `name` the active collection. Fails, changing nothing, when
    /// `name` is not a registered collection.
    pub fn set_active_collection(&mut self, name: &str) -> (r: Result<(), AegError>)
        requires
            old(self).wf(),
        ensures
            final(self).wf(),
            r is Ok <==> has_name(old(self).collections@, name@),
            r is Err ==> *final(self) == *old(self) && r == Err::<(), AegError>(
                AegError::CollectionNotFound,
            ),
            r is Ok ==> final(self).active_collection@ == name@ && final(self).collections@ == old(self).collections@ && final(self).cache@ == old(self).cache@ && final(self).saver == old(self).saver,
    {
        match self.find_collection(name) {
            Some(_i) => {
                self.active_collection = name.to_owned();
                Ok(())
            },
            None => Err(AegError::CollectionNotFound),
        }
    }

    /// Register a new collection. Fails, changing nothing, when the name
    /// is already registered; the new collection is not activated.
    pub fn create_collection(&mut self, name: &str) -> (r: Result<(), AegError>)
        requires
            old(self).wf(),
        ensures
            final(self).wf(),
            r is Ok <==> !has_name(old(self).collections@, name@),
            r is Err ==> *final(self) == *old(self) && r == Err::<(), AegError>(
                AegError::CollectionAlreadyExists,
            ),
            r is Ok ==> names_of(final(self).collections@) =~= names_of(
                old(self).collections@,
            ).push(name@) && final(self).active_collection@ == old(self).active_collection@
                && final(self).cache@ == old(self).cache@ && final(self).saver == old(self).saver,
    {
        match self.find_collection(name) {
            Some(_i) => Err(AegError::CollectionAlreadyExists),
            None => {
                let ghost old_cols = self.collections@;
                self.collections.push(name.to_owned());
                proof {
                    assert(names_of(self.collections@) =~= names_of(old_cols).push(name@));
                    let j = choose|j: int|
                        0 <= j < old_cols.len() && old_cols[j]@ == self.active_collection@;
                    assert(self.collections@[j]@ == self.active_collection@);
                }
                Ok(())
            },
        }
    }

    /// Remove a collection. Fails, changing nothing, when it is the last
    /// one or when the name is unknown. When the removed collection was
    /// active, the first remaining collection becomes active.
    pub fn delete_collection(&mut self, name: &str) -> (r: Result<(), AegError>)
        requires
            old(self).wf(),
        ensures
            final(self).wf(),
            r is Err ==> *final(self) == *old(self),
            r == Err::<(), AegError>(AegError::CannotDeleteLastCollection) <==> old(self).collections@.len() == 1,
            old(self).collections@.len() > 1 ==> (r is Ok <==> has_name(
                old(self).collections@,
                name@,
            )),
            old(self).collections@.len() > 1 && !has_name(old(self).collections@, name@) ==> r
                == Err::<(), AegError>(AegError::CollectionNotFound),
            r is Ok ==> names_of(final(self).collections@) =~= names_of(
                old(self).collections@,
            ).remove(name_index(old(self).collections@, name@)) && final(self).active_collection@
                == (if old(self).active_collection@ == name@ {
                names_of(final(self).collections@)[0]
            } else {
                old(self).active_collection@
            }) && final(self).cache@ == old(self).cache@ && final(self).saver == old(self).saver,
    {
        if self.collections.len() == 1 {
            return Err(AegError::CannotDeleteLastCollection);
        }
        match self.find_collection(name) {
            None => Err(AegError::CollectionNotFound),
            Some(i) => {
                let ghost old_cols = self.collections@;
                let was_active = self.active_collection == self.collections[i];
                self.collections.remove(i);
                proof {
                    assert(name_index(old_cols, name@) == i) by {
                        let j = name_index(old_cols, name@);
                        assert(0 <= j < old_cols.len() && old_cols[j]@ == name@);
                    }
                    assert(names_of(self.collections@) =~= names_of(old_cols).remove(i as int));
                    assert forall|a: int, b: int|
                        0 <= a < b < self.collections@.len() implies self.collections@[a]@
                        != self.collections@[b]@ by {
                        assert(self.collections@[a] == if a < i {
                            old_cols[a]
                        } else {
                            old_cols[a + 1]
                        });
                        assert(self.collections@[b] == if b < i {
                            old_cols[b]
                        } else {
                            old_cols[b + 1]
                        });
                    }
                }
                if was_active {
                    self.active_collection = self.collections[0].clone();
                    proof {
                        assert(has_name(self.collections@, self.active_collection@)) by {
                            assert(self.collections@[0]@ == self.active_collection@);
                        }
                    }
                } else {
                    proof {
                        let j = choose|j: int|
                            0 <= j < old_cols.len() && old_cols[j]@ == self.active_collection@;
                        assert(j != i);
                        if j < i {
                            assert(self.collections@[j]@ == self.active_collection@);
                        } else {
                            assert(self.collections@[j - 1]@ == self.active_collection@);
                        }
                    }
                }
                Ok(())
            },
        }
    }

    /// Rename a collection in place, keeping its position. Fails, changing
    /// nothing, when the new name is taken or the old one is unknown. When
    /// the renamed collection was active, the active pointer follows it;
    /// its cached store, if any, moves with it, so its data stays reachable
    /// under the new name.
    pub fn rename_collection(&mut self, name: &str, new_name: &str) -> (r: Result<(), AegError>)
        requires
            old(self).wf(),
        ensures
            final(self).wf(),
            r is Err ==> *final(self) == *old(self),
            r == Err::<(), AegError>(AegError::CollectionAlreadyExists) <==> has_name(
                old(self).collections@,
                new_name@,
            ),
            !has_name(old(self).collections@, new_name@) ==> (r is Ok <==> has_name(
                old(self).collections@,
                name@,
            )),
            !has_name(old(self).collections@, new_name@) && !has_name(
                old(self).collections@,
                name@,
            ) ==> r == Err::<(), AegError>(AegError::CollectionNotFound),
            r is Ok ==> names_of(final(self).collections@) =~= names_of(
                old(self).collections@,
            ).update(name_index(old(self).collections@, name@), new_name@) && final(self).active_collection@ == (if old(self).active_collection@ == name@ {
                new_name@
            } else {
                old(self).active_collection@
            }) && final(self).saver == old(self).saver,
            r is Ok ==> final(self).stores() =~= (if old(self).stores().contains_key(name@) {
                old(self).stores().remove(name@).remove(new_name@).insert(
                    new_name@,
                    old(self).stores()[name@],
                )
            } else {
                old(self).stores().remove(new_name@)
            }),
    {
        match self.find_collection(new_name) {
            Some(_j) => {
                return Err(AegError::CollectionAlreadyExists);
            },
            None => {},
        }
        match self.find_collection(name) {
            None => Err(AegError::CollectionNotFound),
            Some(i) => {
                let ghost old_cols = self.collections@;
                let was_active = self.active_collection == self.collections[i];
                self.collections[i] = new_name.to_owned();
                proof {
                    assert(name_index(old_cols, name@) == i) by {
                        let j = name_index(old_cols, name@);
                        assert(0 <= j < old_cols.len() && old_cols[j]@ == name@);
                    }
                    assert(names_of(self.collections@) =~= names_of(old_cols).update(
                        i as int,
                        new_name@,
                    ));
                    assert forall|a: int, b: int|
                        0 <= a < b < self.collections@.len() implies self.collections@[a]@
                        != self.collections@[b]@ by {
                        if a != i && b != i {
                            assert(old_cols[a]@ != old_cols[b]@);
                        }
                    }
                }
                if was_active {
                    self.active_collection = new_name.to_owned();
                } else {
                    proof {
                        let j = choose|j: int|
                            0 <= j < old_cols.len() && old_cols[j]@ == self.active_collection@;
                        assert(j != i);
                        assert(self.collections@[j]@ == self.active_collection@);
                    }
                }
                proof {
                    assert(old_cols[i as int]@ == name@);
                }
                self.rename_cached_store(name, new_name);
                Ok(())
            },
        }
    }

    /// Move a cached store from one collection name to another, dropping
    /// any stale store cached under the target name.
    fn rename_cached_store(&mut self, name: &str, new_name: &str)
        requires
            old(self).cache_wf(),
            name@ != new_name@,
        ensures
            final(self).cache_wf(),
            final(self).active_collection == old(self).active_collection,
            final(self).collections == old(self).collections,
            final(self).saver == old(self).saver,
            final(self).stores() =~= (if old(self).stores().contains_key(name@) {
                old(self).stores().remove(name@).remove(new_name@).insert(
                    new_name@,
                    old(self).stores()[name@],
                )
            } else {
                old(self).stores().remove(new_name@)
            }),
    {
        let ghost pre = self.cache@;
        match self.find_engine(new_name) {
            Some(j) => {
                proof {
                    lemma_cache_map_remove(self.cache@, j as int);
                }
                self.cache.remove(j);
            },
            None => {
                proof {
                    lemma_cache_map_absent(self.cache@, new_name@);
                    assert(cache_map(self.cache@) =~= cache_map(pre).remove(new_name@));
                }
            },
        }
        let ghost mid = self.cache@;
        proof {
            assert(cache_map(mid) =~= cache_map(pre).remove(new_name@));
            assert forall|i: int| 0 <= i < mid.len() implies mid[i].collection_name@
                != new_name@ by {
                if mid[i].collection_name@ == new_name@ {
                    lemma_cache_map_get(mid, i);
                }
            }
        }
        match self.find_engine(name) {
            Some(j) => {
                proof {
                    lemma_cache_map_get(self.cache@, j as int);
                    lemma_cache_map_remove(self.cache@, j as int);
                }
                let mut e = self.cache.remove(j);
                e.collection_name = new_name.to_owned();
                proof {
                    lemma_cache_map_push(self.cache@, e);
                }
                self.cache.push(e);
                proof {
                    assert(cache_map(self.cache@) =~= cache_map(mid).remove(name@).insert(
                        new_name@,
                        cache_map(mid)[name@],
                    ));
                    assert(cache_map(pre).contains_key(name@));
                    assert(cache_map(self.cache@) =~= cache_map(pre).remove(name@).remove(
                        new_name@,
                    ).insert(new_name@, cache_map(pre)[name@]));
                }
            },
            None => {
                proof {
                    lemma_cache_map_absent(self.cache@, name@);
                    assert(!cache_map(pre).contains_key(name@));
                    assert(cache_map(self.cache@) =~= cache_map(pre).remove(new_name@));
                }
            },
        }
    }
}

impl AegCore {
    /// Store `value` under `key` in the active collection. Memory only:
    /// the write becomes durable at the next flush. A collection touched
    /// for the first time gets a fresh cached store.
    pub fn put_value(&mut self, key: &str, value: &str)
        requires
            old(self).wf(),
        ensures
            final(self).wf(),
            final(self).same_topology(old(self)),
            final(self).stores() =~= old(self).stores().insert(
                old(self).active_collection@,
                old(self).active_entries().insert(key@, value@),
            ),
    {
        let active = self.active_collection.clone();
        match self.find_engine(active.as_str()) {
            Some(i) => {
                proof {
                    lemma_cache_map_get(self.cache@, i as int);
                    lemma_cache_map_remove(self.cache@, i as int);
                }
                let mut e = self.cache.remove(i);
                e.insert(key, value);
                proof {
                    lemma_cache_map_push(self.cache@, e);
                }
                self.cache.push(e);
            },
            None => {
                proof {
                    lemma_cache_map_absent(self.cache@, active@);
                }
                let mut e = AegMemoryEngine::new(active.as_str());
                e.insert(key, value);
                proof {
                    lemma_cache_map_push(self.cache@, e);
                }
                self.cache.push(e);
            },
        }
    }

    /// The value stored under `key` in the active collection, if any.
    /// Read-only: the cache is not touched.
    pub fn get_value(&self, key: &str) -> (r: Option<String>)
        requires
            self.wf(),
        ensures
            r is Some <==> self.active_entries().contains_key(key@),
            r is Some ==> r->0@ == self.active_entries()[key@],
    {
        match self.find_engine(self.active_collection.as_str()) {
            Some(i) => {
                proof {
                    lemma_cache_map_get(self.cache@, i as int);
                }
                self.cache[i].get(key)
            },
            None => {
                proof {
                    lemma_cache_map_absent(self.cache@, self.active_collection@);
                }
                None
            },
        }
    }

    /// Remove `key` from the active collection, reporting whether it was
    /// present. Memory only.
    pub fn delete_value(&mut self, key: &str) -> (existed: bool)
        requires
            old(self).wf(),
        ensures
            final(self).wf(),
            final(self).same_topology(old(self)),
            existed == old(self).active_entries().contains_key(key@),
            final(self).stores() =~= (if old(self).stores().contains_key(
                old(self).active_collection@,
            ) {
                old(self).stores().insert(
                    old(self).active_collection@,
                    old(self).active_entries().remove(key@),
                )
            } else {
                old(self).stores()
            }),
    {
        let active = self.active_collection.clone();
        match self.find_engine(active.as_str()) {
            Some(i) => {
                proof {
                    lemma_cache_map_get(self.cache@, i as int);
                    lemma_cache_map_remove(self.cache@, i as int);
                }
                let mut e = self.cache.remove(i);
                let existed = e.delete(key);
                proof {
                    lemma_cache_map_push(self.cache@, e);
                }
                self.cache.push(e);
                existed
            },
            None => {
                proof {
                    lemma_cache_map_absent(self.cache@, active@);
                }
                false
            },
        }
    }

    /// Drop every entry of the active collection. Memory only. A collection
    /// never touched before ends up cached with an empty store.
    pub fn clear_values(&mut self)
        requires
            old(self).wf(),
        ensures
            final(self).wf(),
            final(self).same_topology(old(self)),
            final(self).stores() =~= old(self).stores().insert(
                old(self).active_collection@,
                Map::<Seq<char>, Seq<char>>::empty(),
            ),
    {
        let active = self.active_collection.clone();
        match self.find_engine(active.as_str()) {
            Some(i) => {
                proof {
                    lemma_cache_map_get(self.cache@, i as int);
                    lemma_cache_map_remove(self.cache@, i as int);
                }
                let mut e = self.cache.remove(i);
                e.clear();
                proof {
                    lemma_cache_map_push(self.cache@, e);
                }
                self.cache.push(e);
            },
            None => {
                proof {
                    lemma_cache_map_absent(self.cache@, active@);
                }
                let e = AegMemoryEngine::new(active.as_str());
                proof {
                    lemma_cache_map_push(self.cache@, e);
                }
                self.cache.push(e);
            },
        }
    }

    /// Mark the background saver started; the returned action tells the
    /// caller whether to spawn the periodic loop. Idempotent.
    pub fn start_background_saver(&mut self, interval_seconds: u64) -> (a: SaverAction)
        ensures
            (final(self).saver, a) == start_spec(old(self).saver, interval_seconds),
            final(self).active_collection == old(self).active_collection,
            final(self).collections == old(self).collections,
            final(self).cache == old(self).cache,
    {
        self.saver.start(interval_seconds)
    }

    /// Signal the background saver to stop; returns immediately.
    pub fn stop_background_saver(&mut self)
        ensures
            final(self).saver == stop_spec(old(self).saver),
            final(self).active_collection == old(self).active_collection,
            final(self).collections == old(self).collections,
            final(self).cache == old(self).cache,
    {
        self.saver.stop()
    }
}

/// Law: after `put_value(k, v)` on some store state, the active collection's
/// entries hold `v` under `k`, so `get_value(k)` returns `v`.
pub proof fn lemma_put_then_get(pre: AegCore, post: AegCore, k: Seq<char>, v: Seq<char>)
    requires
        post.active_collection@ == pre.active_collection@,
        post.stores() == pre.stores().insert(
            pre.active_collection@,
            pre.active_entries().insert(k, v),
        ),
    ensures
        post.active_entries().contains_key(k),
        post.active_entries()[k] == v,
{
}

/// Law: after `delete_value(k)`, the active collection's entries no longer
/// hold `k`, so `get_value(k)` reports absence.
pub proof fn lemma_delete_then_get(pre: AegCore, post: AegCore, k: Seq<char>)
    requires
        post.active_collection@ == pre.active_collection@,
        post.stores() == (if pre.stores().contains_key(pre.active_collection@) {
            pre.stores().insert(pre.active_collection@, pre.active_entries().remove(k))
        } else {
            pre.stores()
        }),
    ensures
        !post.active_entries().contains_key(k),
{
}

/// Law: after `clear_values()`, the active collection's entries hold no key
/// at all, previously stored or not.
pub proof fn lemma_clear_then_get(pre: AegCore, post: AegCore, k: Seq<char>)
    requires
        post.active_collection@ == pre.active_collection@,
        post.stores() == pre.stores().insert(
            pre.active_collection@,
            Map::<Seq<char>, Seq<char>>::empty(),
        ),
    ensures
        !post.active_entries().contains_key(k),
{
}

/// Law: renaming a collection keeps its data reachable under the new
/// name — the entries found under the new name afterwards are exactly
/// the entries the old name held before.
pub proof fn lemma_rename_preserves_data(
    pre: AegCore,
    post: AegCore,
    name: Seq<char>,
    new_name: Seq<char>,
)
    requires
        pre.stores().contains_key(name),
        post.stores() == pre.stores().remove(name).remove(new_name).insert(
            new_name,
            pre.stores()[name],
        ),
    ensures
        post.entries_of(new_name) == pre.entries_of(name),
{
}

/// Law: a write to the active collection leaves every other collection's
/// entries untouched, so a key written in one collection is invisible while
/// another is active and reappears unchanged when switching back.
pub proof fn lemma_collection_isolation(
    pre: AegCore,
    post: AegCore,
    k: Seq<char>,
    v: Seq<char>,
    other: Seq<char>,
)
    requires
        other != pre.active_collection@,
        post.stores() == pre.stores().insert(
            pre.active_collection@,
            pre.active_entries().insert(k, v),
        ),
    ensures
        post.entries_of(other) == pre.entries_of(other),
{
}

/// Relies on std's `String::from_utf8`: it succeeds exactly on valid
/// UTF-8 and then returns the string holding those bytes.
#[verifier::external_body]
fn bytes_to_string(v: Vec<u8>) -> (r: Option<String>)
    ensures
        r is Some <==> valid_utf8(v@),
        r is Some ==> r->0@ == decode_utf8(v@),
{
    String::from_utf8(v).ok()
}

/// The UTF-8 bytes of the registry document: what the registry blob encrypts.
pub open spec fn registry_payload(active: Seq<char>, cols: Seq<Seq<char>>) -> Seq<u8> {
    encode_utf8(ser_registry(active, cols))
}

/// The UTF-8 bytes of a store document: what a collection blob encrypts.
pub open spec fn store_payload(name: Seq<char>, entries: Seq<(Seq<char>, Seq<char>)>) -> Seq<u8> {
    encode_utf8(ser_store(name, entries))
}

/// The file a collection's store is persisted in, derived from its name.
pub open spec fn store_file_name_spec(name: Seq<char>) -> Seq<char> {
    "collection_"@ + name + ".aekv"@
}

/// The keys of rendered entry pairs are pairwise distinct.
pub open spec fn entry_keys_unique(entries: Seq<(Seq<char>, Seq<char>)>) -> bool {
    forall|i: int, j: int| 0 <= i < j < entries.len() ==> entries[i].0 != entries[j].0
}

/// The map denoted by rendered entry pairs.
pub open spec fn entries_map_of(entries: Seq<(Seq<char>, Seq<char>)>) -> Map<Seq<char>, Seq<char>>
    decreases entries.len(),
{
    if entries.len() == 0 {
        Map::empty()
    } else {
        entries_map_of(entries.drop_last()).insert(entries.last().0, entries.last().1)
    }
}

/// Law: durability of a flushed store. The entries a store document
/// denotes are exactly the store's own map, so a store flushed by
/// `save_to_disk` and rebuilt by `AegMemoryEngine::load` from the blob
/// holds exactly what was flushed.
pub proof fn lemma_store_payload_round_trip(s: Seq<(String, String)>)
    ensures
        entries_map_of(pair_views(s)) == crate::memory_engine::map_of_pairs(s),
        crate::memory_engine::pairs_unique(s) <==> entry_keys_unique(pair_views(s)),
    decreases s.len(),
{
    if s.len() > 0 {
        lemma_store_payload_round_trip(s.drop_last());
        assert(pair_views(s).drop_last() =~= pair_views(s.drop_last()));
        assert(pair_views(s).last() == (s.last().0@, s.last().1@));
    }
    assert(crate::memory_engine::pairs_unique(s) <==> entry_keys_unique(pair_views(s))) by {
        if entry_keys_unique(pair_views(s)) {
            assert forall|i: int, j: int| 0 <= i < j < s.len() implies s[i].0@ != s[j].0@ by {
                assert(pair_views(s)[i].0 == s[i].0@ && pair_views(s)[j].0 == s[j].0@);
            }
        }
        if crate::memory_engine::pairs_unique(s) {
            assert forall|i: int, j: int|
                0 <= i < j < pair_views(s).len() implies pair_views(s)[i].0 != pair_views(
                s,
            )[j].0 by {
                assert(pair_views(s)[i].0 == s[i].0@ && pair_views(s)[j].0 == s[j].0@);
            }
        }
    }
}

/// No key occurs twice among these entries.
fn keys_unique_exec(v: &Vec<(String, String)>) -> (r: bool)
    ensures
        r == crate::memory_engine::pairs_unique(v@),
{
    let mut i: usize = 0;
    while i < v.len()
        invariant
            i <= v@.len(),
            forall|a: int, b: int| 0 <= a < b < v@.len() && a < i ==> v@[a].0@ != v@[b].0@,
        decreases v@.len() - i,
    {
        let mut j: usize = i + 1;
        while j < v.len()
            invariant
                i < j <= v@.len() || (i >= v@.len() - 1 && j == i + 1),
                i < v@.len(),
                forall|b: int| i < b < j ==> v@[i as int].0@ != v@[b].0@,
            decreases v@.len() - j,
        {
            if v[i].0 == v[j].0 {
                return false;
            }
            j = j + 1;
        }
        i = i + 1;
    }
    true
}

impl AegMemoryEngine {
    /// The file this collection's store is persisted in.
    pub fn engine_file_name(collection_name: &str) -> (r: String)
        ensures
            r@ == store_file_name_spec(collection_name@),
    {
        let mut r: String = "collection_".to_owned();
        r.append(collection_name);
        r.append(".aekv");
        r
    }

    /// Serialize and encrypt one collection's store. The caller writes
    /// the returned blob to the returned file; nothing here touches disk.
    /// Fails only when the randomness source fails or the rendered
    /// document exceeds the cipher's length bound.
    pub fn save_to_disk(&self, key: &AuthorizationKey) -> (r: Result<(String, String), AegError>)
        requires
            self.wf(),
            key.wf(),
        ensures
            r is Ok ==> (r->Ok_0).0@ == store_file_name_spec(self.collection_name@),
            r is Ok ==> blob_for(
                (r->Ok_0).1@,
                key.bytes@,
                store_payload(self.collection_name@, pair_views(self.store@)),
            ),
            r is Err ==> r->Err_0 == AegError::Encryption,
    {
        let json = render_store(self.collection_name.as_str(), &self.store);
        let bytes = json.as_str().as_bytes_vec();
        let blob = EncryptedBlobCodec::encode(&bytes, key)?;
        Ok((Self::engine_file_name(self.collection_name.as_str()), blob))
    }

    /// Reconstruct a collection's store from its persisted blob. A missing
    /// file, a corrupted or inauthentic blob and a malformed payload all
    /// degrade to a fresh empty store rather than failing the caller; a
    /// blob that encrypts a rendered store document yields exactly the
    /// entries that were rendered.
    pub fn load(collection_name: &str, blob: Option<&String>, key: &AuthorizationKey) -> (r:
        AegMemoryEngine)
        requires
            key.wf(),
        ensures
            r.wf(),
            r.collection_name@ == collection_name@,
            blob is None ==> r@ == Map::<Seq<char>, Seq<char>>::empty(),
            forall|name: Seq<char>, entries: Seq<(Seq<char>, Seq<char>)>|
                blob is Some && blob_for(
                    blob->0@,
                    key.bytes@,
                    #[trigger] store_payload(name, entries),
                ) && entry_keys_unique(entries) ==> r@ == entries_map_of(entries),
    {
        let b = match blob {
            None => {
                return AegMemoryEngine::new(collection_name);
            },
            Some(b) => b,
        };
        let payload = match EncryptedBlobCodec::decode(b.as_str(), key) {
            Ok(p) => p,
            Err(_) => {
                return AegMemoryEngine::new(collection_name);
            },
        };
        let text = match bytes_to_string(payload) {
            Some(t) => t,
            None => {
                proof {
                    assert forall|name: Seq<char>, entries: Seq<(Seq<char>, Seq<char>)>|
                        !(blob_for(
                            b@,
                            key.bytes@,
                            #[trigger] store_payload(name, entries),
                        )) by {
                        if blob_for(b@, key.bytes@, store_payload(name, entries)) {
                            encode_utf8_valid_utf8(ser_store(name, entries));
                        }
                    }
                }
                return AegMemoryEngine::new(collection_name);
            },
        };
        let parsed = match parse_store(text.as_str()) {
            Some(p) => p,
            None => {
                proof {
                    assert forall|name: Seq<char>, entries: Seq<(Seq<char>, Seq<char>)>|
                        !(blob_for(
                            b@,
                            key.bytes@,
                            #[trigger] store_payload(name, entries),
                        )) by {
                        if blob_for(b@, key.bytes@, store_payload(name, entries)) {
                            encode_utf8_decode_utf8(ser_store(name, entries));
                        }
                    }
                }
                return AegMemoryEngine::new(collection_name);
            },
        };
        let (_stored_name, entries) = parsed;
        if keys_unique_exec(&entries) {
            let r = AegMemoryEngine { store: entries, collection_name: collection_name.to_owned() };
            proof {
                lemma_store_payload_round_trip(r.store@);
                assert forall|name: Seq<char>, entries2: Seq<(Seq<char>, Seq<char>)>|
                    blob_for(b@, key.bytes@, #[trigger] store_payload(name, entries2))
                        && entry_keys_unique(entries2) implies r@ == entries_map_of(entries2) by {
                    encode_utf8_decode_utf8(ser_store(name, entries2));
                }
            }
            r
        } else {
            proof {
                lemma_store_payload_round_trip(entries@);
                assert forall|name: Seq<char>, entries2: Seq<(Seq<char>, Seq<char>)>|
                    !(blob_for(b@, key.bytes@, #[trigger] store_payload(name, entries2))
                        && entry_keys_unique(entries2)) by {
                    if blob_for(b@, key.bytes@, store_payload(name, entries2))
                        && entry_keys_unique(entries2) {
                        encode_utf8_decode_utf8(ser_store(name, entries2));
                    }
                }
            }
            AegMemoryEngine::new(collection_name)
        }
    }
}

/// The registry record's invariants, over views: at least one collection,
/// names pairwise distinct, the active name among them.
pub open spec fn registry_views_valid(a: Seq<char>, cols: Seq<Seq<char>>) -> bool {
    &&& cols.len() > 0
    &&& forall|i: int, j: int| 0 <= i < j < cols.len() ==> cols[i] != cols[j]
    &&& exists|i: int| 0 <= i < cols.len() && cols[i] == a
}

/// Whether `name` occurs in the list.
fn vec_contains_name(v: &Vec<String>, name: &String) -> (r: bool)
    ensures
        r == has_name(v@, name@),
{
    let mut i: usize = 0;
    while i < v.len()
        invariant
            i <= v@.len(),
            forall|j: int| 0 <= j < i ==> v@[j]@ != name@,
        decreases v@.len() - i,
    {
        if v[i] == *name {
            return true;
        }
        i = i + 1;
    }
    false
}

/// Whether a parsed registry record satisfies the registry invariants.
fn registry_record_valid(lock: &CollectionLock) -> (r: bool)
    ensures
        r == (lock.collections@.len() > 0 && strings_unique(lock.collections@) && has_name(
            lock.collections@,
            lock.active@,
        )),
{
    if lock.collections.len() == 0 {
        return false;
    }
    let mut i: usize = 0;
    while i < lock.collections.len()
        invariant
            i <= lock.collections@.len(),
            forall|a: int, b: int|
                0 <= a < b < lock.collections@.len() && a < i ==> lock.collections@[a]@
                    != lock.collections@[b]@,
        decreases lock.collections@.len() - i,
    {
        let mut j: usize = i + 1;
        while j < lock.collections.len()
            invariant
                i < j <= lock.collections@.len() || (i >= lock.collections@.len() - 1 && j == i
                    + 1),
                i < lock.collections@.len(),
                forall|b: int|
                    i < b < j ==> lock.collections@[i as int]@ != lock.collections@[b]@,
            decreases lock.collections@.len() - j,
        {
            if lock.collections[i] == lock.collections[j] {
                return false;
            }
            j = j + 1;
        }
        i = i + 1;
    }
    vec_contains_name(&lock.collections, &lock.active)
}

/// Repair a parsed registry record that breaks the registry invariants:
/// duplicate names are dropped (first occurrence kept), an empty list
/// gains the "default" collection, and an unknown active name falls back
/// to the first collection. A record that already satisfies the
/// invariants passes through with its names and active pointer intact.
fn normalize_record(lock: CollectionLock) -> (r: AegCore)
    ensures
        r.wf(),
        r.stores() =~= Map::<Seq<char>, Map<Seq<char>, Seq<char>>>::empty(),
        r.saver == SaverState::initial_spec(),
        lock.collections@.len() > 0 && strings_unique(lock.collections@) ==> names_of(
            r.collections@,
        ) =~= names_of(lock.collections@),
        has_name(lock.collections@, lock.active@) && strings_unique(lock.collections@)
            && lock.collections@.len() > 0 ==> r.active_collection@ == lock.active@,
        forall|k: Seq<char>| has_name(lock.collections@, k) ==> has_name(r.collections@, k),
{
    let CollectionLock { active, collections } = lock;
    let mut cols: Vec<String> = Vec::new();
    let mut i: usize = 0;
    while i < collections.len()
        invariant
            i <= collections@.len(),
            strings_unique(cols@),
            forall|j: int| 0 <= j < i ==> has_name(cols@, collections@[j]@),
            forall|j: int|
                0 <= j < cols@.len() ==> exists|m: int|
                    0 <= m < i && collections@[m]@ == #[trigger] cols@[j]@,
            strings_unique(collections@) ==> cols@.len() == i,
            strings_unique(collections@) ==> (forall|j: int|
                0 <= j < i ==> cols@[j]@ == collections@[j]@),
        decreases collections@.len() - i,
    {
        let ghost pre = cols@;
        if !vec_contains_name(&cols, &collections[i]) {
            cols.push(collections[i].clone());
            proof {
                assert forall|a: int, b: int| 0 <= a < b < cols@.len() implies cols@[a]@
                    != cols@[b]@ by {
                    if b == pre.len() as int {
                        assert(cols@[a]@ != cols@[b]@);
                    }
                }
                assert forall|j: int| 0 <= j < i + 1 implies has_name(
                    cols@,
                    collections@[j]@,
                ) by {
                    if j < i {
                        let w = choose|w: int| 0 <= w < pre.len() && pre[w]@ == collections@[j]@;
                        assert(cols@[w]@ == collections@[j]@);
                    } else {
                        assert(cols@[pre.len() as int]@ == collections@[i as int]@);
                    }
                }
            }
        } else {
            proof {
                assert forall|j: int| 0 <= j < i + 1 implies has_name(
                    cols@,
                    collections@[j]@,
                ) by {
                    if j < i {
                        assert(has_name(pre, collections@[j]@));
                    }
                }
                if strings_unique(collections@) {
                    let w = choose|w: int| 0 <= w < cols@.len() && cols@[w]@ == collections@[i as int]@;
                    let m = choose|m: int| 0 <= m < i && collections@[m]@ == cols@[w]@;
                    assert(collections@[m]@ == collections@[i as int]@);
                    assert(false);
                }
            }
        }
        i = i + 1;
    }
    let ghost deduped = cols@;
    if cols.len() == 0 {
        cols.push("default".to_owned());
        proof {
            assert(strings_unique(cols@));
        }
    }
    let act: String = if vec_contains_name(&cols, &active) {
        active
    } else {
        cols[0].clone()
    };
    let r = AegCore {
        active_collection: act,
        collections: cols,
        cache: Vec::new(),
        saver: SaverState::initial(),
    };
    proof {
        assert(has_name(r.collections@, r.active_collection@)) by {
            if !has_name(r.collections@, r.active_collection@) {
                assert(r.collections@[0]@ == r.active_collection@);
            }
        }
        assert(r.cache@.len() == 0);
        if collections@.len() > 0 && strings_unique(collections@) {
            assert(deduped.len() == collections@.len());
            assert(r.collections@ == deduped);
            assert(names_of(r.collections@) =~= names_of(collections@));
        }
        if has_name(collections@, active@) && strings_unique(collections@)
            && collections@.len() > 0 {
            let j = choose|j: int| 0 <= j < collections@.len() && collections@[j]@ == active@;
            assert(r.collections@[j]@ == active@);
            assert(has_name(r.collections@, active@));
        }
        assert forall|k: Seq<char>| has_name(collections@, k) implies has_name(
            r.collections@,
            k,
        ) by {
            let j = choose|j: int| 0 <= j < collections@.len() && collections@[j]@ == k;
            assert(has_name(deduped, collections@[j]@));
            if deduped.len() == 0 {
            } else {
                let w = choose|w: int| 0 <= w < deduped.len() && deduped[w]@ == k;
                assert(r.collections@[w]@ == k);
            }
        }
    }
    r
}

/// The characters the legacy migration strips as whitespace.
pub open spec fn is_ws_char(c: char) -> bool {
    c == ' ' || c == '\t' || c == '\n' || c == '\r'
}

/// Whether the legacy migration strips `c` at this stage: quotes at the
/// quote stage, whitespace otherwise.
pub open spec fn strip_match(c: char, quote: bool) -> bool {
    if quote {
        c == '"'
    } else {
        is_ws_char(c)
    }
}

/// Drop every leading character the stage strips.
pub open spec fn trim_front(s: Seq<char>, quote: bool) -> Seq<char>
    decreases s.len(),
{
    if s.len() > 0 && strip_match(s[0], quote) {
        trim_front(s.drop_first(), quote)
    } else {
        s
    }
}

/// Drop every trailing character the stage strips.
pub open spec fn trim_back(s: Seq<char>, quote: bool) -> Seq<char>
    decreases s.len(),
{
    if s.len() > 0 && strip_match(s.last(), quote) {
        trim_back(s.drop_last(), quote)
    } else {
        s
    }
}

/// The collection name a legacy registry payload denotes: the text with
/// surrounding whitespace stripped, then surrounding quotes stripped.
pub open spec fn legacy_name_of(s: Seq<char>) -> Seq<char> {
    trim_back(trim_front(trim_back(trim_front(s, false), false), true), true)
}

impl AegCore {
    /// Explicit migration of a legacy registry file whose decrypted
    /// payload is not a canonical registry document: earlier layouts
    /// stored only the collection name, possibly quoted. The trimmed,
    /// unquoted text becomes the single, active collection; the caller
    /// should re-persist the migrated record.
    pub fn migrate_legacy_record(text: &str) -> (r: AegCore)
        ensures
            r.wf(),
            r.stores() =~= Map::<Seq<char>, Map<Seq<char>, Seq<char>>>::empty(),
            r.saver == SaverState::initial_spec(),
            r.active_collection@ == legacy_name_of(text@),
            r.collection_names() =~= seq![r.active_collection@],
    {
        let chars = str_to_chars(text);
        let ghost s = chars@;
        let n = chars.len();
        let mut start: usize = 0;
        let mut end: usize = n;
        proof {
            assert(s.subrange(0, n as int) =~= s);
        }
        while start < end && (chars[start] == ' ' || chars[start] == '\t' || chars[start] == '\n'
            || chars[start] == '\r')
            invariant
                start <= end == n == s.len(),
                s == chars@,
                trim_front(s, false) == trim_front(s.subrange(start as int, n as int), false),
            decreases end - start,
        {
            proof {
                assert(s.subrange(start as int, n as int).drop_first() =~= s.subrange(
                    start + 1,
                    n as int,
                ));
            }
            start = start + 1;
        }
        let ghost t1 = trim_front(s, false);
        proof {
            assert(t1 == s.subrange(start as int, n as int));
        }
        while end > start && (chars[end - 1] == ' ' || chars[end - 1] == '\t' || chars[end - 1]
            == '\n' || chars[end - 1] == '\r')
            invariant
                start <= end <= n == s.len(),
                s == chars@,
                trim_back(t1, false) == trim_back(s.subrange(start as int, end as int), false),
            decreases end - start,
        {
            proof {
                assert(s.subrange(start as int, end as int).drop_last() =~= s.subrange(
                    start as int,
                    end - 1,
                ));
            }
            end = end - 1;
        }
        let ghost t2 = trim_back(t1, false);
        proof {
            assert(t2 == s.subrange(start as int, end as int));
        }
        while start < end && chars[start] == '"'
            invariant
                start <= end <= n == s.len(),
                s == chars@,
                trim_front(t2, true) == trim_front(s.subrange(start as int, end as int), true),
            decreases end - start,
        {
            proof {
                assert(s.subrange(start as int, end as int).drop_first() =~= s.subrange(
                    start + 1,
                    end as int,
                ));
            }
            start = start + 1;
        }
        let ghost t3 = trim_front(t2, true);
        proof {
            assert(t3 == s.subrange(start as int, end as int));
        }
        while end > start && chars[end - 1] == '"'
            invariant
                start <= end <= n == s.len(),
                s == chars@,
                trim_back(t3, true) == trim_back(s.subrange(start as int, end as int), true),
            decreases end - start,
        {
            proof {
                assert(s.subrange(start as int, end as int).drop_last() =~= s.subrange(
                    start as int,
                    end - 1,
                ));
            }
            end = end - 1;
        }
        proof {
            assert(legacy_name_of(s) == s.subrange(start as int, end as int));
        }
        let mut name_chars: Vec<char> = Vec::new();
        let mut i: usize = start;
        while i < end
            invariant
                start <= i <= end <= n == s.len(),
                s == chars@,
                name_chars@ =~= s.subrange(start as int, i as int),
            decreases end - i,
        {
            name_chars.push(chars[i]);
            proof {
                assert(name_chars@ =~= s.subrange(start as int, i + 1 as int));
            }
            i = i + 1;
        }
        let name = chars_to_string(&name_chars);
        let mut collections: Vec<String> = Vec::new();
        collections.push(name.clone());
        let r = AegCore {
            active_collection: name,
            collections,
            cache: Vec::new(),
            saver: SaverState::initial(),
        };
        proof {
            assert(r.collections@[0]@ == r.active_collection@);
            assert(r.cache@.len() == 0);
            assert(r.collection_names() =~= seq![r.active_collection@]);
        }
        r
    }

    /// Reconstruct the registry from the persisted registry blob. No blob
    /// (a fresh installation) yields the default record. A blob that
    /// fails authentication is fatal: registry corruption is more severe
    /// than a single collection's. A decrypted payload that is not a
    /// canonical registry document goes through the explicit legacy
    /// migration, and a document whose record breaks the registry
    /// invariants is repaired; any blob `save` produced for a valid
    /// record yields exactly that record.
    pub fn load(blob: Option<&String>, key: &AuthorizationKey) -> (r: Result<AegCore, AegError>)
        requires
            key.wf(),
        ensures
            r is Ok ==> (r->Ok_0).wf() && (r->Ok_0).stores()
                =~= Map::<Seq<char>, Map<Seq<char>, Seq<char>>>::empty() && (r->Ok_0).saver
                == SaverState::initial_spec(),
            blob is None ==> r is Ok && (r->Ok_0).active_collection@ == "default"@ && (
            r->Ok_0).collection_names() =~= seq!["default"@],
            r is Err ==> r->Err_0 == AegError::Decryption || r->Err_0 == AegError::Serialization,
            forall|a: Seq<char>, cols: Seq<Seq<char>>|
                blob is Some && blob_for(blob->0@, key.bytes@, #[trigger] registry_payload(a, cols))
                    && registry_views_valid(a, cols) ==> r is Ok && (r->Ok_0).active_collection@
                    == a && names_of((r->Ok_0).collections@) == cols,
    {
        let b = match blob {
            None => {
                return Ok(Self::new_default());
            },
            Some(b) => b,
        };
        let payload = match EncryptedBlobCodec::decode(b.as_str(), key) {
            Ok(p) => p,
            Err(e) => {
                return Err(e);
            },
        };
        let text = match bytes_to_string(payload) {
            Some(t) => t,
            None => {
                proof {
                    assert forall|a: Seq<char>, cols: Seq<Seq<char>>|
                        !(blob_for(b@, key.bytes@, #[trigger] registry_payload(a, cols))) by {
                        if blob_for(b@, key.bytes@, registry_payload(a, cols)) {
                            encode_utf8_valid_utf8(ser_registry(a, cols));
                        }
                    }
                }
                return Err(AegError::Serialization);
            },
        };
        let parsed = match parse_registry(text.as_str()) {
            Some(p) => p,
            None => {
                proof {
                    assert forall|a: Seq<char>, cols: Seq<Seq<char>>|
                        !(blob_for(b@, key.bytes@, #[trigger] registry_payload(a, cols))) by {
                        if blob_for(b@, key.bytes@, registry_payload(a, cols)) {
                            encode_utf8_decode_utf8(ser_registry(a, cols));
                        }
                    }
                }
                return Ok(Self::migrate_legacy_record(text.as_str()));
            },
        };
        let (active, collections) = parsed;
        let lock = CollectionLock { active, collections };
        if registry_record_valid(&lock) {
            let r = AegCore {
                active_collection: lock.active,
                collections: lock.collections,
                cache: Vec::new(),
                saver: SaverState::initial(),
            };
            proof {
                assert(r.cache@.len() == 0);
                assert forall|a: Seq<char>, cols: Seq<Seq<char>>|
                    blob_for(b@, key.bytes@, #[trigger] registry_payload(a, cols))
                        && registry_views_valid(a, cols) implies r.active_collection@ == a
                    && names_of(r.collections@) == cols by {
                    encode_utf8_decode_utf8(ser_registry(a, cols));
                }
            }
            Ok(r)
        } else {
            proof {
                assert forall|a: Seq<char>, cols: Seq<Seq<char>>|
                    !(blob_for(b@, key.bytes@, #[trigger] registry_payload(a, cols))
                        && registry_views_valid(a, cols)) by {
                    if blob_for(b@, key.bytes@, registry_payload(a, cols)) && registry_views_valid(
                        a,
                        cols,
                    ) {
                        encode_utf8_decode_utf8(ser_registry(a, cols));
                        assert(names_of(lock.collections@) == cols && lock.active@ == a);
                        assert(lock.collections@.len() > 0);
                        assert(strings_unique(lock.collections@)) by {
                            assert forall|i: int, j: int|
                                0 <= i < j < lock.collections@.len() implies lock.collections@[i]@
                                != lock.collections@[j]@ by {
                                assert(names_of(lock.collections@)[i] == lock.collections@[i]@);
                                assert(names_of(lock.collections@)[j] == lock.collections@[j]@);
                            }
                        }
                        assert(has_name(lock.collections@, lock.active@)) by {
                            let i = choose|i: int| 0 <= i < cols.len() && cols[i] == a;
                            assert(names_of(lock.collections@)[i] == lock.collections@[i]@);
                        }
                    }
                }
            }
            Ok(normalize_record(lock))
        }
    }

    /// Serialize and encrypt the registry record; the caller writes the
    /// blob to the registry file before reporting success — collection
    /// topology changes are durable synchronously, unlike value writes.
    /// Fails only when the randomness source fails or the rendered
    /// document exceeds the cipher's length bound.
    pub fn save(&self, key: &AuthorizationKey) -> (r: Result<String, AegError>)
        requires
            self.wf(),
            key.wf(),
        ensures
            r is Ok ==> blob_for(
                r->Ok_0@,
                key.bytes@,
                registry_payload(self.active_collection@, names_of(self.collections@)),
            ),
            r is Err ==> r->Err_0 == AegError::Encryption,
    {
        let json = render_registry(self.active_collection.as_str(), &self.collections);
        let bytes = json.as_str().as_bytes_vec();
        EncryptedBlobCodec::encode(&bytes, key)
    }

    /// Resolution step for a collection that is not yet cached: the caller
    /// reads the collection's file, if one exists, and hands its text
    /// here; the store is reconstructed (or fresh) and cached. A
    /// collection already cached is left alone.
    pub fn install_store(&mut self, name: &str, blob: Option<&String>, key: &AuthorizationKey)
        requires
            old(self).wf(),
            key.wf(),
        ensures
            final(self).wf(),
            final(self).same_topology(old(self)),
            old(self).stores().contains_key(name@) ==> final(self).stores() == old(self).stores(),
            !old(self).stores().contains_key(name@) ==> final(self).stores() =~= old(
                self,
            ).stores().insert(name@, final(self).entries_of(name@)),
            !old(self).stores().contains_key(name@) && blob is None ==> final(self).stores() =~= old(
                self,
            ).stores().insert(name@, Map::<Seq<char>, Seq<char>>::empty()),
            forall|n2: Seq<char>, entries: Seq<(Seq<char>, Seq<char>)>|
                !old(self).stores().contains_key(name@) && blob is Some && blob_for(
                    blob->0@,
                    key.bytes@,
                    #[trigger] store_payload(n2, entries),
                ) && entry_keys_unique(entries) ==> final(self).stores() =~= old(
                    self,
                ).stores().insert(name@, entries_map_of(entries)),
    {
        match self.find_engine(name) {
            Some(i) => {
                proof {
                    lemma_cache_map_get(self.cache@, i as int);
                }
            },
            None => {
                proof {
                    lemma_cache_map_absent(self.cache@, name@);
                }
                let e = AegMemoryEngine::load(name, blob, key);
                proof {
                    lemma_cache_map_push(self.cache@, e);
                }
                self.cache.push(e);
                proof {
                    lemma_cache_map_get(self.cache@, self.cache@.len() - 1);
                }
            },
        }
    }

    /// Point-in-time flush: serialize and encrypt every cached
    /// collection's store; the caller writes each blob to its file. One
    /// result per cached store, in cache order: the file name derived
    /// from the collection's name, and either a valid encryption of that
    /// store's current entries or the encryption failure. A failed store
    /// does not stop the others (best effort, as the background saver
    /// needs).
    pub fn flush_now(&self, key: &AuthorizationKey) -> (r: Vec<
        (String, Result<String, AegError>),
    >)
        requires
            self.wf(),
            key.wf(),
        ensures
            r@.len() == self.cache@.len(),
            forall|j: int|
                0 <= j < r@.len() ==> (#[trigger] r@[j]).0@ == store_file_name_spec(
                    self.cache@[j].collection_name@,
                ) && (r@[j].1 is Ok ==> blob_for(
                    (r@[j].1)->Ok_0@,
                    key.bytes@,
                    store_payload(
                        self.cache@[j].collection_name@,
                        pair_views(self.cache@[j].store@),
                    ),
                )) && (r@[j].1 is Err ==> (r@[j].1)->Err_0 == AegError::Encryption),
    {
        let mut r: Vec<(String, Result<String, AegError>)> = Vec::new();
        let mut i: usize = 0;
        while i < self.cache.len()
            invariant
                self.wf(),
                key.wf(),
                i <= self.cache@.len(),
                r@.len() == i,
                forall|j: int|
                    0 <= j < r@.len() ==> (#[trigger] r@[j]).0@ == store_file_name_spec(
                        self.cache@[j].collection_name@,
                    ) && (r@[j].1 is Ok ==> blob_for(
                        (r@[j].1)->Ok_0@,
                        key.bytes@,
                        store_payload(
                            self.cache@[j].collection_name@,
                            pair_views(self.cache@[j].store@),
                        ),
                    )) && (r@[j].1 is Err ==> (r@[j].1)->Err_0 == AegError::Encryption),
            decreases self.cache@.len() - i,
        {
            match self.cache[i].save_to_disk(key) {
                Ok(pair) => {
                    let (file, blob) = pair;
                    r.push((file, Ok(blob)));
                },
                Err(e) => {
                    let file = AegMemoryEngine::engine_file_name(
                        self.cache[i].collection_name.as_str(),
                    );
                    r.push((file, Err(e)));
                },
            }
            i = i + 1;
        }
        r
    }
}

} // verus!

