use vstd::prelude::*;

verus! {

/// One collection's in-memory key-value store. Entries are held as a
/// vector of (key, value) pairs whose keys are pairwise distinct; the
/// abstract content is the map given by the `View` impl below.
#[derive(Clone)]
pub struct AegMemoryEngine {
    pub store: Vec<(String, String)>,
    pub collection_name: String,
}

/// The keys of an entry list are pairwise distinct.
pub open spec fn pairs_unique(s: Seq<(String, String)>) -> bool {
    forall|i: int, j: int| 0 <= i < j < s.len() ==> s[i].0@ != s[j].0@
}

/// The map that an entry list denotes; a later pair with the same key
/// would win, but well-formed stores never hold one.
pub open spec fn map_of_pairs(s: Seq<(String, String)>) -> Map<Seq<char>, Seq<char>>
    decreases s.len(),
{
    if s.len() == 0 {
        Map::empty()
    } else {
        map_of_pairs(s.drop_last()).insert(s.last().0@, s.last().1@)
    }
}

/// A key absent from the list is absent from the denoted map.
pub proof fn lemma_map_of_pairs_absent(s: Seq<(String, String)>, k: Seq<char>)
    requires
        forall|i: int| 0 <= i < s.len() ==> s[i].0@ != k,
    ensures
        !map_of_pairs(s).contains_key(k),
    decreases s.len(),
{
    if s.len() > 0 {
        lemma_map_of_pairs_absent(s.drop_last(), k);
    }
}

/// In a list with distinct keys, each pair gives the denoted map's value at its key.
pub proof fn lemma_map_of_pairs_get(s: Seq<(String, String)>, i: int)
    requires
        pairs_unique(s),
        0 <= i < s.len(),
    ensures
        map_of_pairs(s).contains_key(s[i].0@),
        map_of_pairs(s)[s[i].0@] == s[i].1@,
    decreases s.len(),
{
    if i == s.len() - 1 {
        assert(forall|j: int| 0 <= j < s.drop_last().len() ==> s.drop_last()[j].0@ != s[i].0@);
        lemma_map_of_pairs_absent(s.drop_last(), s[i].0@);
    } else {
        assert(pairs_unique(s.drop_last()));
        lemma_map_of_pairs_get(s.drop_last(), i);
    }
}

/// Appending a pair with a fresh key inserts it into the denoted map.
pub proof fn lemma_map_of_pairs_push(s: Seq<(String, String)>, p: (String, String))
    ensures
        map_of_pairs(s.push(p)) == map_of_pairs(s).insert(p.0@, p.1@),
{
    assert(s.push(p).drop_last() =~= s);
    assert(s.push(p).last() == p);
}

/// Replacing the pair at `i` by one with the same key updates the denoted map at that key.
pub proof fn lemma_map_of_pairs_update(s: Seq<(String, String)>, i: int, p: (String, String))
    requires
        pairs_unique(s),
        0 <= i < s.len(),
        s[i].0@ == p.0@,
    ensures
        map_of_pairs(s.update(i, p)) =~= map_of_pairs(s).insert(p.0@, p.1@),
    decreases s.len(),
{
    if i == s.len() - 1 {
        assert(s.update(i, p).drop_last() =~= s.drop_last());
    } else {
        assert(s.update(i, p).drop_last() =~= s.drop_last().update(i, p));
        assert(pairs_unique(s.drop_last()));
        lemma_map_of_pairs_update(s.drop_last(), i, p);
        assert(s.last().0@ != p.0@);
    }
}

/// Removing the pair at `i` removes its key from the denoted map.
pub proof fn lemma_map_of_pairs_remove(s: Seq<(String, String)>, i: int)
    requires
        pairs_unique(s),
        0 <= i < s.len(),
    ensures
        map_of_pairs(s.remove(i)) =~= map_of_pairs(s).remove(s[i].0@),
    decreases s.len(),
{
    if i == s.len() - 1 {
        assert(s.remove(i) =~= s.drop_last());
        lemma_map_of_pairs_absent(s.drop_last(), s[i].0@);
        assert(map_of_pairs(s.drop_last()) =~= map_of_pairs(s).remove(s[i].0@));
    } else {
        assert(s.remove(i).drop_last() =~= s.drop_last().remove(i));
        assert(pairs_unique(s.drop_last()));
        lemma_map_of_pairs_remove(s.drop_last(), i);
        assert(s.remove(i).last() == s.last());
    }
}

impl View for AegMemoryEngine {
    type V = Map<Seq<char>, Seq<char>>;

    open spec fn view(&self) -> Map<Seq<char>, Seq<char>> {
        map_of_pairs(self.store@)
    }
}

impl AegMemoryEngine {
    /// Well-formed: no key occurs twice.
    pub open spec fn wf(&self) -> bool {
        pairs_unique(self.store@)
    }

    /// A fresh, empty store for the named collection.
    pub fn new(collection_name: &str) -> (r: Self)
        ensures
            r.wf(),
            r@ == Map::<Seq<char>, Seq<char>>::empty(),
            r.collection_name@ == collection_name@,
    {
        let r = AegMemoryEngine { store: Vec::new(), collection_name: collection_name.to_owned() };
        proof {
            assert(r.store@.len() == 0);
        }
        r
    }

    /// Index of the entry holding `key`, if any.
    fn find_key(&self, key: &str) -> (r: Option<usize>)
        ensures
            match r {
                Some(i) => i < self.store@.len() && self.store@[i as int].0@ == key@,
                None => forall|i: int| 0 <= i < self.store@.len() ==> self.store@[i].0@ != key@,
            },
    {
        let k = key.to_owned();
        let mut i: usize = 0;
        while i < self.store.len()
            invariant
                i <= self.store@.len(),
                k@ == key@,
                forall|j: int| 0 <= j < i ==> self.store@[j].0@ != key@,
            decreases self.store@.len() - i,
        {
            if self.store[i].0 == k {
                return Some(i);
            }
            i = i + 1;
        }
        None
    }

    /// Insert or overwrite one key. Memory only: no disk write happens here.
    pub fn insert(&mut self, key: &str, value: &str)
        requires
            old(self).wf(),
        ensures
            final(self).wf(),
            final(self)@ == old(self)@.insert(key@, value@),
            final(self).collection_name@ == old(self).collection_name@,
    {
        let k = key.to_owned();
        let v = value.to_owned();
        match self.find_key(key) {
            Some(i) => {
                proof {
                    lemma_map_of_pairs_update(self.store@, i as int, (k, v));
                }
                self.store[i] = (k, v);
            },
            None => {
                proof {
                    lemma_map_of_pairs_push(self.store@, (k, v));
                }
                self.store.push((k, v));
            },
        }
    }

    /// The value stored under `key`, if any.
    pub fn get(&self, key: &str) -> (r: Option<String>)
        requires
            self.wf(),
        ensures
            r is Some <==> self@.contains_key(key@),
            r is Some ==> r->0@ == self@[key@],
    {
        match self.find_key(key) {
            Some(i) => {
                proof {
                    lemma_map_of_pairs_get(self.store@, i as int);
                }
                Some(self.store[i].1.clone())
            },
            None => {
                proof {
                    lemma_map_of_pairs_absent(self.store@, key@);
                }
                None
            },
        }
    }

    /// Remove one key, reporting whether it was present. Memory only.
    pub fn delete(&mut self, key: &str) -> (existed: bool)
        requires
            old(self).wf(),
        ensures
            final(self).wf(),
            existed == old(self)@.contains_key(key@),
            final(self)@ == old(self)@.remove(key@),
            final(self).collection_name@ == old(self).collection_name@,
    {
        match self.find_key(key) {
            Some(i) => {
                proof {
                    lemma_map_of_pairs_get(self.store@, i as int);
                    lemma_map_of_pairs_remove(self.store@, i as int);
                    assert forall|a: int, b: int|
                        0 <= a < b < self.store@.remove(i as int).len() implies self.store@.remove(
                        i as int,
                    )[a].0@ != self.store@.remove(i as int)[b].0@ by {
                        assert(self.store@.remove(i as int)[a] == if a < i {
                            self.store@[a]
                        } else {
                            self.store@[a + 1]
                        });
                    }
                }
                self.store.remove(i);
                true
            },
            None => {
                proof {
                    lemma_map_of_pairs_absent(self.store@, key@);
                    assert(self@ =~= old(self)@.remove(key@));
                }
                false
            },
        }
    }

    /// All entries, as owned pairs, in storage order.
    pub fn list(&self) -> (r: Vec<(String, String)>)
        ensures
            r@ =~= self.store@,
    {
        let mut r: Vec<(String, String)> = Vec::new();
        let mut i: usize = 0;
        while i < self.store.len()
            invariant
                i <= self.store@.len(),
                r@ =~= self.store@.subrange(0, i as int),
            decreases self.store@.len() - i,
        {
            r.push((self.store[i].0.clone(), self.store[i].1.clone()));
            proof {
                assert(r@ =~= self.store@.subrange(0, i + 1 as int));
            }
            i = i + 1;
        }
        proof {
            assert(self.store@.subrange(0, self.store@.len() as int) =~= self.store@);
        }
        r
    }

    /// Drop every entry. Memory only.
    pub fn clear(&mut self)
        ensures
            final(self).wf(),
            final(self)@ == Map::<Seq<char>, Seq<char>>::empty(),
            final(self).collection_name@ == old(self).collection_name@,
    {
        self.store.clear();
        proof {
            assert(self.store@.len() == 0);
        }
    }
}


/// The collection names of a cache's engines are pairwise distinct.
pub open spec fn engines_unique(s: Seq<AegMemoryEngine>) -> bool {
    forall|i: int, j: int|
        0 <= i < j < s.len() ==> s[i].collection_name@ != s[j].collection_name@
}

/// The map from collection name to entries that a cache of engines denotes.
pub open spec fn cache_map(s: Seq<AegMemoryEngine>) -> Map<Seq<char>, Map<Seq<char>, Seq<char>>>
    decreases s.len(),
{
    if s.len() == 0 {
        Map::empty()
    } else {
        cache_map(s.drop_last()).insert(s.last().collection_name@, s.last()@)
    }
}

/// A name missing from the cache is absent from the denoted map.
pub proof fn lemma_cache_map_absent(s: Seq<AegMemoryEngine>, k: Seq<char>)
    requires
        forall|i: int| 0 <= i < s.len() ==> s[i].collection_name@ != k,
    ensures
        !cache_map(s).contains_key(k),
    decreases s.len(),
{
    if s.len() > 0 {
        lemma_cache_map_absent(s.drop_last(), k);
    }
}

/// In a cache with distinct names, each engine gives the denoted map's value at its name.
pub proof fn lemma_cache_map_get(s: Seq<AegMemoryEngine>, i: int)
    requires
        engines_unique(s),
        0 <= i < s.len(),
    ensures
        cache_map(s).contains_key(s[i].collection_name@),
        cache_map(s)[s[i].collection_name@] == s[i]@,
    decreases s.len(),
{
    if i == s.len() - 1 {
        lemma_cache_map_absent(s.drop_last(), s[i].collection_name@);
    } else {
        assert(engines_unique(s.drop_last()));
        lemma_cache_map_get(s.drop_last(), i);
    }
}

/// Appending an engine under a fresh name inserts it into the denoted cache map.
pub proof fn lemma_cache_map_push(s: Seq<AegMemoryEngine>, e: AegMemoryEngine)
    ensures
        cache_map(s.push(e)) == cache_map(s).insert(e.collection_name@, e@),
{
    assert(s.push(e).drop_last() =~= s);
    assert(s.push(e).last() == e);
}

/// Replacing the engine at `i` by one with the same name updates the denoted cache map there.
pub proof fn lemma_cache_map_update(s: Seq<AegMemoryEngine>, i: int, e: AegMemoryEngine)
    requires
        engines_unique(s),
        0 <= i < s.len(),
        s[i].collection_name@ == e.collection_name@,
    ensures
        cache_map(s.update(i, e)) =~= cache_map(s).insert(e.collection_name@, e@),
    decreases s.len(),
{
    if i == s.len() - 1 {
        assert(s.update(i, e).drop_last() =~= s.drop_last());
    } else {
        assert(s.update(i, e).drop_last() =~= s.drop_last().update(i, e));
        assert(engines_unique(s.drop_last()));
        lemma_cache_map_update(s.drop_last(), i, e);
        assert(s.last().collection_name@ != e.collection_name@);
    }
}

/// Removing the engine at `i` removes its name from the denoted cache map.
pub proof fn lemma_cache_map_remove(s: Seq<AegMemoryEngine>, i: int)
    requires
        engines_unique(s),
        0 <= i < s.len(),
    ensures
        cache_map(s.remove(i)) =~= cache_map(s).remove(s[i].collection_name@),
        engines_unique(s.remove(i)),
    decreases s.len(),
{
    assert forall|a: int, b: int| 0 <= a < b < s.remove(i).len() implies s.remove(i)[a].collection_name@
        != s.remove(i)[b].collection_name@ by {
        assert(s.remove(i)[a] == if a < i { s[a] } else { s[a + 1] });
        assert(s.remove(i)[b] == if b < i { s[b] } else { s[b + 1] });
    }
    if i == s.len() - 1 {
        assert(s.remove(i) =~= s.drop_last());
        lemma_cache_map_absent(s.drop_last(), s[i].collection_name@);
        assert(cache_map(s.drop_last()) =~= cache_map(s).remove(s[i].collection_name@));
    } else {
        assert(s.remove(i).drop_last() =~= s.drop_last().remove(i));
        assert(engines_unique(s.drop_last()));
        lemma_cache_map_remove(s.drop_last(), i);
        assert(s.remove(i).last() == s.last());
    }
}

} // verus!
