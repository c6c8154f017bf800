//! Chunks, and the stores that map chunk keys to chunks.
use crate::array::{Array, ArrayView};
use crate::point::PointN;
use fnv::FnvHashMap;
use vstd::prelude::*;

verus! {

/// What a chunk holds.
pub struct ChunkView<const D: usize, T, Meta> {
    pub metadata: Meta,
    pub array: ArrayView<D, T>,
}

/// The unit of storage: a dense array of voxels and a record of metadata.
pub struct Chunk<const D: usize, T, Meta> {
    pub metadata: Meta,
    pub array: Array<D, T>,
}

impl<const D: usize, T, Meta> View for Chunk<D, T, Meta> {
    type V = ChunkView<D, T, Meta>;

    open spec fn view(&self) -> ChunkView<D, T, Meta> {
        ChunkView { metadata: self.metadata, array: self.array@ }
    }
}

/// Where `key` stands in `keys`.
pub open spec fn index_of_key<K>(keys: Seq<K>, key: K) -> int {
    choose|i: int| 0 <= i < keys.len() && keys[i] == key
}

/// `keys` without `key`.
pub open spec fn without_key<K>(keys: Seq<K>, key: K) -> Seq<K> {
    if keys.contains(key) {
        keys.remove(index_of_key(keys, key))
    } else {
        keys
    }
}

/// `keys` with room for one more: without its first key if it holds
/// `capacity` keys or more.
pub open spec fn with_room<K>(keys: Seq<K>, capacity: int) -> Seq<K> {
    if keys.len() >= capacity {
        keys.drop_first()
    } else {
        keys
    }
}

/// The order of use after `key` was used: `key` comes last, and the key used
/// longest ago has left if there was no room.
pub open spec fn after_use<K>(keys: Seq<K>, key: K, capacity: int) -> Seq<K> {
    with_room(without_key(keys, key), capacity).push(key)
}

/// The order of use of a store after the chunk at `key` was used: as
/// `after_use` says where a capacity bounds the decompressed chunks, and
/// unchanged where none does.
pub open spec fn recency_after_use<K>(keys: Seq<K>, key: K, capacity: Option<nat>) -> Seq<K> {
    match capacity {
        Some(c) => after_use(keys, key, c as int),
        None => keys,
    }
}

/// The order of use of a store after the chunk at `key` was taken out.
pub open spec fn recency_after_removal<K>(keys: Seq<K>, key: K, capacity: Option<nat>) -> Seq<K> {
    match capacity {
        Some(c) => without_key(keys, key),
        None => keys,
    }
}

/// Taking a key out of a list without repetitions leaves the other keys, in
/// their order.
pub proof fn lemma_without_key<K>(keys: Seq<K>, key: K)
    requires
        keys.no_duplicates(),
    ensures
        without_key(keys, key).no_duplicates(),
        !without_key(keys, key).contains(key),
        without_key(keys, key).len() <= keys.len(),
        forall|k: K| k != key ==> (without_key(keys, key).contains(k) <==> keys.contains(k)),
{
    let t = without_key(keys, key);
    if keys.contains(key) {
        let i = index_of_key(keys, key);
        assert forall|j: int| 0 <= j < t.len() implies t[j] == if j < i {
            keys[j]
        } else {
            keys[j + 1]
        } by {}
        assert forall|k: K| k != key implies (t.contains(k) <==> keys.contains(k)) by {
            if t.contains(k) {
                let j = choose|j: int| 0 <= j < t.len() && t[j] == k;
                if j < i {
                    assert(keys[j] == k);
                } else {
                    assert(keys[j + 1] == k);
                }
            }
            if keys.contains(k) {
                let j = choose|j: int| 0 <= j < keys.len() && keys[j] == k;
                if j < i {
                    assert(t[j] == k);
                } else {
                    assert(t[j - 1] == k);
                }
            }
        }
        if t.contains(key) {
            let j = choose|j: int| 0 <= j < t.len() && t[j] == key;
            if j < i {
                assert(keys[j] == key);
            } else {
                assert(keys[j + 1] == key);
            }
        }
    }
}

/// Using a key keeps the list free of repetitions and within the capacity,
/// and using it again at once changes nothing.
pub proof fn lemma_after_use<K>(keys: Seq<K>, key: K, capacity: int)
    requires
        capacity >= 1,
        keys.no_duplicates(),
        keys.len() <= capacity,
    ensures
        after_use(keys, key, capacity).no_duplicates(),
        after_use(keys, key, capacity).len() <= capacity,
        after_use(keys, key, capacity).last() == key,
        after_use(after_use(keys, key, capacity), key, capacity) == after_use(keys, key, capacity),
{
    lemma_without_key(keys, key);
    let w = without_key(keys, key);
    let v = with_room(w, capacity);
    let u = v.push(key);
    assert forall|j: int| 0 <= j < v.len() implies v[j] != key && w.contains(#[trigger] v[j]) by {
        if w.len() >= capacity {
            assert(v[j] == w[j + 1]);
        } else {
            assert(v[j] == w[j]);
        }
    }
    assert forall|a: int, b: int| 0 <= a < u.len() && 0 <= b < u.len() && a != b implies u[a]
        != u[b] by {
        if a < v.len() && b < v.len() {
            if w.len() >= capacity {
                assert(v[a] == w[a + 1] && v[b] == w[b + 1]);
            } else {
                assert(v[a] == w[a] && v[b] == w[b]);
            }
        } else if a < v.len() {
            assert(v[a] != key);
        } else if b < v.len() {
            assert(v[b] != key);
        }
    }
    assert(u[u.len() - 1] == key);
    assert(u.contains(key));
    let i = index_of_key(u, key);
    assert(i == u.len() - 1);
    assert(u.remove(i) =~= v);
    assert(without_key(u, key) == v);
    assert(with_room(v, capacity) == v);
}

/// A store of chunks that can be written: it maps chunk keys to chunks.
pub trait ChunkWriteStorage<const D: usize, T, Meta>: Sized {
    /// The chunks in the store, by key.
    spec fn chunks(&self) -> Map<PointN<D>, ChunkView<D, T, Meta>>;

    /// The store's own invariant.
    spec fn wf(&self) -> bool;

    /// The most chunks that the store keeps decompressed at a time; `None`
    /// where nothing bounds them. No operation changes it.
    spec fn live_capacity(&self) -> Option<nat>;

    /// Where a capacity bounds the decompressed chunks: their keys, the one
    /// used longest ago first. Every other chunk of the store is held
    /// compressed. Empty where nothing bounds them.
    spec fn recency(&self) -> Seq<PointN<D>>;

    /// No key comes twice in the order of use, every key in it is the key
    /// of a chunk, and there are no more of them than the capacity allows.
    proof fn lemma_recency(&self)
        requires
            self.wf(),
        ensures
            self.recency().no_duplicates(),
            forall|key: PointN<D>| self.recency().contains(key) ==> self.chunks().contains_key(key),
            self.live_capacity() matches Some(c) ==> c >= 1 && self.recency().len() <= c,
    ;

    /// Whether the store holds a chunk at `key`.
    fn contains_chunk(&self, key: &PointN<D>) -> (r: bool)
        requires
            self.wf(),
        ensures
            r == self.chunks().contains_key(*key),
    ;

    /// The chunk at `key`, to be changed in place; `None` if there is none.
    fn get_mut(&mut self, key: &PointN<D>) -> (r: Option<&mut Chunk<D, T, Meta>>)
        requires
            old(self).wf(),
        ensures
            final(self).wf(),
            final(self).live_capacity() == old(self).live_capacity(),
            final(self).recency() == if old(self).chunks().contains_key(*key) {
                recency_after_use(old(self).recency(), *key, old(self).live_capacity())
            } else {
                old(self).recency()
            },
            r is Some <==> old(self).chunks().contains_key(*key),
            match r {
                Some(chunk) => chunk@ == old(self).chunks()[*key] && final(self).chunks() == old(self).chunks().insert(*key, final(chunk)@),
                None => final(self).chunks() == old(self).chunks(),
            },
    ;

    /// Puts `chunk` at `key` and returns the chunk that was there.
    fn insert(&mut self, key: PointN<D>, chunk: Chunk<D, T, Meta>) -> (r: Option<Chunk<D, T, Meta>>)
        requires
            old(self).wf(),
        ensures
            final(self).wf(),
            final(self).live_capacity() == old(self).live_capacity(),
            final(self).recency() == recency_after_use(
                old(self).recency(),
                key,
                old(self).live_capacity(),
            ),
            final(self).chunks() == old(self).chunks().insert(key, chunk@),
            r is Some <==> old(self).chunks().contains_key(key),
            r matches Some(previous) ==> previous@ == old(self).chunks()[key],
    ;

    /// Takes the chunk at `key` out of the store.
    fn remove(&mut self, key: &PointN<D>) -> (r: Option<Chunk<D, T, Meta>>)
        requires
            old(self).wf(),
        ensures
            final(self).wf(),
            final(self).live_capacity() == old(self).live_capacity(),
            final(self).recency() == recency_after_removal(
                old(self).recency(),
                *key,
                old(self).live_capacity(),
            ),
            final(self).chunks() == old(self).chunks().remove(*key),
            r is Some <==> old(self).chunks().contains_key(*key),
            r matches Some(previous) ==> previous@ == old(self).chunks()[*key],
    ;

    /// The keys of all chunks in the store, each once, in no particular
    /// order.
    fn keys(&self) -> (v: Vec<PointN<D>>)
        requires
            self.wf(),
        ensures
            v@.no_duplicates(),
            forall|key: PointN<D>| v@.contains(key) <==> self.chunks().contains_key(key),
    ;
}

/// A store of chunks that can be read without changing it.
pub trait ChunkReadStorage<const D: usize, T, Meta>: ChunkWriteStorage<D, T, Meta> {
    /// The chunk at `key`; `None` if there is none.
    fn get(&self, key: &PointN<D>) -> (r: Option<&Chunk<D, T, Meta>>)
        requires
            self.wf(),
        ensures
            r is Some <==> self.chunks().contains_key(*key),
            r matches Some(chunk) ==> chunk@ == self.chunks()[*key],
    ;
}

/// `fnv::FnvHasher`, the hasher of the chunk maps. Nothing is said of what
/// is inside.
#[verifier::external_type_specification]
#[verifier::external_body]
pub struct ExFnvHasher(fnv::FnvHasher);

/// `std::hash::BuildHasherDefault`, which makes the hashers of the chunk
/// maps. Nothing is said of what is inside.
#[verifier::external_type_specification]
#[verifier::external_body]
#[verifier::reject_recursive_types(H)]
pub struct ExBuildHasherDefault<H>(std::hash::BuildHasherDefault<H>);

/// `HashMap::contains_key` on a map with the FNV hasher and arrays of `i32`
/// as keys: whether the map holds `key`.
#[verifier::external_body]
pub(crate) fn map_contains<const D: usize, V>(m: &FnvHashMap<[i32; D], V>, key: &[i32; D]) -> (r: bool)
    ensures
        r == m@.contains_key(*key),
{
    m.contains_key(key)
}

/// `HashMap::get` on such a map: the value at `key`, if there is one.
#[verifier::external_body]
pub(crate) fn map_get<'a, const D: usize, V>(m: &'a FnvHashMap<[i32; D], V>, key: &[i32; D]) -> (r: Option<
    &'a V,
>)
    ensures
        r is Some <==> m@.contains_key(*key),
        r matches Some(v) ==> *v == m@[*key],
{
    m.get(key)
}

/// `HashMap::get_mut` on such a map: the value at `key`, if there is one, to
/// be changed in place; nothing else in the map changes.
#[verifier::external_body]
pub(crate) fn map_get_mut<'a, const D: usize, V>(m: &'a mut FnvHashMap<[i32; D], V>, key: &[i32; D]) -> (r:
    Option<&'a mut V>)
    ensures
        r is Some <==> old(m)@.contains_key(*key),
        match r {
            Some(v) => *v == old(m)@[*key] && final(m)@ == old(m)@.insert(*key, *final(v)),
            None => final(m)@ == old(m)@,
        },
{
    m.get_mut(key)
}

/// `HashMap::insert` on such a map: afterwards `key` maps to `value`; the
/// value that was at `key` is returned.
#[verifier::external_body]
pub(crate) fn map_insert<const D: usize, V>(m: &mut FnvHashMap<[i32; D], V>, key: [i32; D], value: V) -> (r:
    Option<V>)
    ensures
        final(m)@ == old(m)@.insert(key, value),
        r is Some <==> old(m)@.contains_key(key),
        r matches Some(v) ==> v == old(m)@[key],
{
    m.insert(key, value)
}

/// `HashMap::remove` on such a map: afterwards `key` is absent; the value
/// that was at `key` is returned.
#[verifier::external_body]
pub(crate) fn map_remove<const D: usize, V>(m: &mut FnvHashMap<[i32; D], V>, key: &[i32; D]) -> (r: Option<V>)
    ensures
        final(m)@ == old(m)@.remove(*key),
        r is Some <==> old(m)@.contains_key(*key),
        r matches Some(v) ==> v == old(m)@[*key],
{
    m.remove(key)
}

/// `HashMap::keys` on such a map, collected: every key of the map once. The
/// order is that of the hash table and is not stated.
#[verifier::external_body]
pub(crate) fn map_keys<const D: usize, V>(m: &FnvHashMap<[i32; D], V>) -> (v: Vec<[i32; D]>)
    ensures
        v@.no_duplicates(),
        forall|key: [i32; D]| v@.contains(key) <==> m@.contains_key(key),
{
    m.keys().copied().collect()
}

/// A store that keeps every chunk as it is in a hash map. Nothing bounds its
/// size.
pub struct ChunkHashMapStorage<const D: usize, T, Meta> {
    pub map: FnvHashMap<[i32; D], Chunk<D, T, Meta>>,
}

impl<const D: usize, T, Meta> ChunkHashMapStorage<D, T, Meta> {
    /// An empty store.
    pub fn new() -> (r: Self)
        ensures
            r.wf(),
            r.chunks() == Map::<PointN<D>, ChunkView<D, T, Meta>>::empty(),
    {
        let r = ChunkHashMapStorage { map: FnvHashMap::default() };
        proof {
            assert(r.chunks() =~= Map::<PointN<D>, ChunkView<D, T, Meta>>::empty());
        }
        r
    }
}

impl<const D: usize, T, Meta> ChunkWriteStorage<D, T, Meta> for ChunkHashMapStorage<D, T, Meta> {
    open spec fn chunks(&self) -> Map<PointN<D>, ChunkView<D, T, Meta>> {
        Map::new(|key: PointN<D>| self.map@.contains_key(key.0), |key: PointN<D>| self.map@[key.0]@)
    }

    open spec fn wf(&self) -> bool {
        true
    }

    open spec fn live_capacity(&self) -> Option<nat> {
        None
    }

    open spec fn recency(&self) -> Seq<PointN<D>> {
        Seq::empty()
    }

    proof fn lemma_recency(&self) {
    }

    fn contains_chunk(&self, key: &PointN<D>) -> (r: bool) {
        map_contains(&self.map, &key.0)
    }

    fn get_mut(&mut self, key: &PointN<D>) -> (r: Option<&mut Chunk<D, T, Meta>>) {
        proof {
            let before = *self;
            assert forall|after: Self, chunk: Chunk<D, T, Meta>|
                after.map@ == before.map@.insert(key.0, chunk) implies #[trigger] after.chunks()
                == before.chunks().insert(*key, #[trigger] chunk@) by {
                assert(after.chunks() =~= before.chunks().insert(*key, chunk@));
            }
        }
        map_get_mut(&mut self.map, &key.0)
    }

    fn insert(&mut self, key: PointN<D>, chunk: Chunk<D, T, Meta>) -> (r: Option<
        Chunk<D, T, Meta>,
    >) {
        let r = map_insert(&mut self.map, key.0, chunk);
        proof {
            assert(self.chunks() =~= old(self).chunks().insert(key, chunk@));
        }
        r
    }

    fn remove(&mut self, key: &PointN<D>) -> (r: Option<Chunk<D, T, Meta>>) {
        let r = map_remove(&mut self.map, &key.0);
        proof {
            assert(self.chunks() =~= old(self).chunks().remove(*key));
        }
        r
    }

    fn keys(&self) -> (v: Vec<PointN<D>>) {
        let raw = map_keys(&self.map);
        let mut v: Vec<PointN<D>> = Vec::new();
        let mut i: usize = 0;
        while i < raw.len()
            invariant
                i <= raw.len(),
                v.len() == i,
                forall|j: int| 0 <= j < i ==> (#[trigger] v[j]).0 == raw[j],
            decreases raw.len() - i,
        {
            v.push(PointN(raw[i]));
            i += 1;
        }
        proof {
            assert forall|key: PointN<D>| v@.contains(key) <==> self.chunks().contains_key(
                key,
            ) by {
                if v@.contains(key) {
                    let j = choose|j: int| 0 <= j < v@.len() && v@[j] == key;
                    assert(raw@[j] == key.0);
                    assert(raw@.contains(key.0));
                }
                if self.chunks().contains_key(key) {
                    assert(raw@.contains(key.0));
                    let j = choose|j: int| 0 <= j < raw@.len() && raw@[j] == key.0;
                    assert(v@[j].0 == key.0);
                    assert(v@[j] == key);
                }
            }
            assert forall|j: int, k: int|
                0 <= j < v@.len() && 0 <= k < v@.len() && j != k implies v@[j] != v@[k] by {
                assert(v@[j].0 == raw@[j]);
                assert(v@[k].0 == raw@[k]);
            }
        }
        v
    }
}

impl<const D: usize, T, Meta> ChunkReadStorage<D, T, Meta> for ChunkHashMapStorage<D, T, Meta> {
    fn get(&self, key: &PointN<D>) -> (r: Option<&Chunk<D, T, Meta>>) {
        map_get(&self.map, &key.0)
    }
}

} // verus!
