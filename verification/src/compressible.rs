//! A chunk store that bounds how many chunks it keeps decompressed. Chunks
//! that were not used for the longest time are held as compressed bytes.
use crate::array::{Array, ArrayView};
use crate::compression::BytesCompression;
use crate::encoding::{
    decode_values, encode_values, encoded_values, lemma_encoded_len,
    lemma_encoded_values_injective, VoxelBytes,
};
use crate::extent::ExtentN;
use crate::point::PointN;
use crate::storage::{
    after_use, index_of_key, map_contains, map_get_mut, map_insert, map_keys, map_remove,
    with_room, without_key, Chunk, ChunkView, ChunkWriteStorage,
};
use fnv::FnvHashMap;
use vstd::prelude::*;

verus! {

/// How many chunks a store keeps decompressed when nothing else is asked for.
pub const DEFAULT_CAPACITY: usize = 1024;

/// A chunk whose voxels are held as compressed bytes.
pub struct CompressedChunk<const D: usize, Meta> {
    pub metadata: Meta,
    pub extent: ExtentN<D>,
    pub len: usize,
    pub bytes: Vec<u8>,
}

/// A store that keeps at most `capacity` chunks decompressed ("live") and all
/// others compressed. `recency` lists the keys of the live chunks, the one
/// used longest ago first.
pub struct CompressibleChunkStorage<const D: usize, T, Meta, B> {
    pub compression: B,
    pub capacity: usize,
    pub live: FnvHashMap<[i32; D], Chunk<D, T, Meta>>,
    pub compressed: FnvHashMap<[i32; D], CompressedChunk<D, Meta>>,
    pub recency: Vec<[i32; D]>,
}

/// The keys as points.
pub open spec fn as_points<const D: usize>(keys: Seq<[i32; D]>) -> Seq<PointN<D>> {
    Seq::new(keys.len(), |i: int| PointN(keys[i]))
}

/// Taking a key out and turning keys into points can be done in either
/// order.
pub proof fn lemma_points_without_key<const D: usize>(keys: Seq<[i32; D]>, key: [i32; D])
    requires
        keys.no_duplicates(),
    ensures
        as_points(without_key(keys, key)) == without_key(as_points(keys), PointN(key)),
        as_points(keys).no_duplicates(),
{
    let points = as_points(keys);
    assert forall|a: int, b: int|
        0 <= a < points.len() && 0 <= b < points.len() && a != b implies points[a]
        != points[b] by {
        assert(points[a].0 == keys[a]);
        assert(points[b].0 == keys[b]);
    }
    if keys.contains(key) {
        let i = index_of_key(keys, key);
        assert(points[i] == PointN(key));
        assert(points.contains(PointN(key)));
        let j = index_of_key(points, PointN(key));
        assert(points[j].0 == keys[j]);
        assert(j == i);
        assert(as_points(keys.remove(i)) =~= points.remove(i));
    } else {
        if points.contains(PointN(key)) {
            let j = choose|j: int| 0 <= j < points.len() && points[j] == PointN(key);
            assert(points[j].0 == keys[j]);
            assert(keys.contains(key));
        }
    }
}

/// Using a key and turning keys into points can be done in either order.
pub proof fn lemma_points_after_use<const D: usize>(
    keys: Seq<[i32; D]>,
    key: [i32; D],
    capacity: int,
)
    requires
        keys.no_duplicates(),
        capacity >= 1,
    ensures
        as_points(after_use(keys, key, capacity)) == after_use(
            as_points(keys),
            PointN(key),
            capacity,
        ),
{
    lemma_points_without_key(keys, key);
    let w = without_key(keys, key);
    assert(as_points(w).len() == w.len());
    if w.len() >= capacity {
        assert(as_points(w.drop_first()) =~= as_points(w).drop_first());
    }
    assert(as_points(with_room(w, capacity)) =~= with_room(as_points(w), capacity));
    assert(as_points(with_room(w, capacity).push(key)) =~= as_points(
        with_room(w, capacity),
    ).push(PointN(key)));
}

/// Whether the two keys are the same.
fn same_key<const D: usize>(a: &[i32; D], b: &[i32; D]) -> (r: bool)
    ensures
        r == (*a == *b),
{
    PointN(*a).equals(&PointN(*b))
}

/// Where `key` stands in `keys`.
fn position<const D: usize>(keys: &Vec<[i32; D]>, key: &[i32; D]) -> (r: Option<usize>)
    ensures
        match r {
            Some(i) => i < keys.len() && keys@[i as int] == *key,
            None => !keys@.contains(*key),
        },
{
    let mut i: usize = 0;
    while i < keys.len()
        invariant
            i <= keys.len(),
            forall|j: int| 0 <= j < i ==> keys@[j] != *key,
        decreases keys.len() - i,
    {
        if same_key(&keys[i], key) {
            return Some(i);
        }
        i += 1;
    }
    None
}

/// Takes the key at position `i` out of `keys`.
fn take_key<const D: usize>(keys: &mut Vec<[i32; D]>, i: usize) -> (key: [i32; D])
    requires
        i < old(keys).len(),
        old(keys)@.no_duplicates(),
    ensures
        key == old(keys)@[i as int],
        final(keys)@ == old(keys)@.remove(i as int),
        final(keys)@ == without_key(old(keys)@, key),
        final(keys)@.len() == old(keys)@.len() - 1,
        final(keys)@.no_duplicates(),
        forall|k: [i32; D]| final(keys)@.contains(k) <==> old(keys)@.contains(k) && k != key,
{
    let key = keys.remove(i);
    proof {
        let s = old(keys)@;
        let t = keys@;
        assert(s.contains(key));
        assert(index_of_key(s, key) == i);
        assert forall|j: int| 0 <= j < t.len() implies t[j] == if j < i {
            s[j]
        } else {
            s[j + 1]
        } by {}
        assert forall|k: [i32; D]| t.contains(k) <==> s.contains(k) && k != key by {
            if t.contains(k) {
                let j = choose|j: int| 0 <= j < t.len() && t[j] == k;
                if j < i {
                    assert(s[j] == k);
                } else {
                    assert(s[j + 1] == k);
                }
            }
            if s.contains(k) && k != key {
                let j = choose|j: int| 0 <= j < s.len() && s[j] == k;
                if j < i {
                    assert(t[j] == k);
                } else {
                    assert(t[j - 1] == k);
                }
            }
        }
    }
    key
}

impl<const D: usize, T: VoxelBytes, Meta: Copy, B: BytesCompression> CompressibleChunkStorage<
    D,
    T,
    Meta,
    B,
> {
    /// Whether the compressed chunk `c` holds what `v` holds.
    pub open spec fn stands_for(c: CompressedChunk<D, Meta>, v: ChunkView<D, T, Meta>) -> bool {
        &&& v.metadata == c.metadata
        &&& v.array.extent == c.extent
        &&& v.array.values.len() == c.len
        &&& B::decompressed(c.bytes@) == Some(encoded_values(v.array.values))
    }

    /// What the compressed chunk `c` holds.
    pub open spec fn restored(c: CompressedChunk<D, Meta>) -> ChunkView<D, T, Meta> {
        choose|v: ChunkView<D, T, Meta>| Self::stands_for(c, v)
    }

    /// A compressed chunk stands for one chunk only.
    pub proof fn lemma_restored(c: CompressedChunk<D, Meta>, v: ChunkView<D, T, Meta>)
        requires
            Self::stands_for(c, v),
        ensures
            Self::restored(c) == v,
            Self::stands_for(c, Self::restored(c)),
    {
        let r = Self::restored(c);
        lemma_encoded_values_injective(r.array.values, v.array.values);
    }

    /// The keys of the chunks that are held decompressed.
    pub open spec fn live_keys(&self) -> Set<[i32; D]> {
        self.live@.dom()
    }

    /// No more chunks are live than the store's capacity allows.
    pub proof fn lemma_live_bound(&self)
        requires
            self.wf(),
        ensures
            self.live_keys().finite(),
            self.live_keys().len() <= self.capacity,
    {
        self.recency@.unique_seq_to_set();
        assert(self.recency@.to_set() =~= self.live_keys());
    }

    /// An empty store with the default capacity.
    pub fn new(compression: B) -> (r: Self)
        ensures
            r.wf(),
            r.chunks() == Map::<PointN<D>, ChunkView<D, T, Meta>>::empty(),
            r.capacity == DEFAULT_CAPACITY,
            r.compression == compression,
    {
        Self::with_capacity(compression, DEFAULT_CAPACITY)
    }

    /// An empty store that keeps at most `capacity` chunks decompressed.
    pub fn with_capacity(compression: B, capacity: usize) -> (r: Self)
        requires
            capacity > 0,
        ensures
            r.wf(),
            r.chunks() == Map::<PointN<D>, ChunkView<D, T, Meta>>::empty(),
            r.capacity == capacity,
            r.compression == compression,
    {
        let r = CompressibleChunkStorage {
            compression,
            capacity,
            live: FnvHashMap::default(),
            compressed: FnvHashMap::default(),
            recency: Vec::new(),
        };
        proof {
            assert(r.chunks() =~= Map::<PointN<D>, ChunkView<D, T, Meta>>::empty());
        }
        r
    }

    /// How many chunks are held decompressed; never more than the capacity.
    pub fn live_count(&self) -> (n: usize)
        requires
            self.wf(),
        ensures
            n == self.live_keys().len(),
            n <= self.capacity,
    {
        proof {
            self.recency@.unique_seq_to_set();
            assert(self.recency@.to_set() =~= self.live_keys());
        }
        self.recency.len()
    }

    /// Whether the chunk at `key` is held decompressed.
    pub fn is_live(&self, key: &PointN<D>) -> (r: bool)
        ensures
            r == self.live_keys().contains(key.0),
    {
        map_contains(&self.live, &key.0)
    }

    /// The compressed form of `chunk`.
    fn compress_chunk(compression: &B, chunk: Chunk<D, T, Meta>) -> (c: CompressedChunk<D, Meta>)
        ensures
            Self::stands_for(c, chunk@),
            Self::restored(c) == chunk@,
    {
        let bytes = encode_values(&chunk.array.values);
        let packed = compression.compress_bytes(bytes.as_slice());
        let c = CompressedChunk {
            metadata: chunk.metadata,
            extent: chunk.array.extent,
            len: chunk.array.values.len(),
            bytes: packed,
        };
        proof {
            Self::lemma_restored(c, chunk@);
        }
        c
    }

    /// The chunk that `c` stands for.
    fn decompress_chunk(c: CompressedChunk<D, Meta>) -> (chunk: Chunk<D, T, Meta>)
        requires
            Self::stands_for(c, Self::restored(c)),
        ensures
            chunk@ == Self::restored(c),
    {
        let ghost v = Self::restored(c);
        let unpacked = B::decompress_bytes(c.bytes.as_slice());
        let bytes = unpacked.unwrap();
        proof {
            lemma_encoded_len(v.array.values);
        }
        let values = decode_values::<T>(bytes.as_slice(), c.len);
        let chunk = Chunk { metadata: c.metadata, array: Array { extent: c.extent, values } };
        proof {
            assert(encoded_values(v.array.values) == bytes@);
            assert(chunk@.array.values == v.array.values);
        }
        chunk
    }

    /// Marks the live chunk at `key` as the one used last.
    fn touch(&mut self, key: &[i32; D])
        requires
            old(self).wf(),
            old(self).live@.contains_key(*key),
        ensures
            final(self).wf(),
            final(self).live == old(self).live,
            final(self).compressed == old(self).compressed,
            final(self).capacity == old(self).capacity,
            final(self).compression == old(self).compression,
            final(self).recency@ == after_use(
                old(self).recency@,
                *key,
                old(self).capacity as int,
            ),
    {
        let found = position(&self.recency, key);
        assert(self.recency@.contains(*key));
        let i = found.unwrap();
        let k = take_key(&mut self.recency, i);
        let ghost rest = self.recency@;
        self.recency.push(k);
        proof {
            assert forall|a: [i32; D]| self.live@.contains_key(a) <==> self.recency@.contains(
                a,
            ) by {
                if self.recency@.contains(a) {
                    let j = choose|j: int| 0 <= j < self.recency@.len() && self.recency@[j] == a;
                    if j < rest.len() {
                        assert(rest[j] == a);
                        assert(rest.contains(a));
                    }
                }
                if self.live@.contains_key(a) {
                    if a == k {
                        assert(self.recency@[rest.len() as int] == a);
                    } else {
                        assert(rest.contains(a));
                        let j = choose|j: int| 0 <= j < rest.len() && rest[j] == a;
                        assert(self.recency@[j] == a);
                    }
                }
            }
            assert forall|a: int, b: int|
                0 <= a < self.recency@.len() && 0 <= b < self.recency@.len() && a
                    != b implies self.recency@[a] != self.recency@[b] by {
                if a < rest.len() {
                    assert(rest.contains(rest[a]));
                }
                if b < rest.len() {
                    assert(rest.contains(rest[b]));
                }
            }
        }
    }

    /// Takes `chunk` in as the live chunk at `key`, used last.
    fn take_in_live(&mut self, key: [i32; D], chunk: Chunk<D, T, Meta>)
        requires
            old(self).wf(),
            old(self).recency@.len() < old(self).capacity,
            !old(self).live@.contains_key(key),
            !old(self).compressed@.contains_key(key),
        ensures
            final(self).wf(),
            final(self).live@ == old(self).live@.insert(key, chunk),
            final(self).recency@ == old(self).recency@.push(key),
            final(self).compressed == old(self).compressed,
            final(self).capacity == old(self).capacity,
            final(self).compression == old(self).compression,
    {
        map_insert(&mut self.live, key, chunk);
        self.recency.push(key);
        proof {
            let s = self.recency@;
            let t = old(self).recency@;
            assert(s[s.len() - 1] == key);
            assert forall|k: [i32; D]| self.live@.contains_key(k) <==> s.contains(k) by {
                if s.contains(k) {
                    let j = choose|j: int| 0 <= j < s.len() && s[j] == k;
                    if j < t.len() {
                        assert(t[j] == k);
                        assert(t.contains(k));
                    }
                }
                if self.live@.contains_key(k) && k != key {
                    assert(t.contains(k));
                    let j = choose|j: int| 0 <= j < t.len() && t[j] == k;
                    assert(s[j] == k);
                }
            }
            assert forall|a: int, b: int|
                0 <= a < s.len() && 0 <= b < s.len() && a != b implies s[a] != s[b] by {
                if a < t.len() {
                    assert(t.contains(t[a]));
                }
                if b < t.len() {
                    assert(t.contains(t[b]));
                }
            }
        }
    }

    /// Compresses the live chunk that was used longest ago, if the store is
    /// full, so that one more chunk can be live.
    fn make_room(&mut self)
        requires
            old(self).wf(),
        ensures
            final(self).wf(),
            final(self).recency@.len() < final(self).capacity,
            final(self).recency@ == with_room(old(self).recency@, old(self).capacity as int),
            final(self).chunks() == old(self).chunks(),
            final(self).capacity == old(self).capacity,
            final(self).compression == old(self).compression,
            forall|k: [i32; D]|
                final(self).live@.contains_key(k) ==> old(self).live@.contains_key(k)
                    && final(self).live@[k] == old(self).live@[k],
            forall|k: [i32; D]|
                old(self).compressed@.contains_key(k) ==> final(self).compressed@.contains_key(k)
                    && final(self).compressed@[k] == old(self).compressed@[k],
    {
        if self.recency.len() >= self.capacity {
            assert(self.recency@.contains(self.recency@[0]));
            let key = take_key(&mut self.recency, 0);
            let removed = map_remove(&mut self.live, &key);
            let chunk = removed.unwrap();
            let c = Self::compress_chunk(&self.compression, chunk);
            map_insert(&mut self.compressed, key, c);
            proof {
                assert(self.chunks() =~= old(self).chunks());
                assert(self.recency@ =~= old(self).recency@.drop_first());
            }
        }
    }
}

impl<const D: usize, T: VoxelBytes, Meta: Copy, B: BytesCompression> ChunkWriteStorage<
    D,
    T,
    Meta,
> for CompressibleChunkStorage<D, T, Meta, B> {
    open spec fn chunks(&self) -> Map<PointN<D>, ChunkView<D, T, Meta>> {
        Map::new(
            |key: PointN<D>|
                self.live@.contains_key(key.0) || self.compressed@.contains_key(key.0),
            |key: PointN<D>|
                if self.live@.contains_key(key.0) {
                    self.live@[key.0]@
                } else {
                    Self::restored(self.compressed@[key.0])
                },
        )
    }

    open spec fn wf(&self) -> bool {
        &&& self.capacity >= 1
        &&& self.recency@.len() <= self.capacity
        &&& self.recency@.no_duplicates()
        &&& forall|k: [i32; D]| self.live@.contains_key(k) <==> self.recency@.contains(k)
        &&& forall|k: [i32; D]|
            self.compressed@.contains_key(k) ==> !self.live@.contains_key(k) && Self::stands_for(
                self.compressed@[k],
                Self::restored(self.compressed@[k]),
            )
    }

    open spec fn live_capacity(&self) -> Option<nat> {
        Some(self.capacity as nat)
    }

    open spec fn recency(&self) -> Seq<PointN<D>> {
        as_points(self.recency@)
    }

    proof fn lemma_recency(&self) {
        lemma_points_without_key(self.recency@, self.recency@[0]);
        assert forall|key: PointN<D>| self.recency().contains(key) implies self.chunks().contains_key(
            key,
        ) by {
            let j = choose|j: int| 0 <= j < self.recency().len() && self.recency()[j] == key;
            assert(self.recency@[j] == key.0);
            assert(self.recency@.contains(key.0));
        }
    }

    fn contains_chunk(&self, key: &PointN<D>) -> (r: bool) {
        map_contains(&self.live, &key.0) || map_contains(&self.compressed, &key.0)
    }

    /// The chunk at `key` is decompressed if need be and counts as used
    /// last; if that leaves no room, the live chunk used longest ago is
    /// compressed.
    fn get_mut(&mut self, key: &PointN<D>) -> (r: Option<&mut Chunk<D, T, Meta>>)
        ensures
            final(self).capacity == old(self).capacity,
            final(self).recency@ == if old(self).chunks().contains_key(*key) {
                after_use(old(self).recency@, key.0, old(self).capacity as int)
            } else {
                old(self).recency@
            },
    {
        if map_contains(&self.live, &key.0) {
            self.touch(&key.0);
        } else if map_contains(&self.compressed, &key.0) {
            let c = map_remove(&mut self.compressed, &key.0).unwrap();
            let chunk = Self::decompress_chunk(c);
            proof {
                assert(self.chunks() =~= old(self).chunks().remove(*key));
                assert(chunk@ == old(self).chunks()[*key]);
            }
            self.make_room();
            proof {
                assert(!self.chunks().contains_key(*key));
            }
            let ghost mid = *self;
            self.take_in_live(key.0, chunk);
            proof {
                assert(mid.chunks() == old(self).chunks().remove(*key));
                assert(self.chunks() =~= mid.chunks().insert(*key, chunk@));
                assert(old(self).chunks().contains_key(*key));
                assert(self.chunks() =~= old(self).chunks());
            }
        } else {
            return None;
        }
        proof {
            let before = *self;
            assert(before.chunks() == old(self).chunks());
            lemma_points_after_use(old(self).recency@, key.0, old(self).capacity as int);
            assert(before.recency() == after_use(
                old(self).recency(),
                *key,
                old(self).capacity as int,
            ));
            assert forall|after: Self, chunk: Chunk<D, T, Meta>|
                after.live@ == before.live@.insert(key.0, chunk) && after.compressed
                    == before.compressed && after.recency == before.recency && after.capacity
                    == before.capacity implies #[trigger] after.chunks() == before.chunks().insert(
                *key,
                #[trigger] chunk@,
            ) && after.wf() && after.recency() == before.recency() by {
                assert(after.chunks() =~= before.chunks().insert(*key, chunk@));
            }
        }
        map_get_mut(&mut self.live, &key.0)
    }

    /// The new chunk is live and counts as used last; if that leaves no
    /// room, the live chunk used longest ago is compressed.
    fn insert(&mut self, key: PointN<D>, chunk: Chunk<D, T, Meta>) -> (r: Option<
        Chunk<D, T, Meta>,
    >)
        ensures
            final(self).capacity == old(self).capacity,
            final(self).recency@ == after_use(old(self).recency@, key.0, old(self).capacity as int),
    {
        proof {
            lemma_points_after_use(self.recency@, key.0, self.capacity as int);
        }
        let previous = self.remove(&key);
        self.make_room();
        proof {
            assert(!self.chunks().contains_key(key));
        }
        let ghost mid = *self;
        self.take_in_live(key.0, chunk);
        proof {
            assert(mid.chunks() == old(self).chunks().remove(key));
            assert(self.chunks() =~= mid.chunks().insert(key, chunk@));
            assert(self.chunks() =~= old(self).chunks().insert(key, chunk@));
        }
        previous
    }

    /// The other live chunks keep their order of use.
    fn remove(&mut self, key: &PointN<D>) -> (r: Option<Chunk<D, T, Meta>>)
        ensures
            final(self).capacity == old(self).capacity,
            final(self).recency@ == without_key(old(self).recency@, key.0),
    {
        proof {
            lemma_points_without_key(self.recency@, key.0);
        }
        if map_contains(&self.live, &key.0) {
            let found = position(&self.recency, &key.0);
            assert(self.recency@.contains(key.0));
            let i = found.unwrap();
            take_key(&mut self.recency, i);
            let r = map_remove(&mut self.live, &key.0);
            proof {
                assert(self.chunks() =~= old(self).chunks().remove(*key));
            }
            r
        } else if map_contains(&self.compressed, &key.0) {
            let c = map_remove(&mut self.compressed, &key.0).unwrap();
            let chunk = Self::decompress_chunk(c);
            proof {
                assert(self.chunks() =~= old(self).chunks().remove(*key));
            }
            Some(chunk)
        } else {
            proof {
                assert(self.chunks() =~= old(self).chunks().remove(*key));
            }
            None
        }
    }

    fn keys(&self) -> (v: Vec<PointN<D>>) {
        let live = map_keys(&self.live);
        let compressed = map_keys(&self.compressed);
        let mut v: Vec<PointN<D>> = Vec::new();
        let mut i: usize = 0;
        while i < live.len()
            invariant
                i <= live.len(),
                v.len() == i,
                forall|j: int| 0 <= j < i ==> (#[trigger] v[j]).0 == live[j],
            decreases live.len() - i,
        {
            v.push(PointN(live[i]));
            i += 1;
        }
        let mut i: usize = 0;
        while i < compressed.len()
            invariant
                i <= compressed.len(),
                v.len() == live.len() + i,
                forall|j: int| 0 <= j < live.len() ==> (#[trigger] v[j]).0 == live[j],
                forall|j: int| 0 <= j < i ==> (#[trigger] v[live.len() + j]).0 == compressed[j],
            decreases compressed.len() - i,
        {
            v.push(PointN(compressed[i]));
            i += 1;
        }
        proof {
            let n = live@.len() as int;
            assert forall|key: PointN<D>| v@.contains(key) <==> self.chunks().contains_key(
                key,
            ) by {
                if v@.contains(key) {
                    let j = choose|j: int| 0 <= j < v@.len() && v@[j] == key;
                    if j < n {
                        assert(live@[j] == key.0);
                        assert(live@.contains(key.0));
                    } else {
                        assert(v@[n + (j - n)].0 == compressed@[j - n]);
                        assert(compressed@.contains(key.0));
                    }
                }
                if self.chunks().contains_key(key) {
                    if self.live@.contains_key(key.0) {
                        assert(live@.contains(key.0));
                        let j = choose|j: int| 0 <= j < n && live@[j] == key.0;
                        assert(v@[j].0 == key.0);
                        assert(v@[j] == key);
                    } else {
                        assert(compressed@.contains(key.0));
                        let j = choose|j: int| 0 <= j < compressed@.len() && compressed@[j] == key.0;
                        assert(v@[n + j].0 == key.0);
                        assert(v@[n + j] == key);
                    }
                }
            }
            assert forall|a: int, b: int|
                0 <= a < v@.len() && 0 <= b < v@.len() && a != b implies v@[a] != v@[b] by {
                if a < n {
                    assert(v@[a].0 == live@[a]);
                    assert(live@.contains(live@[a]));
                } else {
                    assert(v@[n + (a - n)].0 == compressed@[a - n]);
                    assert(compressed@.contains(compressed@[a - n]));
                }
                if b < n {
                    assert(v@[b].0 == live@[b]);
                    assert(live@.contains(live@[b]));
                } else {
                    assert(v@[n + (b - n)].0 == compressed@[b - n]);
                    assert(compressed@.contains(compressed@[b - n]));
                }
            }
        }
        v
    }
}

} // verus!
