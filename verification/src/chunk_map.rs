//! A map from chunk keys to chunks of one shape, over any chunk store, with
//! an ambient value that stands for every chunk that is absent.
use crate::array::{Array, ArrayView};
use crate::extent::{product, ExtentN};
use crate::indexer::ChunkIndexer;
use crate::point::PointN;
use crate::storage::{
    lemma_after_use, recency_after_removal, recency_after_use, Chunk, ChunkReadStorage, ChunkView,
    ChunkWriteStorage,
};
use vstd::prelude::*;

verus! {

/// What every chunk map of one kind has in common: the shape of its chunks,
/// the ambient value and the metadata that a new chunk starts with.
#[derive(Clone, Copy, Debug)]
pub struct ChunkMapBuilder<const D: usize, T, Meta> {
    pub chunk_shape: PointN<D>,
    pub ambient_value: T,
    pub default_chunk_metadata: Meta,
}

/// A map from chunk keys to chunks, kept in a store of type `Store`.
pub struct ChunkMap<const D: usize, T, Meta, Store> {
    pub indexer: ChunkIndexer<D>,
    pub ambient_value: T,
    pub default_chunk_metadata: Meta,
    pub storage: Store,
}

/// What a chunk map holds: its settings, the bound on decompressed chunks,
/// and its chunks by key. Which chunks are decompressed at the moment, and
/// in which order they were used, is the store's own state: see
/// `ChunkWriteStorage::recency`.
#[verifier::reject_recursive_types(D)]
pub struct LevelView<const D: usize, T, Meta> {
    pub indexer: ChunkIndexer<D>,
    pub ambient_value: T,
    pub default_chunk_metadata: Meta,
    pub live_capacity: Option<nat>,
    pub chunks: Map<PointN<D>, ChunkView<D, T, Meta>>,
}

impl<const D: usize, T, Meta> LevelView<D, T, Meta> {
    /// The chunk that stands at `key` before anything is written there.
    pub open spec fn ambient_chunk(self, key: PointN<D>) -> ChunkView<D, T, Meta> {
        ChunkView {
            metadata: self.default_chunk_metadata,
            array: ArrayView {
                extent: self.indexer.spec_extent_for_chunk_at_key(key),
                values: Seq::new(
                    product(self.indexer.chunk_shape@) as nat,
                    |k: int| self.ambient_value,
                ),
            },
        }
    }

    /// The chunk at `key`, or the ambient chunk where there is none.
    pub open spec fn chunk_or_ambient(self, key: PointN<D>) -> ChunkView<D, T, Meta> {
        if self.chunks.contains_key(key) {
            self.chunks[key]
        } else {
            self.ambient_chunk(key)
        }
    }

    /// Every key is the minimum of a chunk inside the world's bounds, and
    /// every chunk holds a valid array over the box of its key.
    pub open spec fn chunks_valid(self) -> bool {
        forall|key: PointN<D>| #[trigger]
            self.chunks.contains_key(key) ==> self.indexer.key_in_bounds(key@)
                && self.indexer.is_aligned(key@)
                && self.chunks[key].array.wf() && self.indexer.is_extent_of_chunk(
                self.chunks[key].array.extent,
                key,
            )
    }

    /// Whether `extent` is the smallest box that covers the box of every
    /// chunk of the map. For a map without chunks it is the empty box at the
    /// origin.
    pub open spec fn is_bounding_extent(self, extent: ExtentN<D>) -> bool {
        let shape = self.indexer.chunk_shape@;
        if forall|key: PointN<D>| !self.chunks.contains_key(key) {
            forall|i: int| 0 <= i < D ==> #[trigger] extent.minimum@[i] == 0 && extent.shape@[i] == 0
        } else {
            &&& forall|key: PointN<D>, i: int|
                #![trigger self.chunks.contains_key(key), key@[i]]
                self.chunks.contains_key(key) && 0 <= i < D ==> extent.minimum@[i] <= key@[i] && key@[i] + shape[i] <= extent.minimum@[i]
                    + extent.shape@[i]
            &&& forall|i: int|
                #![trigger extent.minimum@[i]]
                0 <= i < D ==> exists|key: PointN<D>| #[trigger]
                    self.chunks.contains_key(key) && key@[i] == extent.minimum@[i]
            &&& forall|i: int|
                #![trigger extent.shape@[i]]
                0 <= i < D ==> exists|key: PointN<D>| #[trigger]
                    self.chunks.contains_key(key) && key@[i] + shape[i]
                        == extent.minimum@[i] + extent.shape@[i]
        }
    }

    /// The smallest box that covers the box of every chunk.
    pub open spec fn bounding_extent(self) -> ExtentN<D> {
        choose|e: ExtentN<D>| self.is_bounding_extent(e)
    }

    /// A map has one bounding box only.
    pub proof fn lemma_bounding_extent_unique(self, a: ExtentN<D>, b: ExtentN<D>)
        requires
            self.is_bounding_extent(a),
            self.is_bounding_extent(b),
        ensures
            a == b,
    {
        let shape = self.indexer.chunk_shape@;
        if forall|key: PointN<D>| !self.chunks.contains_key(key) {
            assert forall|i: int| 0 <= i < D implies a.minimum@[i] == b.minimum@[i] && a.shape@[i]
                == b.shape@[i] by {
                assert(a.minimum@[i] == 0 && b.minimum@[i] == 0);
            }
        } else {
            assert forall|i: int| 0 <= i < D implies a.minimum@[i] == b.minimum@[i] && a.shape@[i]
                == b.shape@[i] by {
                let ka = choose|key: PointN<D>| #[trigger]
                    self.chunks.contains_key(key) && key@[i] == a.minimum@[i];
                let kb = choose|key: PointN<D>| #[trigger]
                    self.chunks.contains_key(key) && key@[i] == b.minimum@[i];
                assert(self.chunks.contains_key(ka) && ka@[i] == a.minimum@[i]);
                assert(self.chunks.contains_key(kb) && kb@[i] == b.minimum@[i]);
                assert(b.minimum@[i] <= ka@[i]);
                assert(a.minimum@[i] <= kb@[i]);
                let ha = choose|key: PointN<D>| #[trigger]
                    self.chunks.contains_key(key) && key@[i] + shape[i] == a.minimum@[i]
                        + a.shape@[i];
                let hb = choose|key: PointN<D>| #[trigger]
                    self.chunks.contains_key(key) && key@[i] + shape[i] == b.minimum@[i]
                        + b.shape@[i];
                assert(a.shape@[i] == a.shape@[i]);
                assert(b.shape@[i] == b.shape@[i]);
                assert(self.chunks.contains_key(ha) && ha@[i] + shape[i]
                    == a.minimum@[i] + a.shape@[i]);
                assert(self.chunks.contains_key(hb) && hb@[i] + shape[i]
                    == b.minimum@[i] + b.shape@[i]);
                assert(ha@[i] + shape[i] <= b.minimum@[i] + b.shape@[i]);
                assert(hb@[i] + shape[i] <= a.minimum@[i] + a.shape@[i]);
            }
        }
        assert(a.minimum@ =~= b.minimum@);
        assert(a.shape@ =~= b.shape@);
        crate::point::lemma_point_ext(a.minimum, b.minimum);
        crate::point::lemma_point_ext(a.shape, b.shape);
    }

    /// The same settings with other chunks.
    pub open spec fn with_chunks(self, chunks: Map<PointN<D>, ChunkView<D, T, Meta>>) -> Self {
        LevelView { chunks, ..self }
    }
}

impl<const D: usize, T, Meta, Store: ChunkWriteStorage<D, T, Meta>> View for ChunkMap<
    D,
    T,
    Meta,
    Store,
> {
    type V = LevelView<D, T, Meta>;

    open spec fn view(&self) -> LevelView<D, T, Meta> {
        LevelView {
            indexer: self.indexer,
            ambient_value: self.ambient_value,
            default_chunk_metadata: self.default_chunk_metadata,
            live_capacity: self.storage.live_capacity(),
            chunks: self.storage.chunks(),
        }
    }
}

impl<const D: usize, T: Copy, Meta: Copy> ChunkMapBuilder<D, T, Meta> {
    /// Every side of the chunk shape is a power of two, and the number of
    /// voxels of a chunk fits `usize`.
    pub open spec fn valid(self) -> bool {
        &&& self.chunk_shape.is_pow2_shape()
        &&& product(self.chunk_shape@) <= usize::MAX
    }

    /// A chunk map over `storage`.
    pub fn build_with_write_storage<Store: ChunkWriteStorage<D, T, Meta>>(
        self,
        storage: Store,
    ) -> (map: ChunkMap<D, T, Meta, Store>)
        requires
            self.valid(),
            storage.wf(),
        ensures
            map.wf(),
            map.storage == storage,
            map.indexer == ChunkIndexer::<D>::spec_new(self.chunk_shape),
            map.indexer.chunk_shape == self.chunk_shape,
            map.ambient_value == self.ambient_value,
            map.default_chunk_metadata == self.default_chunk_metadata,
    {
        ChunkMap {
            indexer: ChunkIndexer::new(self.chunk_shape),
            ambient_value: self.ambient_value,
            default_chunk_metadata: self.default_chunk_metadata,
            storage,
        }
    }
}

impl<const D: usize, T: Copy, Meta: Copy, Store: ChunkWriteStorage<D, T, Meta>> ChunkMap<
    D,
    T,
    Meta,
    Store,
> {
    /// The indexer and the store are valid, and the number of voxels of a
    /// chunk fits `usize`.
    pub open spec fn wf(self) -> bool {
        &&& self.indexer.wf()
        &&& self.storage.wf()
        &&& product(self.indexer.chunk_shape@) <= usize::MAX
    }

    /// The chunks in the map, by key.
    pub open spec fn chunks(self) -> Map<PointN<D>, ChunkView<D, T, Meta>> {
        self.storage.chunks()
    }

    /// Whether `other` differs from `self` in its chunks at most: the
    /// indexer, the ambient value, the default metadata and the bound on
    /// decompressed chunks are the same.
    pub open spec fn same_settings(self, other: Self) -> bool {
        &&& self.indexer == other.indexer
        &&& self.ambient_value == other.ambient_value
        &&& self.default_chunk_metadata == other.default_chunk_metadata
        &&& self.storage.live_capacity() == other.storage.live_capacity()
    }

    /// The chunk that stands at `key` before anything is written there: it
    /// covers the box of that key, holds the ambient value everywhere, and
    /// carries the default metadata.
    pub open spec fn ambient_chunk(self, key: PointN<D>) -> ChunkView<D, T, Meta> {
        self@.ambient_chunk(key)
    }

    /// Every chunk of the map lies inside the range of `i32`.
    pub open spec fn keys_in_bounds(self) -> bool {
        forall|key: PointN<D>| #[trigger]
            self.chunks().contains_key(key) ==> self.indexer.key_in_bounds(key@)
    }

    /// No more chunks are held decompressed than the store's capacity
    /// allows, whatever was done to the map.
    pub proof fn lemma_live_bound(self)
        requires
            self.wf(),
        ensures
            self.storage.live_capacity() matches Some(c) ==> self.storage.recency().len() <= c,
    {
        self.storage.lemma_recency();
    }

    /// The value of every voxel of a chunk that does not exist.
    pub fn ambient_value(&self) -> (value: T)
        ensures
            value == self.ambient_value,
    {
        self.ambient_value
    }

    /// The shape of every chunk.
    pub fn chunk_shape(&self) -> (shape: PointN<D>)
        ensures
            shape == self.indexer.chunk_shape,
    {
        self.indexer.chunk_shape()
    }

    /// The builder of maps like this one.
    pub fn builder(&self) -> (b: ChunkMapBuilder<D, T, Meta>)
        ensures
            b.chunk_shape == self.indexer.chunk_shape,
            b.ambient_value == self.ambient_value,
            b.default_chunk_metadata == self.default_chunk_metadata,
    {
        ChunkMapBuilder {
            chunk_shape: self.indexer.chunk_shape(),
            ambient_value: self.ambient_value,
            default_chunk_metadata: self.default_chunk_metadata,
        }
    }

    /// A chunk for `key` with the ambient value at every voxel.
    pub fn new_ambient_chunk(&self, key: PointN<D>) -> (chunk: Chunk<D, T, Meta>)
        requires
            self.wf(),
            self.indexer.key_in_bounds(key@),
        ensures
            chunk@ == self.ambient_chunk(key),
            chunk.array.wf(),
            self.indexer.is_extent_of_chunk(chunk.array.extent, key),
    {
        let extent = self.indexer.extent_for_chunk_at_key(key);
        Chunk {
            metadata: self.default_chunk_metadata,
            array: Array::fill(extent, self.ambient_value),
        }
    }

    /// The chunk at `key`, to be changed in place; `None` if there is none.
    pub fn get_mut_chunk(&mut self, key: &PointN<D>) -> (r: Option<&mut Chunk<D, T, Meta>>)
        requires
            old(self).wf(),
        ensures
            final(self).wf(),
            old(self).same_settings(*final(self)),
            final(self).storage.recency() == if old(self).chunks().contains_key(*key) {
                recency_after_use(
                    old(self).storage.recency(),
                    *key,
                    old(self).storage.live_capacity(),
                )
            } else {
                old(self).storage.recency()
            },
            r is Some <==> old(self).chunks().contains_key(*key),
            match r {
                Some(chunk) => chunk@ == old(self).chunks()[*key] && final(self).chunks() == old(self).chunks().insert(*key, final(chunk)@),
                None => final(self).chunks() == old(self).chunks(),
            },
    {
        self.storage.get_mut(key)
    }

    /// The chunk at `key`, to be changed in place. If there is none, one
    /// filled with the ambient value is put there first.
    pub fn get_mut_chunk_or_insert_ambient(&mut self, key: PointN<D>) -> (chunk: &mut Chunk<
        D,
        T,
        Meta,
    >)
        requires
            old(self).wf(),
            old(self).indexer.key_in_bounds(key@),
        ensures
            final(self).wf(),
            old(self).same_settings(*final(self)),
            final(self).storage.recency() == recency_after_use(
                old(self).storage.recency(),
                key,
                old(self).storage.live_capacity(),
            ),
            old(self).chunks().contains_key(key) ==> chunk@ == old(self).chunks()[key],
            !old(self).chunks().contains_key(key) ==> chunk@ == old(self).ambient_chunk(key)
                && chunk@.array.wf() && old(self).indexer.is_extent_of_chunk(
                chunk.array.extent,
                key,
            ),
            final(self).chunks() == old(self).chunks().insert(key, final(chunk)@),
    {
        proof {
            self.storage.lemma_recency();
            if let Some(c) = self.storage.live_capacity() {
                lemma_after_use(self.storage.recency(), key, c as int);
            }
        }
        if !self.storage.contains_chunk(&key) {
            let chunk = self.new_ambient_chunk(key);
            self.storage.insert(key, chunk);
        }
        assert(self.chunks().insert(key, self.chunks()[key]) =~= self.chunks());
        self.storage.get_mut(&key).unwrap()
    }

    /// Puts `chunk` at `key` and returns the chunk that was there.
    pub fn write_chunk(&mut self, key: PointN<D>, chunk: Chunk<D, T, Meta>) -> (r: Option<
        Chunk<D, T, Meta>,
    >)
        requires
            old(self).wf(),
        ensures
            final(self).wf(),
            old(self).same_settings(*final(self)),
            final(self).storage.recency() == recency_after_use(
                old(self).storage.recency(),
                key,
                old(self).storage.live_capacity(),
            ),
            final(self).chunks() == old(self).chunks().insert(key, chunk@),
            r is Some <==> old(self).chunks().contains_key(key),
            r matches Some(previous) ==> previous@ == old(self).chunks()[key],
    {
        self.storage.insert(key, chunk)
    }

    /// Takes the chunk at `key` out of the map.
    pub fn remove_chunk(&mut self, key: &PointN<D>) -> (r: Option<Chunk<D, T, Meta>>)
        requires
            old(self).wf(),
        ensures
            final(self).wf(),
            old(self).same_settings(*final(self)),
            final(self).storage.recency() == recency_after_removal(
                old(self).storage.recency(),
                *key,
                old(self).storage.live_capacity(),
            ),
            final(self).chunks() == old(self).chunks().remove(*key),
            r is Some <==> old(self).chunks().contains_key(*key),
            r matches Some(previous) ==> previous@ == old(self).chunks()[*key],
    {
        self.storage.remove(key)
    }

    /// Whether `extent` is the smallest box that covers the box of every
    /// chunk of the map. For a map without chunks it is the empty box at the
    /// origin.
    pub open spec fn is_bounding_extent(self, extent: ExtentN<D>) -> bool {
        self@.is_bounding_extent(extent)
    }

    /// The smallest box that covers the box of every chunk of the map.
    pub fn bounding_extent(&self) -> (extent: ExtentN<D>)
        requires
            self.wf(),
            self.keys_in_bounds(),
        ensures
            extent.wf(),
            self.is_bounding_extent(extent),
            extent == self@.bounding_extent(),
    {
        let keys = self.storage.keys();
        proof {
            assert forall|key: PointN<D>| #[trigger]
                self@.chunks.contains_key(key) implies self.indexer.key_in_bounds(key@) by {
                assert(self.chunks().contains_key(key));
            }
        }
        if keys.len() == 0 {
            let zero: PointN<D> = PointN::zero();
            let extent = ExtentN::from_min_and_shape(zero, zero);
            proof {
                assert forall|key: PointN<D>| !self@.chunks.contains_key(key) by {
                    assert(!keys@.contains(key));
                }
                assert(self@.is_bounding_extent(extent));
                self@.lemma_bounding_extent_unique(extent, self@.bounding_extent());
            }
            return extent;
        }
        let ghost shape = self.indexer.chunk_shape@;
        assert(keys@.contains(keys@[0]));
        assert(self@.chunks.contains_key(keys@[0]));
        let first = self.indexer.extent_for_chunk_at_key(keys[0]);
        let mut minimum = first.minimum;
        let mut lub = first.least_upper_bound();
        let ghost mut low: Seq<PointN<D>> = Seq::new(D as nat, |i: int| keys@[0]);
        let ghost mut high: Seq<PointN<D>> = Seq::new(D as nat, |i: int| keys@[0]);
        let mut n: usize = 1;
        while n < keys.len()
            invariant
                1 <= n <= keys.len(),
                self.wf(),
                forall|key: PointN<D>| #[trigger]
                    self@.chunks.contains_key(key) ==> self.indexer.key_in_bounds(key@),
                shape == self.indexer.chunk_shape@,
                forall|key: PointN<D>| keys@.contains(key) <==> self@.chunks.contains_key(key),
                low.len() == D,
                high.len() == D,
                forall|i: int|
                    0 <= i < D ==> self@.chunks.contains_key(#[trigger] low[i]) && low[i]@[i] == minimum@[i],
                forall|i: int|
                    0 <= i < D ==> self@.chunks.contains_key(#[trigger] high[i]) && high[i]@[i] + shape[i] == lub@[i],
                forall|j: int, i: int|
                    #![trigger keys@[j]@[i]]
                    0 <= j < n && 0 <= i < D ==> minimum@[i] <= keys@[j]@[i]
                        && keys@[j]@[i] + shape[i] <= lub@[i],
            decreases keys.len() - n,
        {
            assert(keys@.contains(keys@[n as int]));
            assert(self@.chunks.contains_key(keys@[n as int]));
            let key = keys[n];
            let e = self.indexer.extent_for_chunk_at_key(key);
            let e_lub = e.least_upper_bound();
            let next_minimum = minimum.meet(e.minimum);
            let next_lub = lub.join(e_lub);
            proof {
                low = Seq::new(
                    D as nat,
                    |i: int|
                        if e.minimum@[i] < minimum@[i] {
                            key
                        } else {
                            low[i]
                        },
                );
                high = Seq::new(
                    D as nat,
                    |i: int|
                        if e_lub@[i] > lub@[i] {
                            key
                        } else {
                            high[i]
                        },
                );
                assert forall|j: int, i: int|
                    #![trigger keys@[j]@[i]]
                    0 <= j < n + 1 && 0 <= i < D implies next_minimum@[i] <= keys@[j]@[i]
                    && keys@[j]@[i] + shape[i] <= next_lub@[i] by {
                    assert(e.minimum@[i] == key@[i]);
                    if j < n {
                        assert(minimum@[i] <= keys@[j]@[i]);
                    }
                }
                assert forall|i: int| 0 <= i < D implies self@.chunks.contains_key(
                    #[trigger] low[i],
                ) && low[i]@[i] == next_minimum@[i] by {
                    assert(e.minimum@[i] == key@[i]);
                }
                assert forall|i: int| 0 <= i < D implies self@.chunks.contains_key(
                    #[trigger] high[i],
                ) && high[i]@[i] + shape[i] == next_lub@[i] by {
                    assert(e.minimum@[i] == key@[i]);
                }
            }
            minimum = next_minimum;
            lub = next_lub;
            n += 1;
        }
        proof {
            assert forall|i: int| 0 <= i < D implies 0 <= #[trigger] lub@[i] - minimum@[i]
                <= i32::MAX by {
                assert(self@.chunks.contains_key(low[i]));
                assert(self@.chunks.contains_key(high[i]));
                assert(self.indexer.key_in_bounds(low[i]@));
                assert(self.indexer.key_in_bounds(high[i]@));
                assert(crate::indexer::WORLD_MIN <= low[i]@[i]);
                assert(high[i]@[i] + shape[i] <= crate::indexer::WORLD_LUB);
                assert(minimum@[i] <= keys@[0]@[i]);
                assert(self.indexer.chunk_shape_log2@[i] >= 0);
                vstd::arithmetic::power2::lemma_pow2_pos(self.indexer.chunk_shape_log2@[i] as nat);
            }
        }
        let extent = ExtentN::from_min_and_lub(minimum, lub);
        proof {
            assert(self@.chunks.contains_key(keys@[0]));
            assert forall|key: PointN<D>, i: int|
                #![trigger self@.chunks.contains_key(key), key@[i]]
                self@.chunks.contains_key(key) && 0 <= i < D implies extent.minimum@[i] <= key@[i] && key@[i] + shape[i] <= extent.minimum@[i]
                + extent.shape@[i] by {
                assert(keys@.contains(key));
                let j = choose|j: int| 0 <= j < keys@.len() && keys@[j] == key;
                assert(minimum@[i] <= keys@[j]@[i]);
            }
            assert forall|i: int| #![trigger extent.minimum@[i]] 0 <= i < D implies exists|
                key: PointN<D>,
            | #[trigger]
                self@.chunks.contains_key(key) && key@[i] == extent.minimum@[i] by {
                assert(self@.chunks.contains_key(low[i]));
            }
            assert forall|i: int| #![trigger extent.shape@[i]] 0 <= i < D implies exists|
                key: PointN<D>,
            | #[trigger]
                self@.chunks.contains_key(key) && key@[i] + shape[i]
                    == extent.minimum@[i] + extent.shape@[i] by {
                assert(self@.chunks.contains_key(high[i]));
            }
            assert(self@.is_bounding_extent(extent));
            self@.lemma_bounding_extent_unique(extent, self@.bounding_extent());
        }
        extent
    }

    /// The keys of all chunks in the map, each once, in no particular order.
    pub fn chunk_keys(&self) -> (v: Vec<PointN<D>>)
        requires
            self.wf(),
        ensures
            v@.no_duplicates(),
            forall|key: PointN<D>| v@.contains(key) <==> self.chunks().contains_key(key),
    {
        self.storage.keys()
    }
}

impl<const D: usize, T: Copy, Meta: Copy, Store: ChunkReadStorage<D, T, Meta>> ChunkMap<
    D,
    T,
    Meta,
    Store,
> {
    /// The chunk at `key`; `None` if there is none.
    pub fn get_chunk(&self, key: &PointN<D>) -> (r: Option<&Chunk<D, T, Meta>>)
        requires
            self.wf(),
        ensures
            r is Some <==> self.chunks().contains_key(*key),
            r matches Some(chunk) ==> chunk@ == self.chunks()[*key],
    {
        self.storage.get(key)
    }
}

} // verus!
