//! The chunks of one level write to parts of the level above that do not
//! overlap, so what one chunk leaves there stays, whatever is downsampled
//! after it. Stated here for a chunk that is absent: its part of the level
//! above holds the ambient value after all chunks of an extent were
//! downsampled, in whatever place of the order its key came.
use crate::array::ArrayView;
use crate::chunk_map::LevelView;
use crate::downsample::ChunkDownsampler;
use crate::extent::product;
use crate::idempotence::{fold_steps, step};
use crate::point::PointN;
use crate::pyramid::{
    destination_parts_disjoint, destination_region, downsampled_chunk, lemma_destination_exists,
    lemma_destination_parts_disjoint, lemma_step_stays_in_world, level_up_shape_fits,
    DownsampleDestination, Local,
};
use vstd::arithmetic::power2::pow2;
use vstd::prelude::*;

verus! {

/// Whether the sampler keeps to the part of the destination that stands for
/// its source: the destination keeps its box, and every voxel outside the
/// part that starts at `dst_min` and has one voxel for every `2^lod_delta`
/// voxels of the source is as before.
pub open spec fn writes_within_part<const D: usize, T, Samp: ChunkDownsampler<D, T>>(
    sampler: Samp,
) -> bool {
    forall|src: ArrayView<D, T>, dst: ArrayView<D, T>, dst_min: Local<D>, lod_delta: u8|
        {
            let r = #[trigger] sampler.downsampled(src, dst, dst_min, lod_delta);
            &&& r.extent == dst.extent
            &&& r.values.len() == dst.values.len()
            &&& forall|k: int|
                0 <= k < dst.values.len() && !destination_region(
                    dst.extent,
                    dst_min,
                    src.extent.shape,
                    lod_delta as nat,
                ).contains(dst.extent.spec_point_at(k)) ==> #[trigger] r.values[k]
                    == dst.values[k]
        }
}

/// The key of the destination chunk of `key`, one level up.
pub open spec fn destination_key<const D: usize, T, Meta>(
    src: LevelView<D, T, Meta>,
    key: PointN<D>,
) -> PointN<D> {
    DownsampleDestination::spec_for_source_chunk(src.indexer.chunk_shape, key, 1).dst_chunk_key
}

/// The part of the destination chunk of `key` that stands for the chunk at
/// `key`, one level up.
pub open spec fn destination_part<const D: usize, T, Meta>(
    src: LevelView<D, T, Meta>,
    key: PointN<D>,
) -> Set<Seq<int>> {
    let d = DownsampleDestination::spec_for_source_chunk(src.indexer.chunk_shape, key, 1);
    destination_region(
        src.indexer.spec_extent_for_chunk_at_key(d.dst_chunk_key),
        d.dst_offset,
        src.indexer.chunk_shape,
        1,
    )
}

/// Whether the two levels can be source and destination of a step: they cut
/// the lattice into the same chunks, whose number of voxels fits `usize`,
/// and hold valid chunks.
pub open spec fn levels_fit<const D: usize, T, Meta>(
    src: LevelView<D, T, Meta>,
    dst: LevelView<D, T, Meta>,
) -> bool {
    &&& src.indexer.wf()
    &&& src.indexer == dst.indexer
    &&& level_up_shape_fits(src.indexer.chunk_shape, 1)
    &&& product(src.indexer.chunk_shape@) <= usize::MAX
    &&& src.chunks_valid()
    &&& dst.chunks_valid()
}

/// Whether every key of `keys` is the minimum of a chunk inside the world's
/// bounds.
pub open spec fn keys_are_chunks<const D: usize, T, Meta>(
    src: LevelView<D, T, Meta>,
    keys: Seq<PointN<D>>,
) -> bool {
    forall|j: int|
        0 <= j < keys.len() ==> src.indexer.is_aligned((#[trigger] keys[j])@)
            && src.indexer.key_in_bounds(keys[j]@)
}

/// The destination chunk of a key inside the world's bounds is a chunk
/// inside the world's bounds, and the ambient chunk there is a valid array
/// over the box of its key.
proof fn lemma_destination_chunk<const D: usize, T, Meta>(
    src: LevelView<D, T, Meta>,
    dst: LevelView<D, T, Meta>,
    key: PointN<D>,
)
    requires
        levels_fit(src, dst),
        src.indexer.key_in_bounds(key@),
    ensures
        dst.indexer.key_in_bounds(destination_key(src, key)@),
        dst.indexer.is_aligned(destination_key(src, key)@),
        dst.chunk_or_ambient(destination_key(src, key)).array.wf(),
        dst.chunk_or_ambient(destination_key(src, key)).array.extent
            == dst.indexer.spec_extent_for_chunk_at_key(destination_key(src, key)),
{
    let indexer = src.indexer;
    indexer.lemma_shape_is_pow2();
    lemma_destination_exists(indexer.chunk_shape, key, 1);
    let d = destination_key(src, key);
    assert forall|i: int| 0 <= i < D implies crate::indexer::WORLD_MIN <= #[trigger] d@[i] && d@[i]
        + indexer.chunk_shape@[i] <= crate::indexer::WORLD_LUB && d@[i] % indexer.chunk_shape@[i]
        == 0 by {
        assert(0 <= indexer.chunk_shape_log2@[i] < 31);
        assert(indexer.chunk_shape@[i] * pow2(1) <= i32::MAX);
        assert(crate::indexer::WORLD_MIN <= key@[i]);
        lemma_step_stays_in_world(indexer.chunk_shape_log2@[i] as nat, key@[i]);
    }
    if !dst.chunks.contains_key(d) {
        let e = dst.indexer.spec_extent_for_chunk_at_key(d);
        assert forall|i: int| 0 <= i < D implies #[trigger] e.shape@[i] >= 0 && e.minimum@[i]
            + e.shape@[i] <= i32::MAX by {
            assert(0 <= indexer.chunk_shape_log2@[i] < 31);
            vstd::arithmetic::power2::lemma_pow2_pos(indexer.chunk_shape_log2@[i] as nat);
            assert(crate::indexer::WORLD_MIN <= d@[i]);
        }
        assert forall|i: int| 0 <= i < D implies indexer.chunk_shape@[i] >= 1 by {
            assert(0 <= indexer.chunk_shape_log2@[i] < 31);
            vstd::arithmetic::power2::lemma_pow2_pos(indexer.chunk_shape_log2@[i] as nat);
        }
        crate::extent::lemma_product_positive(indexer.chunk_shape@);
    }
}

/// A step leaves a valid destination level, with the destination chunk in
/// it.
proof fn lemma_step_valid<const D: usize, T, Meta, Samp: ChunkDownsampler<D, T>>(
    sampler: Samp,
    src: LevelView<D, T, Meta>,
    dst: LevelView<D, T, Meta>,
    key: PointN<D>,
)
    requires
        writes_within_part(sampler),
        levels_fit(src, dst),
        src.indexer.key_in_bounds(key@),
    ensures
        levels_fit(src, step(sampler, src, dst, key)),
        step(sampler, src, dst, key).chunks.contains_key(destination_key(src, key)),
{
    lemma_destination_chunk(src, dst, key);
    let d = destination_key(src, key);
    let after = step(sampler, src, dst, key);
    let before = dst.chunk_or_ambient(d);
    let made = downsampled_chunk(sampler, src, dst, key, 1u8);
    assert(made.array.extent == before.array.extent && made.array.values.len()
        == before.array.values.len());
    assert forall|other: PointN<D>| #[trigger] after.chunks.contains_key(other) implies after.indexer.key_in_bounds(
        other@,
    ) && after.indexer.is_aligned(other@) && after.chunks[other].array.wf()
        && after.indexer.is_extent_of_chunk(after.chunks[other].array.extent, other) by {
        if other != d {
            assert(dst.chunks.contains_key(other));
        }
    }
}

/// A step for another chunk leaves the part of this chunk alone.
proof fn lemma_step_elsewhere<const D: usize, T, Meta, Samp: ChunkDownsampler<D, T>>(
    sampler: Samp,
    src: LevelView<D, T, Meta>,
    dst: LevelView<D, T, Meta>,
    key: PointN<D>,
    other: PointN<D>,
    p: Seq<int>,
)
    requires
        writes_within_part(sampler),
        levels_fit(src, dst),
        src.indexer.is_aligned(key@),
        src.indexer.key_in_bounds(key@),
        src.indexer.is_aligned(other@),
        src.indexer.key_in_bounds(other@),
        key != other,
        dst.chunks.contains_key(destination_key(src, key)),
        destination_part(src, key).contains(p),
        src.indexer.spec_extent_for_chunk_at_key(destination_key(src, key)).contains(p),
    ensures
        step(sampler, src, dst, other).chunks.contains_key(destination_key(src, key)),
        step(sampler, src, dst, other).chunks[destination_key(src, key)].array.value_at(p)
            == dst.chunks[destination_key(src, key)].array.value_at(p),
{
    let indexer = src.indexer;
    let d = destination_key(src, key);
    let e = destination_key(src, other);
    lemma_destination_chunk(src, dst, other);
    lemma_destination_parts_disjoint(indexer, key, other, 1);
    assert(destination_parts_disjoint(indexer, key, other, 1));
    if d == e {
        let target = DownsampleDestination::spec_for_source_chunk(indexer.chunk_shape, other, 1);
        let before = dst.chunks[d].array;
        assert(dst.chunk_or_ambient(e) == dst.chunks[d]);
        assert(before.wf());
        assert(before.extent == indexer.spec_extent_for_chunk_at_key(d));
        before.extent.lemma_index_of(p);
        let k = before.extent.spec_index_of(p);
        assert(!destination_part(src, other).contains(p));
        let made = downsampled_chunk(sampler, src, dst, other, 1u8);
        if src.chunks.contains_key(other) {
            assert(src.chunks[other].array.extent == indexer.spec_extent_for_chunk_at_key(other));
            assert(src.chunks[other].array.extent.shape == indexer.chunk_shape);
            let r = sampler.downsampled(src.chunks[other].array, before, target.dst_offset, 1u8);
            assert(r.values[k] == before.values[k]);
        }
        assert(made.array.values[k] == before.values[k]);
        assert(made.array.extent == before.extent);
    }
}

/// Steps for other chunks leave the part of this chunk alone.
proof fn lemma_fold_elsewhere<const D: usize, T, Meta, Samp: ChunkDownsampler<D, T>>(
    sampler: Samp,
    src: LevelView<D, T, Meta>,
    dst: LevelView<D, T, Meta>,
    key: PointN<D>,
    others: Seq<PointN<D>>,
    p: Seq<int>,
)
    requires
        writes_within_part(sampler),
        levels_fit(src, dst),
        src.indexer.is_aligned(key@),
        src.indexer.key_in_bounds(key@),
        keys_are_chunks(src, others),
        !others.contains(key),
        dst.chunks.contains_key(destination_key(src, key)),
        destination_part(src, key).contains(p),
        src.indexer.spec_extent_for_chunk_at_key(destination_key(src, key)).contains(p),
    ensures
        fold_steps(sampler, src, dst, others).chunks.contains_key(destination_key(src, key)),
        fold_steps(sampler, src, dst, others).chunks[destination_key(src, key)].array.value_at(p)
            == dst.chunks[destination_key(src, key)].array.value_at(p),
    decreases others.len(),
{
    if others.len() > 0 {
        let first = others[0];
        let rest = others.drop_first();
        assert(others.contains(first));
        assert(src.indexer.is_aligned(first@) && src.indexer.key_in_bounds(first@));
        lemma_step_elsewhere(sampler, src, dst, key, first, p);
        lemma_step_valid(sampler, src, dst, first);
        assert forall|j: int| 0 <= j < rest.len() implies src.indexer.is_aligned(
            (#[trigger] rest[j])@,
        ) && src.indexer.key_in_bounds(rest[j]@) by {
            assert(rest[j] == others[j + 1]);
        }
        if rest.contains(key) {
            let j = choose|j: int| 0 <= j < rest.len() && rest[j] == key;
            assert(others[j + 1] == key);
        }
        lemma_fold_elsewhere(sampler, src, step(sampler, src, dst, first), key, rest, p);
    }
}

/// After the chunks at `keys` were downsampled one level up, in the order
/// of `keys`, the part that stands for a chunk that is absent holds the
/// ambient value of the source level, wherever in `keys` its key comes:
/// what follows it in the order writes elsewhere.
pub proof fn lemma_absent_part_is_ambient<const D: usize, T, Meta, Samp: ChunkDownsampler<D, T>>(
    sampler: Samp,
    src: LevelView<D, T, Meta>,
    dst: LevelView<D, T, Meta>,
    keys: Seq<PointN<D>>,
    k: int,
    p: Seq<int>,
)
    requires
        writes_within_part(sampler),
        levels_fit(src, dst),
        keys_are_chunks(src, keys),
        keys.no_duplicates(),
        0 <= k < keys.len(),
        !src.chunks.contains_key(keys[k]),
        destination_part(src, keys[k]).contains(p),
        src.indexer.spec_extent_for_chunk_at_key(destination_key(src, keys[k])).contains(p),
    ensures
        fold_steps(sampler, src, dst, keys).chunks.contains_key(destination_key(src, keys[k])),
        fold_steps(sampler, src, dst, keys).chunks[destination_key(src, keys[k])].array.value_at(p)
            == src.ambient_value,
    decreases keys.len(),
{
    let first = keys[0];
    let rest = keys.drop_first();
    let after = step(sampler, src, dst, first);
    assert(src.indexer.is_aligned(first@) && src.indexer.key_in_bounds(first@));
    lemma_step_valid(sampler, src, dst, first);
    assert forall|j: int| 0 <= j < rest.len() implies src.indexer.is_aligned((#[trigger] rest[j])@)
        && src.indexer.key_in_bounds(rest[j]@) by {
        assert(rest[j] == keys[j + 1]);
    }
    if k == 0 {
        lemma_destination_chunk(src, dst, first);
        crate::pyramid::lemma_ambient_propagation(sampler, src, dst, first, 1u8, p);
        if rest.contains(first) {
            let j = choose|j: int| 0 <= j < rest.len() && rest[j] == first;
            assert(keys[j + 1] == first);
        }
        lemma_fold_elsewhere(sampler, src, after, first, rest, p);
    } else {
        assert(rest[k - 1] == keys[k]);
        assert forall|i: int, j: int|
            0 <= i < rest.len() && 0 <= j < rest.len() && i != j implies rest[i] != rest[j] by {
            assert(rest[i] == keys[i + 1] && rest[j] == keys[j + 1]);
        }
        lemma_absent_part_is_ambient(sampler, src, after, rest, k - 1, p);
    }
}

} // verus!
