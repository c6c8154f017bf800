//! Downsampling a whole map a second time changes nothing, for pyramids of
//! at most two levels and samplers that write without reading what they
//! overwrite.
//!
//! With three levels or more the law does not hold: the first run samples
//! level 1 while it is still being filled, the second run samples it
//! complete, and level 2 differs.
use crate::array::ArrayView;
use crate::chunk_map::LevelView;
use crate::downsample::ChunkDownsampler;
use crate::point::PointN;
use crate::pyramid::{
    downsample_chunk_all_lods_model, downsample_chunk_model, downsample_keys_model,
    downsampled_chunk, DownsampleDestination, Local,
};
use vstd::prelude::*;

verus! {

/// Whether `ra` and `rb` came from `a` and `b` by the same writes: both kept
/// their box and their length, and each voxel either has the same value in
/// both or is untouched in both.
pub open spec fn same_writes<const D: usize, T>(
    ra: ArrayView<D, T>,
    rb: ArrayView<D, T>,
    a: ArrayView<D, T>,
    b: ArrayView<D, T>,
) -> bool {
    &&& ra.extent == a.extent
    &&& rb.extent == b.extent
    &&& ra.values.len() == a.values.len()
    &&& rb.values.len() == b.values.len()
    &&& forall|k: int|
        0 <= k < a.values.len() ==> #[trigger] ra.values[k] == rb.values[k] || (ra.values[k]
            == a.values[k] && rb.values[k] == b.values[k])
}

/// Whether the sampler writes without reading what it overwrites: into two
/// destinations over the same box it writes the same values at the same
/// places.
pub open spec fn overwrites<const D: usize, T, Samp: ChunkDownsampler<D, T>>(sampler: Samp) -> bool {
    forall|
        src: ArrayView<D, T>,
        a: ArrayView<D, T>,
        b: ArrayView<D, T>,
        dst_min: Local<D>,
        lod_delta: u8,
    |
        a.extent == b.extent && a.values.len() == b.values.len() ==> same_writes(
            #[trigger] sampler.downsampled(src, a, dst_min, lod_delta),
            #[trigger] sampler.downsampled(src, b, dst_min, lod_delta),
            a,
            b,
        )
}

/// The metadata, the box and the number of voxels of the chunk at `key`, or
/// of the ambient chunk where there is none.
pub open spec fn frame<const D: usize, T, Meta>(level: LevelView<D, T, Meta>, key: PointN<D>) -> (
    Meta,
    crate::extent::ExtentN<D>,
    nat,
) {
    let c = level.chunk_or_ambient(key);
    (c.metadata, c.array.extent, c.array.values.len())
}

/// Voxel `k` of the chunk at `key`, or of the ambient chunk where there is
/// none.
pub open spec fn cell<const D: usize, T, Meta>(
    level: LevelView<D, T, Meta>,
    key: PointN<D>,
    k: int,
) -> T {
    level.chunk_or_ambient(key).array.values[k]
}

/// Whether the two levels have the same settings and, at every key, chunks
/// with the same metadata, box and number of voxels.
pub open spec fn same_frames<const D: usize, T, Meta>(
    a: LevelView<D, T, Meta>,
    b: LevelView<D, T, Meta>,
) -> bool {
    &&& a.indexer == b.indexer
    &&& a.ambient_value == b.ambient_value
    &&& a.default_chunk_metadata == b.default_chunk_metadata
    &&& a.live_capacity == b.live_capacity
    &&& forall|key: PointN<D>| #[trigger] frame(a, key) == frame(b, key)
}

/// Whether `a2` and `b2` came from `a` and `b` by the same writes: the chunks
/// at the keys of `added` were made where they were missing, and each voxel
/// either has the same value in both or is untouched in both.
pub open spec fn written_alike<const D: usize, T, Meta>(
    a2: LevelView<D, T, Meta>,
    b2: LevelView<D, T, Meta>,
    a: LevelView<D, T, Meta>,
    b: LevelView<D, T, Meta>,
    added: Set<PointN<D>>,
) -> bool {
    &&& same_frames(a, a2)
    &&& same_frames(b, b2)
    &&& forall|key: PointN<D>| #[trigger]
        a2.chunks.contains_key(key) <==> a.chunks.contains_key(key) || added.contains(key)
    &&& forall|key: PointN<D>| #[trigger]
        b2.chunks.contains_key(key) <==> b.chunks.contains_key(key) || added.contains(key)
    &&& forall|key: PointN<D>, k: int|
        0 <= k < frame(a, key).2 ==> #[trigger] cell(a2, key, k) == cell(b2, key, k) || (cell(
            a2,
            key,
            k,
        ) == cell(a, key, k) && cell(b2, key, k) == cell(b, key, k))
}

/// The destination level after the chunk at `key` of `src` was downsampled
/// into it, one level up.
pub open spec fn step<const D: usize, T, Meta, Samp: ChunkDownsampler<D, T>>(
    sampler: Samp,
    src: LevelView<D, T, Meta>,
    dst: LevelView<D, T, Meta>,
    key: PointN<D>,
) -> LevelView<D, T, Meta> {
    let d = DownsampleDestination::spec_for_source_chunk(src.indexer.chunk_shape, key, 1);
    dst.with_chunks(
        dst.chunks.insert(d.dst_chunk_key, downsampled_chunk(sampler, src, dst, key, 1u8)),
    )
}

/// The destination level after the chunks at `keys` of `src` were
/// downsampled into it in turn.
pub open spec fn fold_steps<const D: usize, T, Meta, Samp: ChunkDownsampler<D, T>>(
    sampler: Samp,
    src: LevelView<D, T, Meta>,
    dst: LevelView<D, T, Meta>,
    keys: Seq<PointN<D>>,
) -> LevelView<D, T, Meta>
    decreases keys.len(),
{
    if keys.len() == 0 {
        dst
    } else {
        fold_steps(sampler, src, step(sampler, src, dst, keys[0]), keys.drop_first())
    }
}

/// The keys of the destination chunks of `keys`, one level up.
pub open spec fn destinations<const D: usize>(shape: PointN<D>, keys: Seq<PointN<D>>) -> Set<
    PointN<D>,
> {
    Set::new(
        |d: PointN<D>|
            exists|i: int|
                0 <= i < keys.len() && d == DownsampleDestination::spec_for_source_chunk(
                    shape,
                    #[trigger] keys[i],
                    1,
                ).dst_chunk_key,
    )
}

proof fn lemma_same_frames_chain<const D: usize, T, Meta>(
    a: LevelView<D, T, Meta>,
    b: LevelView<D, T, Meta>,
    c: LevelView<D, T, Meta>,
)
    requires
        same_frames(a, b),
        same_frames(a, c),
    ensures
        same_frames(b, c),
        same_frames(b, a),
        same_frames(a, a),
{
    assert forall|key: PointN<D>| #[trigger] frame(b, key) == frame(c, key) by {
        assert(frame(a, key) == frame(b, key));
        assert(frame(a, key) == frame(c, key));
    }
    assert forall|key: PointN<D>| #[trigger] frame(b, key) == frame(a, key) by {
        assert(frame(a, key) == frame(b, key));
    }
}

proof fn lemma_step<const D: usize, T, Meta, Samp: ChunkDownsampler<D, T>>(
    sampler: Samp,
    src: LevelView<D, T, Meta>,
    a: LevelView<D, T, Meta>,
    b: LevelView<D, T, Meta>,
    key: PointN<D>,
)
    requires
        overwrites(sampler),
        same_frames(a, b),
    ensures
        written_alike(
            step(sampler, src, a, key),
            step(sampler, src, b, key),
            a,
            b,
            set![DownsampleDestination::spec_for_source_chunk(src.indexer.chunk_shape, key, 1).dst_chunk_key],
        ),
{
    let dst = DownsampleDestination::spec_for_source_chunk(src.indexer.chunk_shape, key, 1);
    let d = dst.dst_chunk_key;
    let a2 = step(sampler, src, a, key);
    let b2 = step(sampler, src, b, key);
    let before_a = a.chunk_or_ambient(d);
    let before_b = b.chunk_or_ambient(d);
    let new_a = downsampled_chunk(sampler, src, a, key, 1u8);
    let new_b = downsampled_chunk(sampler, src, b, key, 1u8);
    assert(frame(a, d) == frame(b, d));
    assert(same_writes(new_a.array, new_b.array, before_a.array, before_b.array)) by {
        if src.chunks.contains_key(key) {
        } else {
            assert forall|k: int| 0 <= k < before_a.array.values.len() implies #[trigger] new_a.array.values[k]
                == new_b.array.values[k] || (new_a.array.values[k] == before_a.array.values[k]
                && new_b.array.values[k] == before_b.array.values[k]) by {}
        }
    }
    assert(a2.chunk_or_ambient(d) == new_a);
    assert(b2.chunk_or_ambient(d) == new_b);
    assert forall|other: PointN<D>| other != d implies a2.chunk_or_ambient(other)
        == a.chunk_or_ambient(other) && b2.chunk_or_ambient(other) == b.chunk_or_ambient(other) by {}
    assert forall|other: PointN<D>| #[trigger] frame(a, other) == frame(a2, other) by {
        if other != d {
            assert(a2.chunk_or_ambient(other) == a.chunk_or_ambient(other));
        }
    }
    assert forall|other: PointN<D>| #[trigger] frame(b, other) == frame(b2, other) by {
        if other != d {
            assert(b2.chunk_or_ambient(other) == b.chunk_or_ambient(other));
        }
    }
    assert forall|other: PointN<D>, k: int| 0 <= k < frame(a, other).2 implies #[trigger] cell(
        a2,
        other,
        k,
    ) == cell(b2, other, k) || (cell(a2, other, k) == cell(a, other, k) && cell(b2, other, k)
        == cell(b, other, k)) by {
        if other != d {
            assert(a2.chunk_or_ambient(other) == a.chunk_or_ambient(other));
            assert(b2.chunk_or_ambient(other) == b.chunk_or_ambient(other));
        } else {
            assert(new_a.array.values[k] == new_b.array.values[k] || (new_a.array.values[k]
                == before_a.array.values[k] && new_b.array.values[k] == before_b.array.values[k]));
        }
    }
}

proof fn lemma_compose<const D: usize, T, Meta>(
    a: LevelView<D, T, Meta>,
    b: LevelView<D, T, Meta>,
    a1: LevelView<D, T, Meta>,
    b1: LevelView<D, T, Meta>,
    a2: LevelView<D, T, Meta>,
    b2: LevelView<D, T, Meta>,
    first: Set<PointN<D>>,
    second: Set<PointN<D>>,
    both: Set<PointN<D>>,
)
    requires
        written_alike(a1, b1, a, b, first),
        written_alike(a2, b2, a1, b1, second),
        forall|key: PointN<D>| both.contains(key) <==> first.contains(key) || second.contains(key),
    ensures
        written_alike(a2, b2, a, b, both),
{
    assert forall|key: PointN<D>| #[trigger] frame(a, key) == frame(a2, key) by {
        assert(frame(a, key) == frame(a1, key));
        assert(frame(a1, key) == frame(a2, key));
    }
    assert forall|key: PointN<D>| #[trigger] frame(b, key) == frame(b2, key) by {
        assert(frame(b, key) == frame(b1, key));
        assert(frame(b1, key) == frame(b2, key));
    }
    assert forall|key: PointN<D>| #[trigger]
        a2.chunks.contains_key(key) <==> a.chunks.contains_key(key) || both.contains(key) by {
        assert(a1.chunks.contains_key(key) <==> a.chunks.contains_key(key) || first.contains(key));
    }
    assert forall|key: PointN<D>| #[trigger]
        b2.chunks.contains_key(key) <==> b.chunks.contains_key(key) || both.contains(key) by {
        assert(b1.chunks.contains_key(key) <==> b.chunks.contains_key(key) || first.contains(key));
    }
    assert forall|key: PointN<D>, k: int| 0 <= k < frame(a, key).2 implies #[trigger] cell(
        a2,
        key,
        k,
    ) == cell(b2, key, k) || (cell(a2, key, k) == cell(a, key, k) && cell(b2, key, k) == cell(
        b,
        key,
        k,
    )) by {
        assert(frame(a, key) == frame(a1, key));
        assert(cell(a1, key, k) == cell(b1, key, k) || (cell(a1, key, k) == cell(a, key, k)
            && cell(b1, key, k) == cell(b, key, k)));
        assert(cell(a2, key, k) == cell(b2, key, k) || (cell(a2, key, k) == cell(a1, key, k)
            && cell(b2, key, k) == cell(b1, key, k)));
    }
}

proof fn lemma_fold<const D: usize, T, Meta, Samp: ChunkDownsampler<D, T>>(
    sampler: Samp,
    src: LevelView<D, T, Meta>,
    a: LevelView<D, T, Meta>,
    b: LevelView<D, T, Meta>,
    keys: Seq<PointN<D>>,
)
    requires
        overwrites(sampler),
        same_frames(a, b),
    ensures
        written_alike(
            fold_steps(sampler, src, a, keys),
            fold_steps(sampler, src, b, keys),
            a,
            b,
            destinations(src.indexer.chunk_shape, keys),
        ),
    decreases keys.len(),
{
    let all = destinations(src.indexer.chunk_shape, keys);
    if keys.len() == 0 {
        lemma_same_frames_chain(a, b, b);
        lemma_same_frames_chain(b, a, a);
    } else {
        let a1 = step(sampler, src, a, keys[0]);
        let b1 = step(sampler, src, b, keys[0]);
        let d0 = DownsampleDestination::spec_for_source_chunk(
            src.indexer.chunk_shape,
            keys[0],
            1,
        ).dst_chunk_key;
        let rest = keys.drop_first();
        lemma_step(sampler, src, a, b, keys[0]);
        lemma_same_frames_chain(a, a1, b);
        lemma_same_frames_chain(b, b1, a);
        lemma_same_frames_chain(a1, a, a);
        assert(same_frames(a1, b1)) by {
            assert forall|key: PointN<D>| #[trigger] frame(a1, key) == frame(b1, key) by {
                assert(frame(a, key) == frame(a1, key));
                assert(frame(b, key) == frame(b1, key));
                assert(frame(a, key) == frame(b, key));
            }
        }
        lemma_fold(sampler, src, a1, b1, rest);
        assert forall|key: PointN<D>|
            all.contains(key) <==> set![d0].contains(key) || destinations(
                src.indexer.chunk_shape,
                rest,
            ).contains(key) by {
            if all.contains(key) {
                let i = choose|i: int|
                    0 <= i < keys.len() && key == DownsampleDestination::spec_for_source_chunk(
                        src.indexer.chunk_shape,
                        #[trigger] keys[i],
                        1,
                    ).dst_chunk_key;
                if i > 0 {
                    assert(rest[i - 1] == keys[i]);
                }
            }
            if destinations(src.indexer.chunk_shape, rest).contains(key) {
                let i = choose|i: int|
                    0 <= i < rest.len() && key == DownsampleDestination::spec_for_source_chunk(
                        src.indexer.chunk_shape,
                        #[trigger] rest[i],
                        1,
                    ).dst_chunk_key;
                assert(keys[i + 1] == rest[i]);
            }
            if key == d0 {
                assert(keys[0] == keys[0]);
            }
        }
        lemma_compose(
            a,
            b,
            a1,
            b1,
            fold_steps(sampler, src, a1, rest),
            fold_steps(sampler, src, b1, rest),
            set![d0],
            destinations(src.indexer.chunk_shape, rest),
            all,
        );
    }
}

/// In a pyramid of two levels, downsampling the chunks at `keys` through
/// all levels is one step from level 0 to level 1 for each key in turn.
pub proof fn lemma_model_is_fold<const D: usize, T, Meta, Samp: ChunkDownsampler<D, T>>(
    levels: Seq<LevelView<D, T, Meta>>,
    sampler: Samp,
    keys: Seq<PointN<D>>,
)
    requires
        levels.len() == 2,
    ensures
        downsample_keys_model(levels, sampler, keys) == seq![
            levels[0],
            fold_steps(sampler, levels[0], levels[1], keys),
        ],
    decreases keys.len(),
{
    if keys.len() == 0 {
        assert(levels =~= seq![levels[0], levels[1]]);
    } else {
        let one = downsample_chunk_model(levels, sampler, keys[0], 0, 1);
        assert(one =~= seq![levels[0], step(sampler, levels[0], levels[1], keys[0])]);
        assert(downsample_chunk_all_lods_model(one, sampler, crate::pyramid::halved(keys[0]), 2)
            == one);
        assert(downsample_chunk_all_lods_model(levels, sampler, keys[0], 1) == one);
        lemma_model_is_fold(one, sampler, keys.drop_first());
    }
}

proof fn lemma_model_of_short_pyramid<const D: usize, T, Meta, Samp: ChunkDownsampler<D, T>>(
    levels: Seq<LevelView<D, T, Meta>>,
    sampler: Samp,
    keys: Seq<PointN<D>>,
)
    requires
        levels.len() < 2,
    ensures
        downsample_keys_model(levels, sampler, keys) == levels,
    decreases keys.len(),
{
    if keys.len() > 0 {
        assert(downsample_chunk_all_lods_model(levels, sampler, keys[0], 1) == levels);
        lemma_model_of_short_pyramid(levels, sampler, keys.drop_first());
    }
}

/// Downsampling the chunks at `keys` through a pyramid of at most two
/// levels a second time changes nothing, if the sampler writes without
/// reading what it overwrites.
pub proof fn lemma_downsample_keys_idempotent<
    const D: usize,
    T,
    Meta,
    Samp: ChunkDownsampler<D, T>,
>(levels: Seq<LevelView<D, T, Meta>>, sampler: Samp, keys: Seq<PointN<D>>)
    requires
        levels.len() <= 2,
        overwrites(sampler),
    ensures
        downsample_keys_model(downsample_keys_model(levels, sampler, keys), sampler, keys)
            == downsample_keys_model(levels, sampler, keys),
        levels.len() > 0 ==> downsample_keys_model(levels, sampler, keys)[0] == levels[0],
        downsample_keys_model(levels, sampler, keys).len() == levels.len(),
{
    if levels.len() < 2 {
        lemma_model_of_short_pyramid(levels, sampler, keys);
    } else {
        let src = levels[0];
        let a = levels[1];
        let once = fold_steps(sampler, src, a, keys);
        let twice = fold_steps(sampler, src, once, keys);
        let added = destinations(src.indexer.chunk_shape, keys);
        lemma_model_is_fold(levels, sampler, keys);
        lemma_model_is_fold(seq![src, once], sampler, keys);
        assert(same_frames(a, a));
        lemma_fold(sampler, src, a, a, keys);
        lemma_fold(sampler, src, a, once, keys);
        assert(twice.chunks =~= once.chunks) by {
            assert forall|key: PointN<D>| twice.chunks.contains_key(key)
                <==> once.chunks.contains_key(key) by {
                assert(twice.chunks.contains_key(key) <==> once.chunks.contains_key(key)
                    || added.contains(key));
                assert(once.chunks.contains_key(key) <==> a.chunks.contains_key(key)
                    || added.contains(key));
            }
            assert forall|key: PointN<D>| once.chunks.contains_key(key) implies twice.chunks[key]
                == once.chunks[key] by {
                assert(twice.chunks.contains_key(key));
                let c1 = once.chunk_or_ambient(key);
                let c2 = twice.chunk_or_ambient(key);
                assert(frame(a, key) == frame(once, key));
                assert(frame(once, key) == frame(twice, key));
                assert forall|k: int| 0 <= k < c1.array.values.len() implies c1.array.values[k]
                    == c2.array.values[k] by {
                    assert(cell(once, key, k) == cell(twice, key, k) || (cell(once, key, k)
                        == cell(a, key, k) && cell(twice, key, k) == cell(once, key, k)));
                }
                assert(c1.array.values =~= c2.array.values);
            }
        }
        assert(same_frames(once, twice));
        assert(twice == once);
    }
}

/// Downsampling a whole map through a pyramid of at most two levels a
/// second time changes nothing, if the sampler writes without reading what
/// it overwrites: the second run finds the same chunks in level 0, visits
/// the same keys and writes the same voxels.
pub proof fn lemma_downsample_entire_map_idempotent<
    const D: usize,
    T,
    Meta,
    Samp: ChunkDownsampler<D, T>,
>(levels: Seq<LevelView<D, T, Meta>>, sampler: Samp)
    requires
        0 < levels.len() <= 2,
        overwrites(sampler),
    ensures
        ({
            let once = downsample_keys_model(
                levels,
                sampler,
                levels[0].indexer.spec_chunk_keys_for_extent(levels[0].bounding_extent()),
            );
            downsample_keys_model(
                once,
                sampler,
                once[0].indexer.spec_chunk_keys_for_extent(once[0].bounding_extent()),
            ) == once
        }),
{
    lemma_downsample_keys_idempotent(
        levels,
        sampler,
        levels[0].indexer.spec_chunk_keys_for_extent(levels[0].bounding_extent()),
    );
}

} // verus!
