use building_blocks::array::{Array, ArrayView};
use building_blocks::chunk_map::{ChunkMap, ChunkMapBuilder};
use building_blocks::compression::{Lz4, Snappy};
use building_blocks::downsample::ChunkDownsampler;
use building_blocks::extent::ExtentN;
use building_blocks::point::PointN;
use building_blocks::pyramid::{
    ChunkHashMapPyramid2, CompressibleChunkPyramid2, Local,
};
use building_blocks::storage::{Chunk, ChunkHashMapStorage};

/// Takes the voxel at the minimum of each block of `2^lod_delta` voxels.
struct PointSampler;

impl ChunkDownsampler<2, u8> for PointSampler {
    fn downsampled(
        &self,
        _src: ArrayView<2, u8>,
        _dst: ArrayView<2, u8>,
        _dst_min: Local<2>,
        _lod_delta: u8,
    ) -> ArrayView<2, u8> {
        unreachable!()
    }

    fn downsample(
        &self,
        src_chunk: &Array<2, u8>,
        dst_chunk: &mut Array<2, u8>,
        dst_min: Local<2>,
        lod_delta: u8,
    ) {
        let shape = src_chunk.extent().shape.shr(lod_delta as u32);
        let src_min = src_chunk.extent().minimum;
        let dst_start = dst_chunk.extent().minimum.add(dst_min.0);
        for y in 0..shape.0[1] {
            for x in 0..shape.0[0] {
                let p = PointN([x, y]);
                let value = src_chunk.get(&src_min.add(p.shl(lod_delta as u32)));
                let q = dst_start.add(p);
                if dst_chunk.extent().contains_point(&q) {
                    dst_chunk.set(&q, value);
                }
            }
        }
    }
}

fn builder() -> ChunkMapBuilder<2, u8, ()> {
    ChunkMapBuilder { chunk_shape: PointN([4, 4]), ambient_value: 9, default_chunk_metadata: () }
}

fn numbered_chunk(map: &ChunkMap<2, u8, (), ChunkHashMapStorage<2, u8, ()>>, key: PointN<2>) -> Chunk<2, u8, ()> {
    let mut chunk = map.new_ambient_chunk(key);
    let extent = *chunk.array.extent();
    for (i, p) in extent.points().iter().enumerate() {
        chunk.array.set(p, i as u8);
    }
    chunk
}

#[test]
fn new_pyramid_has_empty_levels() {
    let pyramid = ChunkHashMapPyramid2::<u8, ()>::new(builder(), 3);
    assert_eq!(pyramid.levels_slice().len(), 3);
    for lod in 0..3 {
        assert!(pyramid.level(lod).chunk_keys().is_empty());
        assert_eq!(pyramid.level(lod).ambient_value(), 9);
        assert_eq!(pyramid.level(lod).chunk_shape(), PointN([4, 4]));
    }
}

#[test]
fn with_lod0_chunk_map_keeps_level_zero() {
    let mut lod0 = builder().build_with_write_storage(ChunkHashMapStorage::new());
    let chunk = numbered_chunk(&lod0, PointN([4, 0]));
    lod0.write_chunk(PointN([4, 0]), chunk);
    let pyramid = ChunkHashMapPyramid2::with_lod0_chunk_map(lod0, 2);
    assert_eq!(pyramid.level(0).chunk_keys(), vec![PointN([4, 0])]);
    assert!(pyramid.level(1).chunk_keys().is_empty());
    let chunk = pyramid.level(0).get_chunk(&PointN([4, 0])).unwrap();
    assert_eq!(chunk.array.get(&PointN([5, 0])), 1);
}

#[test]
fn two_levels_mut_gives_two_different_levels() {
    let mut pyramid = ChunkHashMapPyramid2::<u8, ()>::new(builder(), 4);
    {
        let (a, b) = pyramid.two_levels_mut(1, 3);
        a.get_mut_chunk_or_insert_ambient(PointN([1, 1]));
        b.get_mut_chunk_or_insert_ambient(PointN([2, 2]));
    }
    assert!(pyramid.level(0).chunk_keys().is_empty());
    assert_eq!(pyramid.level(1).chunk_keys(), vec![PointN([1, 1])]);
    assert!(pyramid.level(2).chunk_keys().is_empty());
    assert_eq!(pyramid.level(3).chunk_keys(), vec![PointN([2, 2])]);
}

#[test]
fn try_two_levels_mut_rejects_what_is_not_two_levels_in_order() {
    let mut pyramid = ChunkHashMapPyramid2::<u8, ()>::new(builder(), 3);
    assert!(pyramid.try_two_levels_mut(0, 0).is_none());
    assert!(pyramid.try_two_levels_mut(2, 1).is_none());
    assert!(pyramid.try_two_levels_mut(1, 3).is_none());
    assert!(pyramid.try_two_levels_mut(5, 7).is_none());
    {
        let (a, b) = pyramid.try_two_levels_mut(0, 2).unwrap();
        a.get_mut_chunk_or_insert_ambient(PointN([0, 4]));
        b.get_mut_chunk_or_insert_ambient(PointN([8, 0]));
    }
    assert_eq!(pyramid.level(0).chunk_keys(), vec![PointN([0, 4])]);
    assert!(pyramid.level(1).chunk_keys().is_empty());
    assert_eq!(pyramid.level(2).chunk_keys(), vec![PointN([8, 0])]);
}

#[test]
fn level_mut_changes_one_level() {
    let mut pyramid = ChunkHashMapPyramid2::<u8, ()>::new(builder(), 2);
    pyramid.level_mut(1).get_mut_chunk_or_insert_ambient(PointN([0, 0]));
    assert!(pyramid.level(0).chunk_keys().is_empty());
    assert_eq!(pyramid.level(1).chunk_keys(), vec![PointN([0, 0])]);
}

#[test]
fn downsample_chunk_samples_an_existing_source() {
    let mut pyramid = ChunkHashMapPyramid2::<u8, ()>::new(builder(), 2);
    let chunk = numbered_chunk(pyramid.level(0), PointN([4, 0]));
    pyramid.level_mut(0).write_chunk(PointN([4, 0]), chunk);

    pyramid.downsample_chunk(&PointSampler, PointN([4, 0]), 0, 1);

    // The destination key is floor(4 / 8) * 4 = 0 and the offset (4 mod 8) / 2 = 2.
    assert_eq!(pyramid.level(1).chunk_keys(), vec![PointN([0, 0])]);
    let dst = pyramid.level(1).get_chunk(&PointN([0, 0])).unwrap();
    assert_eq!(*dst.array.extent(), ExtentN::from_min_and_shape(PointN([0, 0]), PointN([4, 4])));
    // Source voxel (x, y) holds x + 4 * y; the sample for (2 + i, j) is the source voxel (2i, 2j).
    assert_eq!(dst.array.get(&PointN([2, 0])), 0);
    assert_eq!(dst.array.get(&PointN([3, 0])), 2);
    assert_eq!(dst.array.get(&PointN([2, 1])), 8);
    assert_eq!(dst.array.get(&PointN([3, 1])), 10);
    // Everything else is still ambient.
    assert_eq!(dst.array.get(&PointN([0, 0])), 9);
    assert_eq!(dst.array.get(&PointN([1, 1])), 9);
    assert_eq!(dst.array.get(&PointN([2, 2])), 9);
}

#[test]
fn downsample_chunk_of_absent_source_fills_ambient() {
    let mut pyramid = ChunkHashMapPyramid2::<u8, ()>::new(builder(), 2);
    // Level 1 starts with a chunk of threes, level 0 is empty with ambient value 9.
    {
        let dst = pyramid.level_mut(1).get_mut_chunk_or_insert_ambient(PointN([0, 0]));
        let extent = *dst.array.extent();
        dst.array.fill_extent(&extent, 3);
    }

    pyramid.downsample_chunk(&PointSampler, PointN([4, 4]), 0, 1);

    // Destination key (0, 0), offset (2, 2): the box [2, 4) x [2, 4) turns ambient.
    let dst = pyramid.level(1).get_chunk(&PointN([0, 0])).unwrap();
    for y in 0..4 {
        for x in 0..4 {
            let expected = if x >= 2 && y >= 2 { 9 } else { 3 };
            assert_eq!(dst.array.get(&PointN([x, y])), expected);
        }
    }

    let mut pyramid = ChunkHashMapPyramid2::<u8, ()>::new(builder(), 2);
    {
        let dst = pyramid.level_mut(1).get_mut_chunk_or_insert_ambient(PointN([0, 0]));
        let extent = *dst.array.extent();
        dst.array.fill_extent(&extent, 3);
    }
    pyramid.downsample_chunk(&PointSampler, PointN([0, 4]), 0, 1);
    // Destination key (0, 0), offset (0, 2): the box [0, 2) x [2, 4) turns ambient.
    let dst = pyramid.level(1).get_chunk(&PointN([0, 0])).unwrap();
    for y in 0..4 {
        for x in 0..4 {
            let expected = if x < 2 && y >= 2 { 9 } else { 3 };
            assert_eq!(dst.array.get(&PointN([x, y])), expected);
        }
    }
    assert!(pyramid.level(0).chunk_keys().is_empty());
}

fn contents(pyramid: &ChunkHashMapPyramid2<u8, ()>) -> Vec<Vec<(PointN<2>, Vec<u8>)>> {
    let mut all = Vec::new();
    for map in pyramid.levels_slice() {
        let mut keys = map.chunk_keys();
        keys.sort_by_key(|k| k.0);
        let level = keys
            .into_iter()
            .map(|k| (k, map.get_chunk(&k).unwrap().array.values.clone()))
            .collect();
        all.push(level);
    }
    all
}

#[test]
fn downsample_chunk_all_lods_walks_every_level() {
    let mut pyramid = ChunkHashMapPyramid2::<u8, ()>::new(builder(), 3);
    let chunk = numbered_chunk(pyramid.level(0), PointN([0, 0]));
    pyramid.level_mut(0).write_chunk(PointN([0, 0]), chunk);

    pyramid.downsample_chunk_all_lods(&PointSampler, PointN([0, 0]));

    let lod1 = pyramid.level(1).get_chunk(&PointN([0, 0])).unwrap();
    assert_eq!(lod1.array.values, vec![0, 2, 9, 9, 8, 10, 9, 9, 9, 9, 9, 9, 9, 9, 9, 9]);
    let lod2 = pyramid.level(2).get_chunk(&PointN([0, 0])).unwrap();
    assert_eq!(lod2.array.values, vec![0, 9, 9, 9, 9, 9, 9, 9, 9, 9, 9, 9, 9, 9, 9, 9]);
}

#[test]
fn downsample_chunk_two_levels_up_fills_a_quarter_of_a_side() {
    let mut pyramid = ChunkHashMapPyramid2::<u8, ()>::new(builder(), 3);
    {
        let dst = pyramid.level_mut(2).get_mut_chunk_or_insert_ambient(PointN([0, 0]));
        let extent = *dst.array.extent();
        dst.array.fill_extent(&extent, 5);
    }
    // Nothing is at level 0: one voxel of level 2 stands for the whole source chunk.
    pyramid.downsample_chunk(&PointSampler, PointN([0, 0]), 0, 2);
    let dst = pyramid.level(2).get_chunk(&PointN([0, 0])).unwrap();
    for y in 0..4 {
        for x in 0..4 {
            let expected = if x == 0 && y == 0 { 9 } else { 5 };
            assert_eq!(dst.array.get(&PointN([x, y])), expected);
        }
    }
    assert!(pyramid.level(0).chunk_keys().is_empty());
    assert!(pyramid.level(1).chunk_keys().is_empty());
    // The source three chunks along lands three voxels in.
    pyramid.downsample_chunk(&PointSampler, PointN([12, 4]), 0, 2);
    let dst = pyramid.level(2).get_chunk(&PointN([0, 0])).unwrap();
    assert_eq!(dst.array.get(&PointN([3, 1])), 9);
    assert_eq!(dst.array.get(&PointN([2, 1])), 5);
    assert_eq!(dst.array.get(&PointN([3, 0])), 5);
    // A new destination chunk holds its own level's ambient value elsewhere.
    pyramid.downsample_chunk(&PointSampler, PointN([16, 0]), 0, 2);
    let dst = pyramid.level(2).get_chunk(&PointN([4, 0])).unwrap();
    assert!(dst.array.values.iter().all(|v| *v == 9));
}

#[test]
fn downsample_chunks_for_extent_gives_every_chunk_its_own_part() {
    let mut pyramid = ChunkHashMapPyramid2::<u8, ()>::new(builder(), 2);
    let chunk = numbered_chunk(pyramid.level(0), PointN([0, 0]));
    pyramid.level_mut(0).write_chunk(PointN([0, 0]), chunk);
    {
        let dst = pyramid.level_mut(1).get_mut_chunk_or_insert_ambient(PointN([0, 0]));
        let extent = *dst.array.extent();
        dst.array.fill_extent(&extent, 3);
    }
    // The extent touches the chunks at (0, 0), which exists, and (4, 0), which does not.
    let extent = ExtentN::from_min_and_shape(PointN([0, 0]), PointN([8, 4]));
    pyramid.downsample_chunks_for_extent_all_lods(&PointSampler, &extent);
    assert_eq!(pyramid.level(1).chunk_keys(), vec![PointN([0, 0])]);
    let dst = pyramid.level(1).get_chunk(&PointN([0, 0])).unwrap();
    // Samples of the first chunk on the left, ambient for the second on the right,
    // and the rows that stand for neither as they were.
    assert_eq!(dst.array.values, vec![0, 2, 9, 9, 8, 10, 9, 9, 3, 3, 3, 3, 3, 3, 3, 3]);
}

#[test]
fn downsample_entire_map_twice_changes_nothing_the_second_time() {
    let mut pyramid = ChunkHashMapPyramid2::<u8, ()>::new(builder(), 2);
    for key in [PointN([0, 0]), PointN([4, 0]), PointN([-4, 4])] {
        let chunk = numbered_chunk(pyramid.level(0), key);
        pyramid.level_mut(0).write_chunk(key, chunk);
    }
    pyramid.downsample_entire_map_all_lods(&PointSampler);
    let once = contents(&pyramid);
    assert!(!once[1].is_empty());
    pyramid.downsample_entire_map_all_lods(&PointSampler);
    let twice = contents(&pyramid);
    assert_eq!(once, twice);
}

#[test]
fn downsample_entire_map_of_empty_pyramid_does_nothing() {
    let mut pyramid = ChunkHashMapPyramid2::<u8, ()>::new(builder(), 3);
    pyramid.downsample_entire_map_all_lods(&PointSampler);
    for lod in 0..3 {
        assert!(pyramid.level(lod).chunk_keys().is_empty());
    }
}

#[test]
fn compressible_pyramid_downsamples_like_the_hash_map_pyramid() {
    let mut plain = ChunkHashMapPyramid2::<u8, ()>::new(builder(), 2);
    let mut snappy = CompressibleChunkPyramid2::<u8, (), Snappy>::new(builder(), 2, Snappy);
    let mut lz4 = CompressibleChunkPyramid2::<u8, (), Lz4>::new(builder(), 2, Lz4 { level: 3 });
    assert_eq!(snappy.levels_slice().len(), 2);
    for key in [PointN([0, 0]), PointN([4, 0])] {
        let chunk = numbered_chunk(plain.level(0), key);
        snappy.level_mut(0).write_chunk(key, numbered_chunk(plain.level(0), key));
        lz4.level_mut(0).write_chunk(key, numbered_chunk(plain.level(0), key));
        plain.level_mut(0).write_chunk(key, chunk);
    }
    plain.downsample_entire_map_all_lods(&PointSampler);
    snappy.downsample_entire_map_all_lods(&PointSampler);
    lz4.downsample_entire_map_all_lods(&PointSampler);
    let expected = plain.level(1).get_chunk(&PointN([0, 0])).unwrap().array.values.clone();
    let got = snappy.level_mut(1).get_mut_chunk(&PointN([0, 0])).unwrap().array.values.clone();
    assert_eq!(got, expected);
    let got = lz4.level_mut(1).get_mut_chunk(&PointN([0, 0])).unwrap().array.values.clone();
    assert_eq!(got, expected);
}

#[test]
fn far_keys_cannot_be_downsampled() {
    let pyramid = ChunkHashMapPyramid2::<u8, ()>::new(builder(), 3);
    assert!(pyramid.check_can_downsample_all_lods(PointN([0, 0])));
    assert!(pyramid.check_can_downsample_all_lods(PointN([1 << 27, -(1 << 27)])));
    assert!(pyramid.check_can_downsample_all_lods(PointN([0, i32::MIN])));
    // The destination chunk of this one ends at 2^30, outside the world.
    assert!(!pyramid.check_can_downsample_all_lods(PointN([i32::MAX, 0])));
    let near = ExtentN::from_min_and_shape(PointN([-8, -8]), PointN([16, 16]));
    assert!(pyramid.check_can_downsample_extent(&near));
    let far = ExtentN::from_min_and_shape(PointN([i32::MAX - 3, 0]), PointN([3, 1]));
    assert!(!pyramid.check_can_downsample_extent(&far));
    // Nothing is to be reached in a pyramid of one level.
    let flat = ChunkHashMapPyramid2::<u8, ()>::new(builder(), 1);
    assert!(flat.check_can_downsample_all_lods(PointN([i32::MAX, 0])));
}

#[test]
fn the_order_of_the_sources_does_not_matter_one_level_up() {
    let keys = [PointN([0, 0]), PointN([4, 0]), PointN([0, 4]), PointN([4, 4]), PointN([8, 0])];
    let mut forward = ChunkHashMapPyramid2::<u8, ()>::new(builder(), 2);
    let mut backward = ChunkHashMapPyramid2::<u8, ()>::new(builder(), 2);
    for pyramid in [&mut forward, &mut backward] {
        for key in [keys[0], keys[3]] {
            let chunk = numbered_chunk(pyramid.level(0), key);
            pyramid.level_mut(0).write_chunk(key, chunk);
        }
        let dst = pyramid.level_mut(1).get_mut_chunk_or_insert_ambient(PointN([0, 0]));
        let extent = *dst.array.extent();
        dst.array.fill_extent(&extent, 3);
    }
    for key in keys {
        forward.downsample_chunk(&PointSampler, key, 0, 1);
    }
    for key in keys.iter().rev() {
        backward.downsample_chunk(&PointSampler, *key, 0, 1);
    }
    assert_eq!(contents(&forward), contents(&backward));
    let dst = forward.level(1).get_chunk(&PointN([0, 0])).unwrap();
    // Each quarter of the destination stands for one source: samples, ambient, ambient, samples.
    assert_eq!(dst.array.values, vec![0, 2, 9, 9, 8, 10, 9, 9, 9, 9, 0, 2, 9, 9, 8, 10]);
    let next = forward.level(1).get_chunk(&PointN([4, 0])).unwrap();
    assert_eq!(next.array.values, vec![9; 16]);
}
