use building_blocks::array::Array;
use building_blocks::chunk_map::ChunkMapBuilder;
use building_blocks::compressible::{CompressibleChunkStorage, DEFAULT_CAPACITY};
use building_blocks::compression::{
    bytes_equal, frame_checked, framed, payload, BytesCompression, Lz4, Snappy, PACKED, STORED,
};
use building_blocks::encoding::{decode_values, encode_values, VoxelBytes};
use building_blocks::extent::ExtentN;
use building_blocks::point::PointN;
use building_blocks::storage::{Chunk, ChunkHashMapStorage, ChunkReadStorage, ChunkWriteStorage};

fn chunk_of(value: u16, key: PointN<2>) -> Chunk<2, u16, u8> {
    let extent = ExtentN::from_min_and_shape(key.scale(2), PointN([2, 2]));
    Chunk { metadata: value as u8, array: Array::fill(extent, value) }
}

#[test]
fn array_fill_get_set() {
    let extent = ExtentN::from_min_and_shape(PointN([-1, 0]), PointN([2, 3]));
    let mut array = Array::fill(extent, 5u8);
    assert_eq!(*array.extent(), extent);
    assert_eq!(array.values, vec![5; 6]);
    array.set(&PointN([0, 1]), 8);
    assert_eq!(array.get(&PointN([0, 1])), 8);
    assert_eq!(array.get(&PointN([-1, 1])), 5);
    assert_eq!(array.values, vec![5, 5, 5, 8, 5, 5]);
}

#[test]
fn array_fill_extent_is_clipped_to_the_array() {
    let extent = ExtentN::from_min_and_shape(PointN([0, 0]), PointN([3, 2]));
    let mut array = Array::fill(extent, 0u8);
    array.fill_extent(&ExtentN::from_min_and_shape(PointN([2, 1]), PointN([5, 5])), 1);
    assert_eq!(array.values, vec![0, 0, 0, 0, 0, 1]);
    array.fill_extent(&ExtentN::from_min_and_shape(PointN([-3, -3]), PointN([4, 9])), 2);
    assert_eq!(array.values, vec![2, 0, 0, 2, 0, 1]);
    array.fill_extent(&ExtentN::from_min_and_shape(PointN([7, 7]), PointN([1, 1])), 3);
    assert_eq!(array.values, vec![2, 0, 0, 2, 0, 1]);
}

#[test]
fn hash_map_storage_maps_keys_to_chunks() {
    let mut store = ChunkHashMapStorage::<2, u16, u8>::new();
    assert!(store.keys().is_empty());
    assert!(!store.contains_chunk(&PointN([0, 0])));
    assert!(store.insert(PointN([0, 0]), chunk_of(1, PointN([0, 0]))).is_none());
    assert!(store.insert(PointN([0, 1]), chunk_of(2, PointN([0, 1]))).is_none());
    let previous = store.insert(PointN([0, 0]), chunk_of(3, PointN([0, 0]))).unwrap();
    assert_eq!(previous.metadata, 1);
    assert!(store.contains_chunk(&PointN([0, 1])));
    assert_eq!(store.get(&PointN([0, 0])).unwrap().metadata, 3);
    assert!(store.get(&PointN([1, 0])).is_none());
    store.get_mut(&PointN([0, 1])).unwrap().metadata = 9;
    assert_eq!(store.get(&PointN([0, 1])).unwrap().metadata, 9);
    assert!(store.get_mut(&PointN([5, 5])).is_none());
    let mut keys = store.keys();
    keys.sort_by_key(|k| k.0);
    assert_eq!(keys, vec![PointN([0, 0]), PointN([0, 1])]);
    assert_eq!(store.remove(&PointN([0, 0])).unwrap().metadata, 3);
    assert!(store.remove(&PointN([0, 0])).is_none());
    assert_eq!(store.keys(), vec![PointN([0, 1])]);
}

#[test]
fn chunk_map_creates_ambient_chunks_on_demand() {
    let builder = ChunkMapBuilder { chunk_shape: PointN([2, 4]), ambient_value: 7u8, default_chunk_metadata: 'm' };
    let mut map = builder.build_with_write_storage(ChunkHashMapStorage::new());
    assert_eq!(map.builder().chunk_shape, PointN([2, 4]));
    assert!(map.get_mut_chunk(&PointN([2, -4])).is_none());
    assert!(map.get_chunk(&PointN([2, -4])).is_none());
    {
        let chunk = map.get_mut_chunk_or_insert_ambient(PointN([2, -4]));
        assert_eq!(chunk.metadata, 'm');
        assert_eq!(*chunk.array.extent(), ExtentN::from_min_and_shape(PointN([2, -4]), PointN([2, 4])));
        assert_eq!(chunk.array.values, vec![7; 8]);
        chunk.array.set(&PointN([3, -1]), 1);
    }
    // The second call finds the chunk that the first one made.
    assert_eq!(map.get_mut_chunk_or_insert_ambient(PointN([2, -4])).array.get(&PointN([3, -1])), 1);
    assert_eq!(map.get_chunk(&PointN([2, -4])).unwrap().array.get(&PointN([2, -1])), 7);
    assert_eq!(map.chunk_keys(), vec![PointN([2, -4])]);
    assert!(map.remove_chunk(&PointN([2, -4])).is_some());
    assert!(map.chunk_keys().is_empty());
}

#[test]
fn bounding_extent_covers_every_chunk_and_no_more() {
    let builder = ChunkMapBuilder { chunk_shape: PointN([2, 4]), ambient_value: 0u8, default_chunk_metadata: () };
    let mut map = builder.build_with_write_storage(ChunkHashMapStorage::new());
    assert_eq!(map.bounding_extent(), ExtentN::from_min_and_shape(PointN([0, 0]), PointN([0, 0])));
    map.get_mut_chunk_or_insert_ambient(PointN([2, -4]));
    assert_eq!(map.bounding_extent(), ExtentN::from_min_and_shape(PointN([2, -4]), PointN([2, 4])));
    map.get_mut_chunk_or_insert_ambient(PointN([-4, 12]));
    assert_eq!(map.bounding_extent(), ExtentN::from_min_and_shape(PointN([-4, -4]), PointN([8, 20])));
}

#[test]
fn framing() {
    assert_eq!(framed(7, &[1, 2]), vec![7, 1, 2]);
    assert_eq!(payload(&[7, 1, 2]), vec![1, 2]);
    assert_eq!(payload(&[7]), Vec::<u8>::new());
    assert!(bytes_equal(&[1, 2], &[1, 2]));
    assert!(!bytes_equal(&[1, 2], &[1, 3]));
    assert!(!bytes_equal(&[1, 2], &[1]));
    assert_eq!(frame_checked(&[5, 6], Some(vec![9]), Some(vec![5, 6])), vec![PACKED, 9]);
    assert_eq!(frame_checked(&[5, 6], Some(vec![9]), Some(vec![5, 7])), vec![STORED, 5, 6]);
    assert_eq!(frame_checked(&[5, 6], Some(vec![9]), None), vec![STORED, 5, 6]);
    assert_eq!(frame_checked(&[5, 6], None, None), vec![STORED, 5, 6]);
}

fn sample_buffers() -> Vec<Vec<u8>> {
    vec![
        vec![],
        vec![0],
        vec![1, 2, 3, 4, 5],
        vec![0; 4096],
        (0..2000u32).map(|i| (i * i % 251) as u8).collect(),
    ]
}

#[test]
fn snappy_round_trip() {
    for bytes in sample_buffers() {
        let compressed = Snappy.compress_bytes(&bytes);
        assert_eq!(Snappy::decompress_bytes(&compressed), Some(bytes));
    }
}

#[test]
fn lz4_round_trip() {
    for level in [0, 1, 9, 100] {
        for bytes in sample_buffers() {
            let compressed = Lz4 { level }.compress_bytes(&bytes);
            assert_eq!(Lz4::decompress_bytes(&compressed), Some(bytes));
        }
    }
}

#[test]
fn compressors_do_compress() {
    let zeros = vec![0u8; 4096];
    let compressed = Snappy.compress_bytes(&zeros);
    assert_eq!(compressed[0], PACKED);
    assert!(compressed.len() < 1000);
    let compressed = Lz4 { level: 1 }.compress_bytes(&zeros);
    assert_eq!(compressed[0], PACKED);
    assert!(compressed.len() < 1000);
}

#[test]
fn corrupt_buffers_are_reported() {
    assert_eq!(Snappy::decompress_bytes(&[]), None);
    assert_eq!(Snappy::decompress_bytes(&[2, 0, 0]), None);
    assert_eq!(Snappy::decompress_bytes(&[PACKED, 0xff, 0xff, 0xff, 0xff, 0xff, 0xff]), None);
    assert_eq!(Snappy::decompress_bytes(&[STORED, 4, 5]), Some(vec![4, 5]));
    assert_eq!(Lz4::decompress_bytes(&[]), None);
    assert_eq!(Lz4::decompress_bytes(&[PACKED, 1]), None);
    assert_eq!(Lz4::decompress_bytes(&[PACKED, 8, 0, 0, 0, 0xf0, 1, 2]), None);
    assert_eq!(Lz4::decompress_bytes(&[STORED]), Some(vec![]));
    assert_eq!(Lz4::decompress_bytes(&[PACKED, 1, 0, 0, 0]), None);
    assert_eq!(Lz4::decompress_bytes(&[PACKED, 0xff, 0xff, 0xff, 0xff, 0]), None);
    assert_eq!(Lz4 { level: 12 }.compress_bytes(&[]), vec![STORED]);
}

#[test]
fn voxels_as_bytes() {
    assert_eq!(<u8 as VoxelBytes>::byte_width(), 1);
    assert_eq!(<u16 as VoxelBytes>::byte_width(), 2);
    let mut out = vec![9u8];
    0x1234u16.encode(&mut out);
    7u8.encode(&mut out);
    assert_eq!(out, vec![9, 0x34, 0x12, 7]);
    assert_eq!(<u16 as VoxelBytes>::decode(&out, 1), 0x1234);
    assert_eq!(<u8 as VoxelBytes>::decode(&out, 3), 7);
    let values = vec![0u16, 1, 0xffff, 0x8001];
    let bytes = encode_values(&values);
    assert_eq!(bytes, vec![0, 0, 1, 0, 0xff, 0xff, 0x01, 0x80]);
    assert_eq!(decode_values::<u16>(&bytes, 4), values);
    assert_eq!(decode_values::<u8>(&[], 0), Vec::<u8>::new());
}

#[test]
fn wide_voxels_as_bytes() {
    assert_eq!(<u32 as VoxelBytes>::byte_width(), 4);
    assert_eq!(<i32 as VoxelBytes>::byte_width(), 4);
    let mut out = Vec::new();
    0x8123_4567u32.encode(&mut out);
    (-2i32).encode(&mut out);
    assert_eq!(out, vec![0x67, 0x45, 0x23, 0x81, 0xfe, 0xff, 0xff, 0xff]);
    assert_eq!(<u32 as VoxelBytes>::decode(&out, 0), 0x8123_4567);
    assert_eq!(<i32 as VoxelBytes>::decode(&out, 4), -2);
    let values = vec![i32::MIN, -1, 0, 1, i32::MAX, 0x0102_0304];
    assert_eq!(decode_values::<i32>(&encode_values(&values), 6), values);
    let values = vec![0u32, u32::MAX, 0xdead_beef];
    assert_eq!(decode_values::<u32>(&encode_values(&values), 3), values);
}

#[test]
fn compressible_storage_never_holds_more_live_chunks_than_its_capacity() {
    let mut store = CompressibleChunkStorage::<2, u16, u8, Snappy>::with_capacity(Snappy, 2);
    for i in 0..10 {
        let key = PointN([i, -i]);
        assert!(store.insert(key, chunk_of(i as u16, key)).is_none());
        assert!(store.live_count() <= 2);
        assert!(store.is_live(&key));
    }
    assert_eq!(store.live_count(), 2);
    assert_eq!(store.keys().len(), 10);
    // Every chunk is still there, with what was written.
    for i in 0..10 {
        let key = PointN([i, -i]);
        assert!(store.contains_chunk(&key));
        let chunk = store.get_mut(&key).unwrap();
        assert_eq!(chunk.metadata, i as u8);
        assert_eq!(chunk.array.values, vec![i as u16; 4]);
        assert_eq!(*chunk.array.extent(), ExtentN::from_min_and_shape(key.scale(2), PointN([2, 2])));
        assert!(store.live_count() <= 2);
    }
}

#[test]
fn compressible_storage_compresses_the_chunk_used_longest_ago() {
    let mut store = CompressibleChunkStorage::<2, u16, u8, Lz4>::with_capacity(Lz4 { level: 2 }, 2);
    let (a, b, c) = (PointN([0, 0]), PointN([1, 0]), PointN([2, 0]));
    store.insert(a, chunk_of(1, a));
    store.insert(b, chunk_of(2, b));
    // Using `a` makes `b` the chunk used longest ago.
    store.get_mut(&a).unwrap().metadata = 11;
    store.insert(c, chunk_of(3, c));
    assert!(store.is_live(&a));
    assert!(!store.is_live(&b));
    assert!(store.is_live(&c));
    // Reading `b` brings it back and sends `a` away.
    assert_eq!(store.get_mut(&b).unwrap().array.values, vec![2; 4]);
    assert!(!store.is_live(&a));
    assert!(store.is_live(&b));
    assert_eq!(store.get_mut(&a).unwrap().metadata, 11);
    assert!(store.get_mut(&PointN([9, 9])).is_none());
    assert_eq!(store.live_count(), 2);
}

#[test]
fn compressible_storage_removes_and_replaces() {
    let mut store = CompressibleChunkStorage::<2, u16, u8, Snappy>::new(Snappy);
    assert_eq!(store.capacity, DEFAULT_CAPACITY);
    let mut small = CompressibleChunkStorage::<2, u16, u8, Snappy>::with_capacity(Snappy, 1);
    let (a, b) = (PointN([0, 0]), PointN([1, 0]));
    assert!(store.remove(&a).is_none());
    small.insert(a, chunk_of(1, a));
    small.insert(b, chunk_of(2, b));
    // `a` is compressed now; replacing and removing it hands the old chunk back.
    assert_eq!(small.insert(a, chunk_of(5, a)).unwrap().array.values, vec![1; 4]);
    assert_eq!(small.remove(&b).unwrap().array.values, vec![2; 4]);
    assert_eq!(small.remove(&a).unwrap().array.values, vec![5; 4]);
    assert!(small.keys().is_empty());
    assert_eq!(small.live_count(), 0);
}
