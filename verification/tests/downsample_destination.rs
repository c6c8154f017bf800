use building_blocks::point::{Point3i, PointN};
use building_blocks::pyramid::{DownsampleDestination2, DownsampleDestination3, Local};

#[test]
fn downsample_destination_for_one_level_up() {
    let chunk_shape = PointN([16; 3]);
    let level_delta = 1;

    let src_key = chunk_shape;
    let dst = DownsampleDestination3::for_source_chunk(chunk_shape, src_key, level_delta);
    assert_eq!(
        dst,
        DownsampleDestination3 {
            dst_chunk_key: PointN([0; 3]),
            dst_offset: Local(chunk_shape.scalar_div_floor(2)),
        }
    );

    let src_key = chunk_shape.scale(2);
    let dst = DownsampleDestination3::for_source_chunk(chunk_shape, src_key, level_delta);
    assert_eq!(
        dst,
        DownsampleDestination3 {
            dst_chunk_key: chunk_shape,
            dst_offset: Local(Point3i::zero()),
        }
    );
}

#[test]
fn downsample_destination_for_two_levels_up() {
    let chunk_shape = PointN([16; 3]);
    let level_delta = 2;

    let src_key = chunk_shape.scale(3);
    let dst = DownsampleDestination3::for_source_chunk(chunk_shape, src_key, level_delta);
    assert_eq!(
        dst,
        DownsampleDestination3 {
            dst_chunk_key: PointN([0; 3]),
            dst_offset: Local(chunk_shape.scale(3).scalar_div_floor(4)),
        }
    );

    let src_key = chunk_shape.scale(4);
    let dst = DownsampleDestination3::for_source_chunk(chunk_shape, src_key, level_delta);
    assert_eq!(
        dst,
        DownsampleDestination3 {
            dst_chunk_key: chunk_shape,
            dst_offset: Local(Point3i::zero()),
        }
    );
}

#[test]
fn downsample_destination_exact_values() {
    let dst = DownsampleDestination3::for_source_chunk(PointN([16, 8, 4]), PointN([48, 8, 5]), 1);
    assert_eq!(dst.dst_chunk_key, PointN([16, 0, 0]));
    assert_eq!(dst.dst_offset, Local(PointN([8, 4, 2])));
}

#[test]
fn downsample_destination_of_negative_keys_rounds_down() {
    let dst = DownsampleDestination2::for_source_chunk(PointN([16, 16]), PointN([-16, -1]), 1);
    assert_eq!(dst.dst_chunk_key, PointN([-16, -16]));
    assert_eq!(dst.dst_offset, Local(PointN([8, 15])));
}
