use building_blocks::extent::{Extent2i, ExtentN};
use building_blocks::indexer::ChunkIndexer;
use building_blocks::point::{div_floor, log2_exact, mod_floor, Point2i, Point3i, PointN};

#[test]
fn point_arithmetic_is_component_wise() {
    let a = PointN([1, -2, 3]);
    let b = PointN([4, 5, -6]);
    assert_eq!(a.add(b), PointN([5, 3, -3]));
    assert_eq!(a.sub(b), PointN([-3, -7, 9]));
    assert_eq!(a.mul(b), PointN([4, -10, -18]));
    assert_eq!(a.scale(-3), PointN([-3, 6, -9]));
    assert_eq!(a.meet(b), PointN([1, -2, -6]));
    assert_eq!(a.join(b), PointN([4, 5, 3]));
    assert_eq!(Point3i::zero(), PointN([0, 0, 0]));
    assert_eq!(Point2i::ones(), PointN([1, 1]));
    assert_eq!(Point3i::fill(7), PointN([7, 7, 7]));
}

#[test]
fn point_division_and_remainder_round_toward_negative_infinity() {
    assert_eq!(div_floor(7, 2), 3);
    assert_eq!(div_floor(-7, 2), -4);
    assert_eq!(div_floor(-8, 2), -4);
    assert_eq!(div_floor(i32::MIN, 1), i32::MIN);
    assert_eq!(mod_floor(7, 4), 3);
    assert_eq!(mod_floor(-7, 4), 1);
    assert_eq!(mod_floor(-8, 4), 0);
    assert_eq!(mod_floor(i32::MIN, 3), 1);
    let p = PointN([-5, 5]);
    assert_eq!(p.div_floor(PointN([2, 2])), PointN([-3, 2]));
    assert_eq!(p.scalar_div_floor(4), PointN([-2, 1]));
    assert_eq!(p.mod_floor(PointN([4, 4])), PointN([3, 1]));
}

#[test]
fn point_shifts_match_arithmetic_shifts() {
    let p = PointN([-5, 5, i32::MIN]);
    assert_eq!(p.shr(1), PointN([-3, 2, i32::MIN / 2]));
    assert_eq!(p.shr(31), PointN([-1, 0, -1]));
    assert_eq!(PointN([-5, 5, 0]).shl(3), PointN([-40, 40, 0]));
    assert_eq!(PointN([-1, 0]).shl(31), PointN([i32::MIN, 0]));
    assert_eq!(PointN([-9, 9]).vector_shr(PointN([1, 2])), PointN([-5, 2]));
    assert_eq!(PointN([-9, 9]).vector_shl(PointN([1, 2])), PointN([-18, 36]));
}

#[test]
fn point_comparisons() {
    let a = PointN([1, 2]);
    assert!(a.equals(&PointN([1, 2])));
    assert!(!a.equals(&PointN([1, 3])));
    assert!(a.all_le(&PointN([1, 3])));
    assert!(!a.all_lt(&PointN([1, 3])));
    assert!(a.all_lt(&PointN([2, 3])));
    assert!(!a.all_le(&PointN([0, 3])));
}

#[test]
fn powers_of_two_are_recognised() {
    assert_eq!(log2_exact(1), Some(0));
    assert_eq!(log2_exact(16), Some(4));
    assert_eq!(log2_exact(1 << 30), Some(30));
    assert_eq!(log2_exact(0), None);
    assert_eq!(log2_exact(-4), None);
    assert_eq!(log2_exact(12), None);
    assert_eq!(log2_exact(i32::MAX), None);
    assert!(PointN([1, 2, 1024]).dimensions_are_powers_of_2());
    assert!(!PointN([1, 3, 1024]).dimensions_are_powers_of_2());
    assert_eq!(PointN([1, 2, 1024]).log2(), PointN([0, 1, 10]));
}

#[test]
fn extent_constructors_agree() {
    let a = Extent2i::from_min_and_shape(PointN([-1, 2]), PointN([3, 4]));
    let b = Extent2i::from_min_and_max(PointN([-1, 2]), PointN([1, 5]));
    let c = Extent2i::from_min_and_lub(PointN([-1, 2]), PointN([2, 6]));
    assert_eq!(a, b);
    assert_eq!(a, c);
    assert_eq!(a.least_upper_bound(), PointN([2, 6]));
    assert_eq!(a.num_points(), 12);
    assert!(!a.is_empty());
    assert!(Extent2i::from_min_and_shape(PointN([0, 0]), PointN([3, 0])).is_empty());
    assert_eq!(Extent2i::from_min_and_shape(PointN([0, 0]), PointN([3, 0])).num_points(), 0);
}

#[test]
fn extent_contains_its_points_only() {
    let e = Extent2i::from_min_and_shape(PointN([-1, 2]), PointN([3, 4]));
    assert!(e.contains_point(&PointN([-1, 2])));
    assert!(e.contains_point(&PointN([1, 5])));
    assert!(!e.contains_point(&PointN([2, 5])));
    assert!(!e.contains_point(&PointN([1, 6])));
    assert!(!e.contains_point(&PointN([-2, 2])));
}

#[test]
fn extent_intersection() {
    let a = Extent2i::from_min_and_shape(PointN([0, 0]), PointN([4, 4]));
    let b = Extent2i::from_min_and_shape(PointN([2, -1]), PointN([4, 3]));
    assert_eq!(a.intersection(&b), Extent2i::from_min_and_shape(PointN([2, 0]), PointN([2, 2])));
    let c = Extent2i::from_min_and_shape(PointN([10, 10]), PointN([1, 1]));
    assert!(a.intersection(&c).is_empty());
}

#[test]
fn extent_points_are_in_row_major_order() {
    let e = Extent2i::from_min_and_shape(PointN([-1, 2]), PointN([2, 3]));
    let points = e.points();
    assert_eq!(
        points,
        vec![
            PointN([-1, 2]),
            PointN([0, 2]),
            PointN([-1, 3]),
            PointN([0, 3]),
            PointN([-1, 4]),
            PointN([0, 4]),
        ]
    );
    for (k, p) in points.iter().enumerate() {
        assert_eq!(e.index_of(p), k);
        assert_eq!(e.point_at(k), *p);
    }
}

#[test]
fn chunk_key_is_the_minimum_of_the_chunk() {
    let indexer = ChunkIndexer::new(PointN([16, 16, 16]));
    assert_eq!(indexer.chunk_shape(), PointN([16, 16, 16]));
    assert_eq!(indexer.chunk_key_for_point(PointN([0, 15, 16])), PointN([0, 0, 16]));
    assert_eq!(indexer.chunk_key_for_point(PointN([-1, -16, -17])), PointN([-16, -16, -32]));
    assert_eq!(indexer.chunk_key_for_point(PointN([i32::MIN, i32::MAX, 31])), PointN([i32::MIN, i32::MAX - 15, 16]));
}

#[test]
fn rekeying_the_minimum_of_a_chunk_gives_the_same_key() {
    let indexer = ChunkIndexer::new(PointN([8, 2]));
    for p in [PointN([0, 0]), PointN([-1, 7]), PointN([-9, -3]), PointN([123, -456])] {
        let key = indexer.chunk_key_for_point(p);
        // The quotient, scaled by the chunk shape, is the chunk's minimum.
        let aligned = p.div_floor(indexer.chunk_shape()).mul(indexer.chunk_shape());
        assert_eq!(aligned, key);
        assert_eq!(indexer.chunk_key_for_point(aligned), key);
        assert_eq!(indexer.chunk_key_for_point(key), key);
        assert!(indexer.is_key_aligned(&key));
        assert_eq!(indexer.extent_for_chunk_at_key(key).minimum, key);
        assert_eq!(indexer.extent_for_chunk_at_key(key).shape, PointN([8, 2]));
        assert!(indexer.extent_for_chunk_at_key(key).contains_point(&p));
    }
    assert!(!indexer.is_key_aligned(&PointN([8, 1])));
    assert!(!indexer.is_key_aligned(&PointN([-4, 2])));
    assert!(indexer.is_key_aligned(&PointN([-8, -2])));
}

#[test]
fn chunk_keys_for_extent_lists_every_touched_chunk_in_row_major_order() {
    let indexer = ChunkIndexer::new(PointN([4, 4]));
    let extent = ExtentN::from_min_and_shape(PointN([-1, 3]), PointN([6, 2]));
    assert_eq!(
        indexer.chunk_keys_for_extent(&extent),
        vec![
            PointN([-4, 0]),
            PointN([0, 0]),
            PointN([4, 0]),
            PointN([-4, 4]),
            PointN([0, 4]),
            PointN([4, 4]),
        ]
    );
    assert_eq!(indexer.checked_num_keys(&extent), Some(6));
    // Asking again gives the same list.
    assert_eq!(indexer.chunk_keys_for_extent(&extent).len(), 6);
    let empty = ExtentN::from_min_and_shape(PointN([5, 5]), PointN([0, 3]));
    assert!(indexer.chunk_keys_for_extent(&empty).is_empty());
    assert_eq!(indexer.checked_num_keys(&empty), Some(0));
    let one = ExtentN::from_min_and_shape(PointN([4, 4]), PointN([4, 4]));
    assert_eq!(indexer.chunk_keys_for_extent(&one), vec![PointN([4, 4])]);
}

#[test]
fn counts_that_do_not_fit_are_reported() {
    let indexer = ChunkIndexer::new(PointN([1, 1, 1, 1, 1]));
    let huge = ExtentN::from_min_and_shape(PointN([0; 5]), PointN([1 << 30; 5]));
    assert_eq!(huge.checked_num_points(), None);
    assert_eq!(indexer.checked_num_keys(&huge), None);
    let small = ExtentN::from_min_and_shape(PointN([0; 5]), PointN([2, 3, 1, 1, 5]));
    assert_eq!(small.checked_num_points(), Some(30));
    assert_eq!(indexer.checked_num_keys(&small), Some(30));
}

#[test]
fn keys_in_bounds() {
    let indexer = ChunkIndexer::new(PointN([16, 16]));
    assert!(indexer.is_key_in_bounds(&PointN([0, -16])));
    assert!(indexer.is_key_in_bounds(&PointN([-(1 << 30), (1 << 30) - 32])));
    assert!(!indexer.is_key_in_bounds(&PointN([0, (1 << 30) - 16])));
    assert!(!indexer.is_key_in_bounds(&PointN([-(1 << 30) - 16, 0])));
    assert!(!indexer.is_key_in_bounds(&PointN([i32::MAX, 0])));
}

#[test]
fn extent_contains_extent() {
    let a = Extent2i::from_min_and_shape(PointN([0, 0]), PointN([4, 4]));
    assert!(a.contains_extent(&a));
    assert!(a.contains_extent(&Extent2i::from_min_and_shape(PointN([1, 2]), PointN([3, 2]))));
    assert!(!a.contains_extent(&Extent2i::from_min_and_shape(PointN([1, 2]), PointN([4, 2]))));
    assert!(!a.contains_extent(&Extent2i::from_min_and_shape(PointN([-1, 0]), PointN([2, 2]))));
    // A box without points lies in every box.
    assert!(a.contains_extent(&Extent2i::from_min_and_shape(PointN([9, 9]), PointN([0, 5]))));
}
