//! A stack of chunk maps, one per level of detail, and the protocol that
//! carries data from a finer level to a coarser one.
use crate::array::ArrayView;
use crate::bits::lemma_pow2_bounds;
use crate::chunk_map::{ChunkMap, ChunkMapBuilder, LevelView};
use crate::compressible::CompressibleChunkStorage;
use crate::compression::BytesCompression;
use crate::encoding::VoxelBytes;
use crate::downsample::ChunkDownsampler;
use crate::extent::{box_points, ExtentN};
use crate::point::{lemma_point_ext, PointN};
use crate::storage::{recency_after_use, ChunkHashMapStorage, ChunkView, ChunkWriteStorage};
use vstd::arithmetic::div_mod::{
    lemma_div_is_ordered, lemma_div_multiples_vanish, lemma_div_pos_is_pos,
    lemma_fundamental_div_mod, lemma_mod_bound,
};
use vstd::arithmetic::power2::{lemma2_to64, lemma_pow2_adds, lemma_pow2_strictly_increases, pow2};
use vstd::prelude::*;

verus! {

/// A point relative to the minimum of some extent.
#[derive(Clone, Copy, Debug, PartialEq, Eq)]
pub struct Local<const D: usize>(pub PointN<D>);

/// Where the samples of one source chunk go when it is downsampled: the key
/// of the destination chunk, and the offset inside that chunk at which the
/// samples start.
#[derive(Clone, Copy, Debug, PartialEq, Eq)]
pub struct DownsampleDestination<const D: usize> {
    pub dst_chunk_key: PointN<D>,
    pub dst_offset: Local<D>,
}

/// The destination of a chunk of the plane.
pub type DownsampleDestination2 = DownsampleDestination<2>;

/// The destination of a chunk of space.
pub type DownsampleDestination3 = DownsampleDestination<3>;

/// One coordinate of the destination key: the number of the region of source
/// voxels that one destination chunk covers and that holds the source,
/// scaled by the chunk's side. It is the minimum of the destination chunk in
/// voxels of the destination level.
pub open spec fn dst_key_coordinate(shape: int, src: int, lod_delta: nat) -> int {
    (src / (shape * pow2(lod_delta))) * shape
}

/// One coordinate of the destination offset: the position of the source
/// inside the region of its destination chunk, in destination voxels.
pub open spec fn dst_offset_coordinate(shape: int, src: int, lod_delta: nat) -> int {
    (src % (shape * pow2(lod_delta))) / (pow2(lod_delta) as int)
}

/// Whether chunks of this shape can be carried `lod_delta` levels up: the
/// region that one destination chunk covers must have sides that fit `i32`.
pub open spec fn level_up_shape_fits<const D: usize>(chunk_shape: PointN<D>, lod_delta: nat) -> bool {
    forall|i: int| 0 <= i < D ==> #[trigger] chunk_shape@[i] * pow2(lod_delta) <= i32::MAX
}

/// The destination key stays within `i32` and the offset within the chunk.
pub proof fn lemma_destination_bounds(a: nat, src: int, lod_delta: nat)
    requires
        i32::MIN <= src <= i32::MAX,
        pow2(a) * pow2(lod_delta) <= i32::MAX,
    ensures
        a + lod_delta < 31,
        pow2(a + lod_delta) == pow2(a) * pow2(lod_delta),
        i32::MIN <= (src / (pow2(a + lod_delta) as int)) * pow2(a) <= i32::MAX,
        dst_key_coordinate(pow2(a) as int, src, lod_delta) == (src / (pow2(a + lod_delta) as int))
            * pow2(a),
        dst_key_coordinate(pow2(a) as int, src, lod_delta) % (pow2(a) as int) == 0,
        0 <= dst_offset_coordinate(pow2(a) as int, src, lod_delta) < pow2(a),
{
    lemma2_to64();
    lemma_pow2_adds(a, lod_delta);
    vstd::arithmetic::power2::lemma_pow2_pos(a);
    vstd::arithmetic::div_mod::lemma_mod_multiples_basic(
        src / ((pow2(a) as int) * pow2(lod_delta)),
        pow2(a) as int,
    );
    let n = a + lod_delta;
    if n >= 31 {
        if n > 31 {
            lemma_pow2_strictly_increases(31, n);
        }
    }
    lemma_pow2_bounds(n);
    let m = pow2(n) as int;
    let s = pow2(a) as int;
    let e = pow2(lod_delta) as int;
    vstd::arithmetic::power2::lemma_pow2_pos(a);
    vstd::arithmetic::power2::lemma_pow2_pos(lod_delta);
    let c = pow2((31 - n) as nat) as int;
    lemma_pow2_adds((31 - n) as nat, n);
    vstd::arithmetic::power2::lemma_pow2_pos((31 - n) as nat);
    assert(c * m == 0x8000_0000);
    let q = src / m;
    lemma_fundamental_div_mod(src, m);
    lemma_mod_bound(src, m);
    if src >= 0 {
        lemma_div_pos_is_pos(src, m);
        assert(q * s <= src) by (nonlinear_arith)
            requires
                q >= 0,
                s > 0,
                e >= 1,
                m == s * e,
                src == m * q + src % m,
                0 <= src % m,
        ;
        assert(0 <= q * s) by (nonlinear_arith)
            requires
                q >= 0,
                s > 0,
        ;
    } else {
        assert((-c) * m == -0x8000_0000 && (-c) * m == m * (-c)) by (nonlinear_arith)
            requires
                c * m == 0x8000_0000,
        ;
        lemma_div_is_ordered((-c) * m, src, m);
        lemma_div_multiples_vanish(-c, m);
        assert(q >= -c);
        assert(q <= 0) by (nonlinear_arith)
            requires
                src < 0,
                m > 0,
                src == m * q + src % m,
                0 <= src % m,
        ;
        assert(c * s <= 0x8000_0000) by (nonlinear_arith)
            requires
                c * m == 0x8000_0000,
                m == s * e,
                e >= 1,
                c > 0,
                s > 0,
        ;
        assert(-(c * s) <= q * s <= 0) by (nonlinear_arith)
            requires
                -c <= q <= 0,
                s > 0,
        ;
    }
    let r = src % m;
    assert(0 <= r / e < s) by (nonlinear_arith)
        requires
            0 <= r < m,
            m == s * e,
            e > 0,
    ;
}

/// One level up, the chunk that lies one chunk length into the grid lands in
/// the destination chunk at the origin, half a chunk in; the chunk two chunk
/// lengths in starts the next destination chunk.
pub proof fn lemma_destination_one_level_up(shape: int)
    requires
        shape > 0,
    ensures
        dst_key_coordinate(shape, shape, 1) == 0,
        dst_offset_coordinate(shape, shape, 1) == shape / 2,
        dst_key_coordinate(shape, 2 * shape, 1) == shape,
        dst_offset_coordinate(shape, 2 * shape, 1) == 0,
{
    lemma2_to64();
    let m = shape * 2;
    vstd::arithmetic::div_mod::lemma_small_mod(shape as nat, m as nat);
    vstd::arithmetic::div_mod::lemma_basic_div(shape, m);
    vstd::arithmetic::div_mod::lemma_div_multiples_vanish(1, m);
    vstd::arithmetic::div_mod::lemma_mod_multiples_basic(1, m);
    assert(m * 1 == 2 * shape);
    assert(1 * m == 2 * shape);
}

/// Two levels up, the chunk three chunk lengths into the grid lands in the
/// destination chunk at the origin, three quarters of a chunk in; the chunk
/// four chunk lengths in starts the next destination chunk.
pub proof fn lemma_destination_two_levels_up(shape: int)
    requires
        shape > 0,
    ensures
        dst_key_coordinate(shape, 3 * shape, 2) == 0,
        dst_offset_coordinate(shape, 3 * shape, 2) == 3 * shape / 4,
        dst_key_coordinate(shape, 4 * shape, 2) == shape,
        dst_offset_coordinate(shape, 4 * shape, 2) == 0,
{
    lemma2_to64();
    let m = shape * 4;
    vstd::arithmetic::div_mod::lemma_small_mod((3 * shape) as nat, m as nat);
    vstd::arithmetic::div_mod::lemma_basic_div(3 * shape, m);
    vstd::arithmetic::div_mod::lemma_div_multiples_vanish(1, m);
    vstd::arithmetic::div_mod::lemma_mod_multiples_basic(1, m);
    assert(m * 1 == 4 * shape);
    assert(1 * m == 4 * shape);
}

impl<const D: usize> DownsampleDestination<D> {
    /// Whether `self` is the destination of the chunk at `src_chunk_key`,
    /// `lod_delta` levels up.
    pub open spec fn is_destination_of(
        self,
        chunk_shape: PointN<D>,
        src_chunk_key: PointN<D>,
        lod_delta: nat,
    ) -> bool {
        &&& forall|i: int|
            0 <= i < D ==> #[trigger] self.dst_chunk_key@[i] == dst_key_coordinate(
                chunk_shape@[i],
                src_chunk_key@[i],
                lod_delta,
            )
        &&& forall|i: int|
            0 <= i < D ==> #[trigger] self.dst_offset.0@[i] == dst_offset_coordinate(
                chunk_shape@[i],
                src_chunk_key@[i],
                lod_delta,
            )
    }

    /// The destination of the chunk at `src_chunk_key`, `lod_delta` levels up.
    pub open spec fn spec_for_source_chunk(
        chunk_shape: PointN<D>,
        src_chunk_key: PointN<D>,
        lod_delta: nat,
    ) -> Self {
        choose|d: Self| d.is_destination_of(chunk_shape, src_chunk_key, lod_delta)
    }

    /// A source chunk has one destination only.
    pub proof fn lemma_destination_unique(
        self,
        other: Self,
        chunk_shape: PointN<D>,
        src_chunk_key: PointN<D>,
        lod_delta: nat,
    )
        requires
            self.is_destination_of(chunk_shape, src_chunk_key, lod_delta),
            other.is_destination_of(chunk_shape, src_chunk_key, lod_delta),
        ensures
            self == other,
    {
        assert(self.dst_chunk_key@ =~= other.dst_chunk_key@);
        assert(self.dst_offset.0@ =~= other.dst_offset.0@);
        lemma_point_ext(self.dst_chunk_key, other.dst_chunk_key);
        lemma_point_ext(self.dst_offset.0, other.dst_offset.0);
    }

    /// When downsampling a chunk at level `n`, the samples are used at the
    /// returned destination within level `n + lod_delta`.
    ///
    /// In every coordinate, with `s` the chunk's side, the destination key is
    /// `floor(src / (s * 2^lod_delta)) * s` and the offset is
    /// `(src mod (s * 2^lod_delta)) / 2^lod_delta`.
    pub fn for_source_chunk(chunk_shape: PointN<D>, src_chunk_key: PointN<D>, lod_delta: u8) -> (r:
        Self)
        requires
            chunk_shape.is_pow2_shape(),
            level_up_shape_fits(chunk_shape, lod_delta as nat),
        ensures
            r.is_destination_of(chunk_shape, src_chunk_key, lod_delta as nat),
            r == Self::spec_for_source_chunk(chunk_shape, src_chunk_key, lod_delta as nat),
            forall|i: int| 0 <= i < D ==> 0 <= #[trigger] r.dst_offset.0@[i] < chunk_shape@[i],
            forall|i: int| 0 <= i < D ==> #[trigger] r.dst_chunk_key@[i] % chunk_shape@[i] == 0,
            D > 0 ==> lod_delta < 31,
    {
        let chunk_shape_log2 = chunk_shape.log2();
        proof {
            assert forall|i: int| 0 <= i < D implies chunk_shape_log2@[i] + lod_delta < 31 by {
                assert(0 <= chunk_shape_log2@[i] < 31);
                assert(chunk_shape@[i] * pow2(lod_delta as nat) <= i32::MAX);
                lemma_destination_bounds(
                    chunk_shape_log2@[i] as nat,
                    src_chunk_key@[i],
                    lod_delta as nat,
                );
            }
            assert(D > 0 ==> lod_delta < 31) by {
                if D > 0 {
                    assert(chunk_shape_log2@[0] + lod_delta < 31);
                }
            }
        }
        if D == 0 {
            let r = DownsampleDestination {
                dst_chunk_key: src_chunk_key,
                dst_offset: Local(src_chunk_key),
            };
            proof {
                let d = Self::spec_for_source_chunk(chunk_shape, src_chunk_key, lod_delta as nat);
                assert(r.is_destination_of(chunk_shape, src_chunk_key, lod_delta as nat));
                r.lemma_destination_unique(d, chunk_shape, src_chunk_key, lod_delta as nat);
            }
            return r;
        }
        let delta: i32 = lod_delta as i32;
        let deltas: PointN<D> = PointN::fill(delta);
        proof {
            assert forall|i: int| 0 <= i < D implies i32::MIN <= #[trigger] chunk_shape_log2@[i]
                + deltas@[i] <= i32::MAX by {
                assert(0 <= chunk_shape_log2@[i] < 31);
            }
        }
        let level_up_log2 = chunk_shape_log2.add(deltas);
        proof {
            assert forall|i: int| 0 <= i < D implies i32::MIN <= #[trigger] (chunk_shape@[i] * pow2(
                lod_delta as nat,
            )) <= i32::MAX by {
                assert(0 <= chunk_shape_log2@[i] < 31);
                vstd::arithmetic::power2::lemma_pow2_pos(lod_delta as nat);
                assert(chunk_shape@[i] * pow2(lod_delta as nat) <= i32::MAX);
                assert(0 <= chunk_shape@[i] * pow2(lod_delta as nat)) by (nonlinear_arith)
                    requires
                        chunk_shape@[i] >= 0,
                        pow2(lod_delta as nat) > 0,
                ;
            }
        }
        let level_up_shape = chunk_shape.shl(lod_delta as u32);
        proof {
            assert forall|i: int| 0 <= i < D implies 0 <= #[trigger] level_up_log2@[i] < 32 by {
                assert(chunk_shape_log2@[i] + lod_delta < 31);
                assert(level_up_log2@[i] == chunk_shape_log2@[i] + deltas@[i]);
            }
        }
        let quotient = src_chunk_key.vector_shr(level_up_log2);
        proof {
            assert forall|i: int| 0 <= i < D implies 0 <= #[trigger] chunk_shape_log2@[i] < 32
                && i32::MIN <= #[trigger] (quotient@[i] * pow2(chunk_shape_log2@[i] as nat))
                <= i32::MAX by {
                assert(0 <= chunk_shape_log2@[i] < 31);
                assert(chunk_shape@[i] * pow2(lod_delta as nat) <= i32::MAX);
                assert(level_up_log2@[i] == chunk_shape_log2@[i] + deltas@[i]);
                lemma_destination_bounds(
                    chunk_shape_log2@[i] as nat,
                    src_chunk_key@[i],
                    lod_delta as nat,
                );
            }
        }
        let dst_chunk_key = quotient.vector_shl(chunk_shape_log2);
        proof {
            assert forall|i: int| 0 <= i < D implies level_up_shape@[i] > 0 by {
                assert(0 <= chunk_shape_log2@[i] < 31);
                vstd::arithmetic::power2::lemma_pow2_pos(lod_delta as nat);
                vstd::arithmetic::power2::lemma_pow2_pos(chunk_shape_log2@[i] as nat);
                assert(level_up_shape@[i] == chunk_shape@[i] * pow2(lod_delta as nat));
                assert(chunk_shape@[i] * pow2(lod_delta as nat) > 0) by (nonlinear_arith)
                    requires
                        chunk_shape@[i] > 0,
                        pow2(lod_delta as nat) > 0,
                ;
            }
        }
        let offset = src_chunk_key.mod_floor(level_up_shape);
        let dst_offset = Local(offset.shr(lod_delta as u32));
        let r = DownsampleDestination { dst_chunk_key, dst_offset };
        proof {
            assert forall|i: int| 0 <= i < D implies r.dst_chunk_key@[i] == dst_key_coordinate(
                chunk_shape@[i],
                src_chunk_key@[i],
                lod_delta as nat,
            ) && #[trigger] r.dst_offset.0@[i] == dst_offset_coordinate(
                chunk_shape@[i],
                src_chunk_key@[i],
                lod_delta as nat,
            ) && 0 <= r.dst_offset.0@[i] < chunk_shape@[i] && r.dst_chunk_key@[i]
                % chunk_shape@[i] == 0 by {
                assert(0 <= chunk_shape_log2@[i] < 31);
                assert(chunk_shape@[i] * pow2(lod_delta as nat) <= i32::MAX);
                assert(level_up_log2@[i] == chunk_shape_log2@[i] + deltas@[i]);
                assert(level_up_shape@[i] == chunk_shape@[i] * pow2(lod_delta as nat));
                assert(offset@[i] == src_chunk_key@[i] % level_up_shape@[i]);
                lemma_destination_bounds(
                    chunk_shape_log2@[i] as nat,
                    src_chunk_key@[i],
                    lod_delta as nat,
                );
            }
            assert forall|i: int| 0 <= i < D implies #[trigger] r.dst_chunk_key@[i]
                == dst_key_coordinate(chunk_shape@[i], src_chunk_key@[i], lod_delta as nat) by {
                assert(0 <= r.dst_offset.0@[i]);
            }
            assert forall|i: int| 0 <= i < D implies #[trigger] r.dst_chunk_key@[i]
                % chunk_shape@[i] == 0 by {
                assert(0 <= r.dst_offset.0@[i]);
            }
            assert(r.is_destination_of(chunk_shape, src_chunk_key, lod_delta as nat));
            let d = Self::spec_for_source_chunk(chunk_shape, src_chunk_key, lod_delta as nat);
            r.lemma_destination_unique(d, chunk_shape, src_chunk_key, lod_delta as nat);
        }
        r
    }
}

/// The part of a destination chunk that stands for a source chunk
/// `lod_delta` levels below: the box that starts at the destination's offset
/// from the minimum of the chunk and has one voxel for every `2^lod_delta`
/// voxels of the source in each coordinate, so sides of `chunk_shape[i] /
/// 2^lod_delta`.
pub open spec fn destination_region<const D: usize>(
    dst_extent: ExtentN<D>,
    dst_offset: Local<D>,
    chunk_shape: PointN<D>,
    lod_delta: nat,
) -> Set<Seq<int>> {
    box_points(
        Seq::new(D as nat, |i: int| dst_extent.minimum@[i] + dst_offset.0@[i]),
        Seq::new(D as nat, |i: int| chunk_shape@[i] / (pow2(lod_delta) as int)),
    )
}

/// Every source chunk has a destination.
pub proof fn lemma_destination_exists<const D: usize>(
    chunk_shape: PointN<D>,
    src_chunk_key: PointN<D>,
    lod_delta: nat,
)
    requires
        chunk_shape.is_pow2_shape(),
        level_up_shape_fits(chunk_shape, lod_delta),
    ensures
        DownsampleDestination::spec_for_source_chunk(
            chunk_shape,
            src_chunk_key,
            lod_delta,
        ).is_destination_of(chunk_shape, src_chunk_key, lod_delta),
{
    let keys = Seq::new(
        D as nat,
        |i: int| dst_key_coordinate(chunk_shape@[i], src_chunk_key@[i], lod_delta),
    );
    let offsets = Seq::new(
        D as nat,
        |i: int| dst_offset_coordinate(chunk_shape@[i], src_chunk_key@[i], lod_delta),
    );
    assert forall|i: int| 0 <= i < D implies i32::MIN <= #[trigger] keys[i] <= i32::MAX by {
        assert(crate::point::is_pow2_i32(chunk_shape@[i]));
        let a = crate::point::log2_of(chunk_shape@[i]);
        assert(chunk_shape@[i] * pow2(lod_delta) <= i32::MAX);
        lemma_destination_bounds(a, src_chunk_key@[i], lod_delta);
    }
    assert forall|i: int| 0 <= i < D implies i32::MIN <= #[trigger] offsets[i] <= i32::MAX by {
        assert(crate::point::is_pow2_i32(chunk_shape@[i]));
        let a = crate::point::log2_of(chunk_shape@[i]);
        assert(chunk_shape@[i] * pow2(lod_delta) <= i32::MAX);
        lemma_destination_bounds(a, src_chunk_key@[i], lod_delta);
    }
    let key = crate::point::lemma_point_exists::<D>(keys);
    let offset = crate::point::lemma_point_exists::<D>(offsets);
    let d = DownsampleDestination { dst_chunk_key: key, dst_offset: Local(offset) };
    assert(d.is_destination_of(chunk_shape, src_chunk_key, lod_delta));
}

/// The destination of a source key that is the `q`-th multiple of the
/// chunk's side: the key is the `floor(q / 2^lod_delta)`-th multiple, and the
/// offset is the remainder of `q`, in parts of the side.
pub proof fn lemma_destination_of_aligned(side: int, q: int, lod_delta: nat)
    requires
        side > 0,
    ensures
        dst_key_coordinate(side, q * side, lod_delta) == (q / (pow2(lod_delta) as int)) * side,
        dst_offset_coordinate(side, q * side, lod_delta) == ((q % (pow2(lod_delta) as int)) * side)
            / (pow2(lod_delta) as int),
{
    vstd::arithmetic::power2::lemma_pow2_pos(lod_delta);
    let e = pow2(lod_delta) as int;
    lemma_fundamental_div_mod(q, e);
    lemma_mod_bound(q, e);
    let upper = q / e;
    let lower = q % e;
    assert(q * side == upper * (side * e) + lower * side && 0 <= lower * side < side * e
        && side * e > 0) by (nonlinear_arith)
        requires
            q == e * upper + lower,
            0 <= lower < e,
            side > 0,
    ;
    vstd::arithmetic::div_mod::lemma_fundamental_div_mod_converse(
        q * side,
        side * e,
        upper,
        lower * side,
    );
}

/// One level up and one key on, a key inside the world's bounds stays
/// inside: both the destination key and the halved key are in bounds.
pub proof fn lemma_step_stays_in_world(a: nat, key: int)
    requires
        pow2(a) * pow2(1) <= i32::MAX,
        crate::indexer::WORLD_MIN <= key,
        key + pow2(a) <= crate::indexer::WORLD_LUB,
    ensures
        crate::indexer::WORLD_MIN <= dst_key_coordinate(pow2(a) as int, key, 1),
        dst_key_coordinate(pow2(a) as int, key, 1) + pow2(a) <= crate::indexer::WORLD_LUB,
        dst_key_coordinate(pow2(a) as int, key, 1) % (pow2(a) as int) == 0,
        crate::indexer::WORLD_MIN <= key / 2,
        key / 2 + pow2(a) <= crate::indexer::WORLD_LUB,
{
    lemma2_to64();
    lemma_destination_bounds(a, key, 1);
    let n = a + 1;
    assert(n < 31);
    lemma_pow2_bounds(n);
    vstd::arithmetic::power2::lemma_pow2_pos(a);
    let s = pow2(a) as int;
    let m = pow2(n) as int;
    assert(m == 2 * s);
    assert(m <= 0x4000_0000);
    let q = key / m;
    lemma_fundamental_div_mod(key, m);
    lemma_mod_bound(key, m);
    vstd::arithmetic::div_mod::lemma_mod_multiples_basic(q, s);
    if key >= 0 {
        lemma_div_pos_is_pos(key, m);
        assert(0 <= q * s <= key) by (nonlinear_arith)
            requires
                q >= 0,
                s > 0,
                m == 2 * s,
                key == m * q + key % m,
                0 <= key % m,
        ;
    } else {
        let c = pow2((30 - n) as nat) as int;
        lemma_pow2_adds((30 - n) as nat, n);
        vstd::arithmetic::power2::lemma_pow2_pos((30 - n) as nat);
        assert(c * m == 0x4000_0000);
        assert((-c) * m == -0x4000_0000 && (-c) * m == m * (-c)) by (nonlinear_arith)
            requires
                c * m == 0x4000_0000,
        ;
        lemma_div_is_ordered((-c) * m, key, m);
        lemma_div_multiples_vanish(-c, m);
        assert(q >= -c);
        assert(q <= -1) by (nonlinear_arith)
            requires
                key < 0,
                m > 0,
                key == m * q + key % m,
                0 <= key % m,
        ;
        assert(-0x4000_0000 <= q * s <= -s) by (nonlinear_arith)
            requires
                -c <= q <= -1,
                s > 0,
                c * m == 0x4000_0000,
                m == 2 * s,
        ;
    }
}

/// Every level can be reached from a key inside the world's bounds.
pub proof fn lemma_in_bounds_can_downsample<const D: usize>(
    indexer: crate::indexer::ChunkIndexer<D>,
    key: PointN<D>,
    dst_lod: int,
    num_levels: int,
)
    requires
        indexer.wf(),
        level_up_shape_fits(indexer.chunk_shape, 1),
        indexer.key_in_bounds(key@),
        1 <= dst_lod,
    ensures
        all_lods_in_bounds(indexer, key, dst_lod, num_levels),
    decreases num_levels - dst_lod,
{
    if dst_lod < num_levels {
        indexer.lemma_shape_is_pow2();
        lemma_destination_exists(indexer.chunk_shape, key, 1);
        let d = DownsampleDestination::spec_for_source_chunk(indexer.chunk_shape, key, 1);
        let halves = Seq::new(D as nat, |i: int| key@[i] / 2);
        assert forall|i: int| 0 <= i < D implies i32::MIN <= #[trigger] halves[i] <= i32::MAX by {}
        let half = crate::point::lemma_point_exists::<D>(halves);
        assert(is_half_of(half, key));
        let h = halved(key);
        assert forall|i: int| 0 <= i < D implies crate::indexer::WORLD_MIN
            <= #[trigger] d.dst_chunk_key@[i] && d.dst_chunk_key@[i] + indexer.chunk_shape@[i]
            <= crate::indexer::WORLD_LUB by {
            assert(0 <= indexer.chunk_shape_log2@[i] < 31);
            assert(indexer.chunk_shape@[i] * pow2(1) <= i32::MAX);
            assert(crate::indexer::WORLD_MIN <= key@[i]);
            lemma_step_stays_in_world(indexer.chunk_shape_log2@[i] as nat, key@[i]);
        }
        assert forall|i: int| 0 <= i < D implies crate::indexer::WORLD_MIN <= #[trigger] h@[i]
            && h@[i] + indexer.chunk_shape@[i] <= crate::indexer::WORLD_LUB by {
            assert(0 <= indexer.chunk_shape_log2@[i] < 31);
            assert(indexer.chunk_shape@[i] * pow2(1) <= i32::MAX);
            assert(crate::indexer::WORLD_MIN <= key@[i]);
            lemma_step_stays_in_world(indexer.chunk_shape_log2@[i] as nat, key@[i]);
        }
        lemma_in_bounds_can_downsample(indexer, h, dst_lod + 1, num_levels);
    }
}

/// A multiple of the side that is below the end of a chunk is no greater
/// than the chunk's minimum.
pub proof fn lemma_multiples_apart(side: int, a: int, b: int)
    requires
        side > 0,
        a % side == 0,
        b % side == 0,
        a < b + side,
    ensures
        a <= b,
{
    lemma_fundamental_div_mod(a, side);
    lemma_fundamental_div_mod(b, side);
    let x = a / side;
    let y = b / side;
    assert(x <= y) by (nonlinear_arith)
        requires
            side > 0,
            a == side * x,
            b == side * y,
            a < b + side,
    ;
    assert(a <= b) by (nonlinear_arith)
        requires
            side > 0,
            a == side * x,
            b == side * y,
            x <= y,
    ;
}

/// Every extent that touches chunks has a list of their keys.
pub proof fn lemma_key_list_exists<const D: usize>(
    indexer: crate::indexer::ChunkIndexer<D>,
    extent: ExtentN<D>,
) -> (keys: Seq<PointN<D>>)
    requires
        indexer.wf(),
        extent.wf(),
    ensures
        indexer.is_key_list(keys, extent),
        keys == indexer.spec_chunk_keys_for_extent(extent),
{
    let n = indexer.num_keys(extent);
    let keys = Seq::new(
        if n >= 0 {
            n as nat
        } else {
            0
        },
        |k: int| choose|p: PointN<D>| p@ == indexer.key_at(extent, k),
    );
    if extent.spec_is_empty() {
        assert(indexer.is_key_list(keys, extent));
    } else {
        let counts = indexer.key_counts(extent);
        let first = indexer.first_key(extent);
        assert forall|i: int| 0 <= i < D implies #[trigger] counts[i] >= 1 by {
            assert(indexer.chunk_shape_log2@[i] >= 0);
            vstd::arithmetic::power2::lemma_pow2_pos(indexer.chunk_shape_log2@[i] as nat);
            assert(extent.shape@[i] > 0);
            crate::indexer::lemma_key_span(
                indexer.chunk_shape@[i],
                extent.minimum@[i],
                extent.minimum@[i] + extent.shape@[i] - 1,
            );
        }
        crate::extent::lemma_product_positive(counts);
        assert forall|k: int| 0 <= k < keys.len() implies (#[trigger] keys[k])@ == indexer.key_at(
            extent,
            k,
        ) by {
            let coordinates = indexer.key_at(extent, k);
            crate::extent::lemma_delinearize_in_shape(counts, k);
            let d = crate::extent::delinearize(counts, k);
            assert forall|i: int| 0 <= i < D implies i32::MIN <= #[trigger] coordinates[i]
                <= i32::MAX by {
                let side = indexer.chunk_shape@[i];
                let low = extent.minimum@[i];
                let high = extent.minimum@[i] + extent.shape@[i] - 1;
                assert(0 <= indexer.chunk_shape_log2@[i] < 31);
                vstd::arithmetic::power2::lemma_pow2_pos(indexer.chunk_shape_log2@[i] as nat);
                lemma2_to64();
                lemma_destination_bounds(indexer.chunk_shape_log2@[i] as nat, low, 0);
                assert(extent.shape@[i] >= 0);
                crate::indexer::lemma_rekey_idempotent(side, high);
                assert(0 <= d[i] < counts[i]);
                let q = first[i] + d[i];
                assert(coordinates[i] == q * side);
                assert((low / side) * side <= q * side <= (high / side) * side)
                    by (nonlinear_arith)
                    requires
                        low / side <= q <= high / side,
                        side > 0,
                ;
            }
            let p = crate::point::lemma_point_exists::<D>(coordinates);
        }
        assert(indexer.is_key_list(keys, extent));
    }
    indexer.lemma_key_list_unique(keys, indexer.spec_chunk_keys_for_extent(extent), extent);
    keys
}

/// Whether the sources `a` and `b` write to different voxels `lod_delta`
/// levels up: they have different destination chunks, or their parts of the
/// same destination chunk share no voxel.
pub open spec fn destination_parts_disjoint<const D: usize>(
    indexer: crate::indexer::ChunkIndexer<D>,
    a: PointN<D>,
    b: PointN<D>,
    lod_delta: nat,
) -> bool {
    let da = DownsampleDestination::spec_for_source_chunk(indexer.chunk_shape, a, lod_delta);
    let db = DownsampleDestination::spec_for_source_chunk(indexer.chunk_shape, b, lod_delta);
    da.dst_chunk_key != db.dst_chunk_key || destination_region(
        indexer.spec_extent_for_chunk_at_key(da.dst_chunk_key),
        da.dst_offset,
        indexer.chunk_shape,
        lod_delta,
    ).disjoint(
        destination_region(
            indexer.spec_extent_for_chunk_at_key(db.dst_chunk_key),
            db.dst_offset,
            indexer.chunk_shape,
            lod_delta,
        ),
    )
}

/// Two different chunks of one level have different places in the level
/// above: no voxel stands for both.
pub proof fn lemma_destination_parts_disjoint<const D: usize>(
    indexer: crate::indexer::ChunkIndexer<D>,
    a: PointN<D>,
    b: PointN<D>,
    lod_delta: nat,
)
    requires
        indexer.wf(),
        level_up_shape_fits(indexer.chunk_shape, lod_delta),
        indexer.is_aligned(a@),
        indexer.is_aligned(b@),
        a != b,
    ensures
        destination_parts_disjoint(indexer, a, b, lod_delta),
{
    let shape = indexer.chunk_shape;
    indexer.lemma_shape_is_pow2();
    lemma_destination_exists(shape, a, lod_delta);
    lemma_destination_exists(shape, b, lod_delta);
    let da = DownsampleDestination::spec_for_source_chunk(shape, a, lod_delta);
    let db = DownsampleDestination::spec_for_source_chunk(shape, b, lod_delta);
    if da.dst_chunk_key == db.dst_chunk_key {
        if forall|i: int| 0 <= i < D ==> a@[i] == b@[i] {
            assert(a@ =~= b@);
            lemma_point_ext(a, b);
        }
        let i = choose|i: int| 0 <= i < D && a@[i] != b@[i];
        let side = shape@[i];
        assert(0 <= indexer.chunk_shape_log2@[i] < 31);
        vstd::arithmetic::power2::lemma_pow2_pos(indexer.chunk_shape_log2@[i] as nat);
        vstd::arithmetic::power2::lemma_pow2_pos(lod_delta);
        let e = pow2(lod_delta) as int;
        let qa = a@[i] / side;
        let qb = b@[i] / side;
        assert(a@[i] % side == 0);
        assert(b@[i] % side == 0);
        crate::indexer::lemma_aligned_key(side, a@[i]);
        crate::indexer::lemma_aligned_key(side, b@[i]);
        lemma_destination_of_aligned(side, qa, lod_delta);
        lemma_destination_of_aligned(side, qb, lod_delta);
        let key = da.dst_chunk_key@[i];
        assert(key == (qa / e) * side);
        assert(db.dst_chunk_key@[i] == (qb / e) * side);
        let oa = da.dst_offset.0@[i];
        let ob = db.dst_offset.0@[i];
        assert(oa == ((qa % e) * side) / e);
        assert(ob == ((qb % e) * side) / e);
        lemma_fundamental_div_mod(qa, e);
        lemma_fundamental_div_mod(qb, e);
        lemma_mod_bound(qa, e);
        lemma_mod_bound(qb, e);
        assert(qa / e == qb / e) by (nonlinear_arith)
            requires
                (qa / e) * side == (qb / e) * side,
                side > 0,
        ;
        let ra = qa % e;
        let rb = qb % e;
        assert(ra != rb);
        let part = side / e;
        if ra < rb {
            lemma_part_after(ra, rb, side, e);
        } else {
            lemma_part_after(rb, ra, side, e);
        }
        let region_a = destination_region(
            indexer.spec_extent_for_chunk_at_key(da.dst_chunk_key),
            da.dst_offset,
            shape,
            lod_delta,
        );
        let region_b = destination_region(
            indexer.spec_extent_for_chunk_at_key(db.dst_chunk_key),
            db.dst_offset,
            shape,
            lod_delta,
        );
        assert forall|p: Seq<int>| !(region_a.contains(p) && region_b.contains(p)) by {
            if region_a.contains(p) && region_b.contains(p) {
                assert(key + oa <= p[i] < key + oa + part);
                assert(key + ob <= p[i] < key + ob + part);
            }
        }
    }
}

/// The part that starts at a later multiple of the part's length starts
/// after the earlier part has ended.
proof fn lemma_part_after(ra: int, rb: int, side: int, e: int)
    requires
        0 <= ra < rb,
        side > 0,
        e > 0,
    ensures
        (ra * side) / e + side / e <= (rb * side) / e,
{
    let x = ra * side;
    lemma_fundamental_div_mod(x, e);
    lemma_fundamental_div_mod(side, e);
    lemma_fundamental_div_mod(x + side, e);
    lemma_mod_bound(x, e);
    lemma_mod_bound(side, e);
    lemma_mod_bound(x + side, e);
    let s1 = x / e;
    let s2 = side / e;
    let s3 = (x + side) / e;
    assert(s1 + s2 <= s3) by (nonlinear_arith)
        requires
            e > 0,
            x == e * s1 + x % e,
            side == e * s2 + side % e,
            x + side == e * s3 + (x + side) % e,
            0 <= x % e < e,
            0 <= side % e < e,
            0 <= (x + side) % e < e,
    ;
    assert(x + side <= rb * side) by (nonlinear_arith)
        requires
            x == ra * side,
            ra + 1 <= rb,
            side > 0,
    ;
    lemma_div_is_ordered(x + side, rb * side, e);
}

/// The destination chunk after the chunk at `src_key` of `src` was
/// downsampled into it. Where `src` has a chunk at `src_key`, the sampler
/// decides; where it has none, the region that stands for the source holds
/// the ambient value of `src`, and the rest is as before.
pub open spec fn downsampled_chunk<const D: usize, T, Meta, Samp: ChunkDownsampler<D, T>>(
    sampler: Samp,
    src: LevelView<D, T, Meta>,
    dst: LevelView<D, T, Meta>,
    src_key: PointN<D>,
    lod_delta: u8,
) -> ChunkView<D, T, Meta> {
    let d = DownsampleDestination::spec_for_source_chunk(
        src.indexer.chunk_shape,
        src_key,
        lod_delta as nat,
    );
    let before = dst.chunk_or_ambient(d.dst_chunk_key);
    ChunkView {
        metadata: before.metadata,
        array: if src.chunks.contains_key(src_key) {
            sampler.downsampled(src.chunks[src_key].array, before.array, d.dst_offset, lod_delta)
        } else {
            before.array.filled(
                destination_region(
                    before.array.extent,
                    d.dst_offset,
                    src.indexer.chunk_shape,
                    lod_delta as nat,
                ),
                src.ambient_value,
            )
        },
    }
}

/// Where the source chunk is absent, the part of the destination chunk that
/// stands for it holds the ambient value of the source level, whatever the
/// sampler is: the sampler is not asked. Every other voxel of the
/// destination chunk, its box and its metadata are as before; for a chunk
/// that was made for the occasion, that is the ambient value of the
/// destination level.
pub proof fn lemma_ambient_propagation<const D: usize, T, Meta, Samp: ChunkDownsampler<D, T>>(
    sampler: Samp,
    src: LevelView<D, T, Meta>,
    dst: LevelView<D, T, Meta>,
    src_key: PointN<D>,
    lod_delta: u8,
    p: Seq<int>,
)
    requires
        !src.chunks.contains_key(src_key),
        ({
            let d = DownsampleDestination::spec_for_source_chunk(
                src.indexer.chunk_shape,
                src_key,
                lod_delta as nat,
            );
            let before = dst.chunk_or_ambient(d.dst_chunk_key).array;
            &&& before.wf()
            &&& before.extent.contains(p)
        }),
    ensures
        ({
            let d = DownsampleDestination::spec_for_source_chunk(
                src.indexer.chunk_shape,
                src_key,
                lod_delta as nat,
            );
            let before = dst.chunk_or_ambient(d.dst_chunk_key);
            let after = downsampled_chunk(sampler, src, dst, src_key, lod_delta);
            &&& after.metadata == before.metadata
            &&& after.array.extent == before.array.extent
            &&& after.array.wf()
            &&& after.array.value_at(p) == if destination_region(
                before.array.extent,
                d.dst_offset,
                src.indexer.chunk_shape,
                lod_delta as nat,
            ).contains(p) {
                src.ambient_value
            } else {
                before.array.value_at(p)
            }
        }),
{
    let d = DownsampleDestination::spec_for_source_chunk(
        src.indexer.chunk_shape,
        src_key,
        lod_delta as nat,
    );
    let before = dst.chunk_or_ambient(d.dst_chunk_key).array;
    before.lemma_filled(
        destination_region(
            before.extent,
            d.dst_offset,
            src.indexer.chunk_shape,
            lod_delta as nat,
        ),
        src.ambient_value,
        p,
    );
}

/// Where the source chunk is absent, the sampler makes no difference: any
/// two samplers leave the same levels.
pub proof fn lemma_absent_source_ignores_sampler<
    const D: usize,
    T,
    Meta,
    First: ChunkDownsampler<D, T>,
    Second: ChunkDownsampler<D, T>,
>(
    levels: Seq<LevelView<D, T, Meta>>,
    first: First,
    second: Second,
    src_key: PointN<D>,
    src_lod: int,
    dst_lod: int,
)
    requires
        0 <= src_lod < dst_lod < levels.len(),
        !levels[src_lod].chunks.contains_key(src_key),
    ensures
        downsample_chunk_model(levels, first, src_key, src_lod, dst_lod) == downsample_chunk_model(
            levels,
            second,
            src_key,
            src_lod,
            dst_lod,
        ),
{
}

/// The levels after the chunk at `src_key` of level `src_lod` was
/// downsampled into level `dst_lod`: one chunk of level `dst_lod` is new,
/// everything else is as before.
pub open spec fn downsample_chunk_model<const D: usize, T, Meta, Samp: ChunkDownsampler<D, T>>(
    levels: Seq<LevelView<D, T, Meta>>,
    sampler: Samp,
    src_key: PointN<D>,
    src_lod: int,
    dst_lod: int,
) -> Seq<LevelView<D, T, Meta>> {
    let d = DownsampleDestination::spec_for_source_chunk(
        levels[src_lod].indexer.chunk_shape,
        src_key,
        (dst_lod - src_lod) as nat,
    );
    levels.update(
        dst_lod,
        levels[dst_lod].with_chunks(
            levels[dst_lod].chunks.insert(
                d.dst_chunk_key,
                downsampled_chunk(
                    sampler,
                    levels[src_lod],
                    levels[dst_lod],
                    src_key,
                    (dst_lod - src_lod) as u8,
                ),
            ),
        ),
    )
}

/// Whether `half` is `key` with every coordinate halved, rounding toward
/// negative infinity.
pub open spec fn is_half_of<const D: usize>(half: PointN<D>, key: PointN<D>) -> bool {
    forall|i: int| 0 <= i < D ==> #[trigger] half@[i] == key@[i] / 2
}

/// `key` with every coordinate halved, rounding toward negative infinity.
pub open spec fn halved<const D: usize>(key: PointN<D>) -> PointN<D> {
    choose|half: PointN<D>| is_half_of(half, key)
}

/// Whether walking up from level `dst_lod - 1` with `src_key` stays inside
/// the world's bounds: at every step to the next level, the destination key
/// is in bounds.
pub open spec fn all_lods_in_bounds<const D: usize>(
    indexer: crate::indexer::ChunkIndexer<D>,
    src_key: PointN<D>,
    dst_lod: int,
    num_levels: int,
) -> bool
    decreases num_levels - dst_lod,
{
    if 1 <= dst_lod < num_levels {
        &&& indexer.key_in_bounds(
            DownsampleDestination::spec_for_source_chunk(
                indexer.chunk_shape,
                src_key,
                1,
            ).dst_chunk_key@,
        )
        &&& all_lods_in_bounds(indexer, halved(src_key), dst_lod + 1, num_levels)
    } else {
        true
    }
}

/// The levels after walking up from level `dst_lod - 1` to the last level:
/// each step downsamples from the level below, and the source key of the
/// next step is the source key of this one, halved.
pub open spec fn downsample_chunk_all_lods_model<
    const D: usize,
    T,
    Meta,
    Samp: ChunkDownsampler<D, T>,
>(
    levels: Seq<LevelView<D, T, Meta>>,
    sampler: Samp,
    src_key: PointN<D>,
    dst_lod: int,
) -> Seq<LevelView<D, T, Meta>>
    decreases levels.len() - dst_lod,
{
    if 1 <= dst_lod < levels.len() {
        downsample_chunk_all_lods_model(
            downsample_chunk_model(levels, sampler, src_key, dst_lod - 1, dst_lod),
            sampler,
            halved(src_key),
            dst_lod + 1,
        )
    } else {
        levels
    }
}

/// The levels after walking up through all levels from each of `keys` in
/// turn.
pub open spec fn downsample_keys_model<const D: usize, T, Meta, Samp: ChunkDownsampler<D, T>>(
    levels: Seq<LevelView<D, T, Meta>>,
    sampler: Samp,
    keys: Seq<PointN<D>>,
) -> Seq<LevelView<D, T, Meta>>
    decreases keys.len(),
{
    if keys.len() == 0 {
        levels
    } else {
        downsample_keys_model(
            downsample_chunk_all_lods_model(levels, sampler, keys[0], 1),
            sampler,
            keys.drop_first(),
        )
    }
}

/// A set of chunk maps used as storage for voxels with variable level of
/// detail. All chunks have the same shape, but the voxel size doubles every
/// level of the pyramid.
pub struct ChunkPyramid<const D: usize, T, Meta, Store> {
    pub levels: Vec<ChunkMap<D, T, Meta, Store>>,
}

impl<const D: usize, T, Meta, Store: ChunkWriteStorage<D, T, Meta>> View for ChunkPyramid<
    D,
    T,
    Meta,
    Store,
> {
    type V = Seq<LevelView<D, T, Meta>>;

    /// What each level holds, finest first.
    open spec fn view(&self) -> Seq<LevelView<D, T, Meta>> {
        Seq::new(self.levels@.len(), |i: int| self.levels@[i]@)
    }
}

impl<const D: usize, T, Meta, Store> ChunkPyramid<D, T, Meta, Store> {
    /// All levels, finest first.
    pub fn levels_slice(&self) -> (levels: &[ChunkMap<D, T, Meta, Store>])
        ensures
            levels@ == self.levels@,
    {
        self.levels.as_slice()
    }

    /// The chunk map of level `lod`.
    pub fn level(&self, lod: u8) -> (map: &ChunkMap<D, T, Meta, Store>)
        requires
            lod < self.levels.len(),
        ensures
            *map == self.levels[lod as int],
    {
        &self.levels[lod as usize]
    }

    /// The chunk map of level `lod`, to be changed in place.
    pub fn level_mut(&mut self, lod: u8) -> (map: &mut ChunkMap<D, T, Meta, Store>)
        requires
            lod < old(self).levels.len(),
        ensures
            *map == old(self).levels[lod as int],
            final(self).levels@ == old(self).levels@.update(lod as int, *final(map)),
    {
        &mut self.levels[lod as usize]
    }

    /// The chunk maps of two levels at once, both to be changed in place. The
    /// two are different levels: what is written through one reference
    /// changes that level only.
    pub fn two_levels_mut(&mut self, lod_a: u8, lod_b: u8) -> (maps: (
        &mut ChunkMap<D, T, Meta, Store>,
        &mut ChunkMap<D, T, Meta, Store>,
    ))
        requires
            lod_a < lod_b < old(self).levels.len(),
        ensures
            *maps.0 == old(self).levels[lod_a as int],
            *maps.1 == old(self).levels[lod_b as int],
            final(self).levels@ == old(self).levels@.update(lod_a as int, *final(maps.0)).update(
                lod_b as int,
                *final(maps.1),
            ),
    {
        let (head, tail) = self.levels.as_mut_slice().split_at_mut(lod_b as usize);
        let map_a = &mut head[lod_a as usize];
        let map_b = &mut tail[0];
        (map_a, map_b)
    }

    /// The chunk maps of two levels at once, or `None` where the request is
    /// to be rejected: unless `lod_a` is below `lod_b` and both are levels
    /// of the pyramid, nothing is handed out.
    pub fn try_two_levels_mut(&mut self, lod_a: u8, lod_b: u8) -> (maps: Option<
        (&mut ChunkMap<D, T, Meta, Store>, &mut ChunkMap<D, T, Meta, Store>),
    >)
        ensures
            maps is Some <==> lod_a < lod_b < old(self).levels.len(),
            match maps {
                Some(pair) => *pair.0 == old(self).levels[lod_a as int] && *pair.1 == old(self).levels[lod_b as int] && final(self).levels@ == old(self).levels@.update(
                    lod_a as int,
                    *final(pair.0),
                ).update(lod_b as int, *final(pair.1)),
                None => final(self).levels@ == old(self).levels@,
            },
    {
        if lod_a < lod_b && (lod_b as usize) < self.levels.len() {
            Some(self.two_levels_mut(lod_a, lod_b))
        } else {
            None
        }
    }
}

impl<const D: usize, T: Copy, Meta: Copy, Store: ChunkWriteStorage<D, T, Meta>> ChunkPyramid<
    D,
    T,
    Meta,
    Store,
> {
    /// Every level is a valid chunk map, all levels cut the lattice into the
    /// same chunks, and a `u8` can count the levels.
    pub open spec fn wf(self) -> bool {
        &&& self.levels@.len() <= u8::MAX
        &&& forall|i: int| 0 <= i < self.levels@.len() ==> (#[trigger] self.levels@[i]).wf()
        &&& forall|i: int|
            0 <= i < self.levels@.len() ==> (#[trigger] self.levels@[i]).indexer
                == self.levels@[0].indexer
    }

    /// On every level, every key is the minimum of a chunk inside the
    /// world's bounds, and every chunk holds a valid array over the box of
    /// its key.
    pub open spec fn chunks_valid(self) -> bool {
        forall|i: int| 0 <= i < self@.len() ==> (#[trigger] self@[i]).chunks_valid()
    }

    /// On every level, no more chunks are held decompressed than the
    /// capacity of the level's store allows.
    pub proof fn lemma_live_bound(self, lod: int)
        requires
            self.wf(),
            0 <= lod < self.levels@.len(),
        ensures
            self@[lod].live_capacity matches Some(c) ==> self.levels@[lod].storage.recency().len()
                <= c,
    {
        assert(self.levels@[lod].wf());
        self.levels@[lod].lemma_live_bound();
    }

    /// The shape of the chunks of every level.
    pub open spec fn chunk_shape(self) -> PointN<D> {
        self.levels@[0].indexer.chunk_shape
    }

    /// Downsamples the chunk at `src_chunk_key` of level `src_lod` into the
    /// chunk of level `dst_lod` that covers it, which is made first if it is
    /// not there. A source chunk that is absent counts as filled with the
    /// ambient value of its level: the part of the destination that stands
    /// for it, with sides of `chunk_shape >> (dst_lod - src_lod)`, is filled
    /// with that value. On both levels the chunk that was touched counts as
    /// used last.
    pub fn downsample_chunk<Samp: ChunkDownsampler<D, T>>(
        &mut self,
        sampler: &Samp,
        src_chunk_key: PointN<D>,
        src_lod: u8,
        dst_lod: u8,
    )
        requires
            old(self).wf(),
            old(self).chunks_valid(),
            src_lod < dst_lod < old(self).levels.len(),
            level_up_shape_fits(old(self).chunk_shape(), (dst_lod - src_lod) as nat),
            old(self).levels[0].indexer.key_in_bounds(
                DownsampleDestination::spec_for_source_chunk(
                    old(self).chunk_shape(),
                    src_chunk_key,
                    (dst_lod - src_lod) as nat,
                ).dst_chunk_key@,
            ),
        ensures
            final(self).wf(),
            final(self).chunks_valid(),
            final(self).levels@.len() == old(self).levels@.len(),
            final(self)@ == downsample_chunk_model(
                old(self)@,
                *sampler,
                src_chunk_key,
                src_lod as int,
                dst_lod as int,
            ),
            forall|i: int|
                0 <= i < old(self).levels@.len() && i != src_lod && i != dst_lod ==> (
                #[trigger] final(self).levels@[i]) == old(self).levels@[i],
            final(self).levels@[src_lod as int].storage.recency() == if old(self)@[src_lod as int].chunks.contains_key(src_chunk_key) {
                recency_after_use(
                    old(self).levels@[src_lod as int].storage.recency(),
                    src_chunk_key,
                    old(self)@[src_lod as int].live_capacity,
                )
            } else {
                old(self).levels@[src_lod as int].storage.recency()
            },
            final(self).levels@[dst_lod as int].storage.recency() == recency_after_use(
                old(self).levels@[dst_lod as int].storage.recency(),
                DownsampleDestination::spec_for_source_chunk(
                    old(self).chunk_shape(),
                    src_chunk_key,
                    (dst_lod - src_lod) as nat,
                ).dst_chunk_key,
                old(self)@[dst_lod as int].live_capacity,
            ),
    {
        let ghost before = old(self)@;
        let ghost src_before = old(self).levels@[src_lod as int];
        let ghost dst_before = old(self).levels@[dst_lod as int];
        proof {
            assert(before[src_lod as int] == src_before@);
            assert(before[dst_lod as int] == dst_before@);
            assert(src_before@.chunks_valid());
            assert(dst_before@.chunks_valid());
            assert(src_before.indexer == old(self).levels@[0].indexer);
            assert(dst_before.indexer == old(self).levels@[0].indexer);
        }
        let lod_delta = dst_lod - src_lod;
        let (src_map, dst_map) = self.two_levels_mut(src_lod, dst_lod);
        let chunk_shape = src_map.indexer.chunk_shape();
        proof {
            src_map.indexer.lemma_shape_is_pow2();
        }
        let dst = DownsampleDestination::for_source_chunk(chunk_shape, src_chunk_key, lod_delta);
        let src_ambient = src_map.ambient_value();
        let dst_chunk = dst_map.get_mut_chunk_or_insert_ambient(dst.dst_chunk_key);
        let ghost dst_chunk_before = dst_chunk@;
        proof {
            assert(dst_chunk_before == dst_before@.chunk_or_ambient(dst.dst_chunk_key));
            assert(dst_chunk@.array.wf());
            assert(dst_before.indexer.is_extent_of_chunk(dst_chunk.array.extent, dst.dst_chunk_key))
                by {
                if dst_before@.chunks.contains_key(dst.dst_chunk_key) {
                    assert(dst_before.indexer.key_in_bounds(dst.dst_chunk_key@));
                }
            }
        }
        match src_map.get_mut_chunk(&src_chunk_key) {
            Some(src_chunk) => {
                assert(src_before@.chunks.contains_key(src_chunk_key));
                assert(src_chunk@.array.wf());
                sampler.downsample(
                    &src_chunk.array,
                    &mut dst_chunk.array,
                    dst.dst_offset,
                    lod_delta,
                );
            },
            None => {
                proof {
                    vstd::arithmetic::power2::lemma2_to64();
                    assert forall|i: int| 0 <= i < D implies i32::MIN
                        <= #[trigger] dst_chunk.array.extent.minimum@[i] + dst.dst_offset.0@[i]
                        <= i32::MAX by {
                        assert(0 <= dst.dst_offset.0@[i] < chunk_shape@[i]);
                        assert(dst_chunk.array.extent.minimum@[i] == dst.dst_chunk_key@[i]);
                        assert(crate::indexer::WORLD_MIN <= dst.dst_chunk_key@[i]);
                    }
                }
                let part = if lod_delta < 31 {
                    chunk_shape.shr(lod_delta as u32)
                } else {
                    chunk_shape
                };
                let minimum = dst_chunk.array.extent().minimum.add(dst.dst_offset.0);
                let dst_extent = ExtentN::from_min_and_shape(minimum, part);
                proof {
                    assert forall|i: int| 0 <= i < D implies #[trigger] dst_extent.shape@[i] >= 0
                        && dst_extent.minimum@[i] + dst_extent.shape@[i] <= i32::MAX by {
                        assert(0 <= dst.dst_offset.0@[i] < chunk_shape@[i]);
                        assert(dst_chunk.array.extent.minimum@[i] == dst.dst_chunk_key@[i]);
                        assert(dst.dst_chunk_key@[i] + chunk_shape@[i]
                            <= crate::indexer::WORLD_LUB);
                        assert(part@[i] == chunk_shape@[i] / (pow2(lod_delta as nat) as int));
                        vstd::arithmetic::power2::lemma_pow2_pos(lod_delta as nat);
                        vstd::arithmetic::div_mod::lemma_div_nonincreasing(
                            chunk_shape@[i],
                            pow2(lod_delta as nat) as int,
                        );
                        vstd::arithmetic::div_mod::lemma_div_pos_is_pos(
                            chunk_shape@[i],
                            pow2(lod_delta as nat) as int,
                        );
                    }
                    assert(dst_extent.minimum@ =~= Seq::new(
                        D as nat,
                        |i: int| dst_chunk.array.extent.minimum@[i] + dst.dst_offset.0@[i],
                    ));
                    assert(dst_extent.shape@ =~= Seq::new(
                        D as nat,
                        |i: int| chunk_shape@[i] / (pow2(lod_delta as nat) as int),
                    ));
                }
                dst_chunk.array.fill_extent(&dst_extent, src_ambient);
            },
        }
        proof {
            let after = self@;
            let model = downsample_chunk_model(
                before,
                *sampler,
                src_chunk_key,
                src_lod as int,
                dst_lod as int,
            );
            let src_after = self.levels@[src_lod as int];
            let dst_after = self.levels@[dst_lod as int];
            assert(src_after@.chunks =~= src_before@.chunks);
            assert(src_after@ == src_before@);
            assert(dst_after@ == model[dst_lod as int]);
            assert(after =~= model);
            assert forall|i: int| 0 <= i < self@.len() implies (#[trigger] self@[i]).chunks_valid() by {
                if i == dst_lod as int {
                    assert(old(self)@[i].chunks_valid());
                } else {
                    assert(old(self)@[i].chunks_valid());
                    assert(self@[i] == old(self)@[i]);
                }
            }
        }
    }

    /// Whether every level can be reached from the chunk at `lod0_chunk_key`
    /// of level 0: one level up the sides of a chunk's region fit `i32`, and
    /// every destination on the way lies inside the world's bounds.
    pub open spec fn can_downsample_all_lods(self, lod0_chunk_key: PointN<D>) -> bool {
        self.levels@.len() > 1 ==> level_up_shape_fits(self.chunk_shape(), 1) && all_lods_in_bounds(
            self.levels@[0].indexer,
            lod0_chunk_key,
            1,
            self.levels@.len() as int,
        )
    }

    /// Whether every level can be reached from every chunk that `extent`
    /// touches.
    pub open spec fn can_downsample_extent(self, lod0_extent: ExtentN<D>) -> bool {
        self.levels@.len() > 0 ==> {
            let indexer = self.levels@[0].indexer;
            &&& indexer.num_keys(lod0_extent) <= usize::MAX
            &&& forall|k: int|
                0 <= k < indexer.num_keys(lod0_extent) ==> self.can_downsample_all_lods(
                    #[trigger] indexer.spec_chunk_keys_for_extent(lod0_extent)[k],
                )
        }
    }

    /// Whether every level can be reached from the chunk at `lod0_chunk_key`
    /// of level 0.
    pub fn check_can_downsample_all_lods(&self, lod0_chunk_key: PointN<D>) -> (ok: bool)
        requires
            self.wf(),
        ensures
            ok == self.can_downsample_all_lods(lod0_chunk_key),
    {
        let n = self.levels.len();
        if n <= 1 {
            return true;
        }
        let indexer = self.levels[0].indexer;
        let shape = indexer.chunk_shape();
        proof {
            indexer.lemma_shape_is_pow2();
            vstd::arithmetic::power2::lemma2_to64();
        }
        let limit: PointN<D> = PointN::fill(0x2000_0000);
        if !shape.all_le(&limit) {
            proof {
                let i = choose|i: int| 0 <= i < D && !(shape@[i] <= limit@[i]);
                assert(shape@[i] * vstd::arithmetic::power2::pow2(1) > i32::MAX);
            }
            return false;
        }
        proof {
            assert forall|i: int| 0 <= i < D implies #[trigger] shape@[i]
                * vstd::arithmetic::power2::pow2(1) <= i32::MAX by {
                assert(shape@[i] <= limit@[i]);
            }
        }
        let mut src_chunk_key = lod0_chunk_key;
        let mut dst_lod: usize = 1;
        while dst_lod < n
            invariant
                1 <= dst_lod,
                n == self.levels@.len(),
                n > 1,
                indexer == self.levels@[0].indexer,
                indexer.wf(),
                shape == indexer.chunk_shape,
                shape.is_pow2_shape(),
                level_up_shape_fits(shape, 1),
                all_lods_in_bounds(indexer, lod0_chunk_key, 1, n as int) == all_lods_in_bounds(
                    indexer,
                    src_chunk_key,
                    dst_lod as int,
                    n as int,
                ),
            decreases n - dst_lod,
        {
            let dst = DownsampleDestination::for_source_chunk(shape, src_chunk_key, 1);
            if !indexer.is_key_in_bounds(&dst.dst_chunk_key) {
                assert(!all_lods_in_bounds(indexer, src_chunk_key, dst_lod as int, n as int));
                return false;
            }
            assert(all_lods_in_bounds(indexer, src_chunk_key, dst_lod as int, n as int)
                == all_lods_in_bounds(indexer, halved(src_chunk_key), dst_lod + 1, n as int));
            let next_key = src_chunk_key.shr(1);
            proof {
                vstd::arithmetic::power2::lemma2_to64();
                assert(is_half_of(next_key, src_chunk_key));
                let h = halved(src_chunk_key);
                assert(next_key@ =~= h@);
                lemma_point_ext(next_key, h);
            }
            src_chunk_key = next_key;
            dst_lod += 1;
        }
        true
    }

    /// Whether every level can be reached from every chunk that
    /// `lod0_extent` touches.
    pub fn check_can_downsample_extent(&self, lod0_extent: &ExtentN<D>) -> (ok: bool)
        requires
            self.wf(),
            lod0_extent.wf(),
        ensures
            ok == self.can_downsample_extent(*lod0_extent),
    {
        if self.levels.len() == 0 {
            return true;
        }
        let indexer = self.levels[0].indexer;
        if indexer.checked_num_keys(lod0_extent).is_none() {
            return false;
        }
        let keys = indexer.chunk_keys_for_extent(lod0_extent);
        let mut k: usize = 0;
        while k < keys.len()
            invariant
                k <= keys.len(),
                self.wf(),
                self.levels@.len() > 0,
                indexer == self.levels@[0].indexer,
                keys.len() == indexer.num_keys(*lod0_extent),
                keys@ == indexer.spec_chunk_keys_for_extent(*lod0_extent),
                forall|j: int| 0 <= j < k ==> self.can_downsample_all_lods(#[trigger] keys@[j]),
            decreases keys.len() - k,
        {
            if !self.check_can_downsample_all_lods(keys[k]) {
                return false;
            }
            k += 1;
        }
        true
    }

    /// The level-0 sources of `lod0_extent` are the keys of chunks: each is
    /// the minimum of a chunk that the extent touches, and none comes twice.
    pub open spec fn sources_are_chunks(self, lod0_extent: ExtentN<D>) -> bool {
        let indexer = self.levels@[0].indexer;
        let keys = indexer.spec_chunk_keys_for_extent(lod0_extent);
        &&& keys.no_duplicates()
        &&& forall|k: int|
            0 <= k < keys.len() ==> indexer.is_aligned((#[trigger] keys[k])@)
                && indexer.chunk_intersects(keys[k]@, lod0_extent)
    }

    /// Different level-0 sources of `lod0_extent` write to different voxels
    /// of level 1, so that the order in which they are visited does not
    /// matter there.
    pub open spec fn sources_write_apart(self, lod0_extent: ExtentN<D>) -> bool {
        let indexer = self.levels@[0].indexer;
        let keys = indexer.spec_chunk_keys_for_extent(lod0_extent);
        forall|j: int, k: int|
            0 <= j < k < keys.len() ==> destination_parts_disjoint(
                indexer,
                #[trigger] keys[j],
                #[trigger] keys[k],
                1,
            )
    }

    /// Walks from level 1 to the last level, at each step downsampling from
    /// the level below. The source key of the first step is
    /// `lod0_chunk_key`; the source key of every later step is that of the
    /// step before, halved: one level of detail is one bit of a key. Where
    /// the halved key is not the minimum of a chunk, no chunk is found
    /// there and the step hands on the ambient value.
    pub fn downsample_chunk_all_lods<Samp: ChunkDownsampler<D, T>>(
        &mut self,
        sampler: &Samp,
        lod0_chunk_key: PointN<D>,
    )
        requires
            old(self).wf(),
            old(self).chunks_valid(),
            old(self).can_downsample_all_lods(lod0_chunk_key),
        ensures
            final(self).wf(),
            final(self).chunks_valid(),
            final(self)@ == downsample_chunk_all_lods_model(old(self)@, *sampler, lod0_chunk_key, 1),
            final(self).levels@.len() == old(self).levels@.len(),
            final(self)@.len() == old(self)@.len(),
            final(self)@.len() > 0 ==> final(self)@[0] == old(self)@[0],
    {
        let n = self.levels.len();
        let ghost indexer = self.levels@[0].indexer;
        let mut src_chunk_key = lod0_chunk_key;
        let mut dst_lod: usize = 1;
        while dst_lod < n
            invariant
                1 <= dst_lod,
                n == self.levels@.len(),
                n == self@.len(),
                n == old(self)@.len(),
                self.wf(),
                self.chunks_valid(),
                n > 1 ==> indexer == self.levels@[0].indexer && level_up_shape_fits(
                    indexer.chunk_shape,
                    1,
                ),
                n > 0 ==> self@[0] == old(self)@[0],
                all_lods_in_bounds(indexer, src_chunk_key, dst_lod as int, n as int),
                downsample_chunk_all_lods_model(self@, *sampler, src_chunk_key, dst_lod as int)
                    == downsample_chunk_all_lods_model(old(self)@, *sampler, lod0_chunk_key, 1),
            decreases n - dst_lod,
        {
            let ghost before = self@;
            self.downsample_chunk(sampler, src_chunk_key, (dst_lod - 1) as u8, dst_lod as u8);
            let next_key = src_chunk_key.shr(1);
            proof {
                vstd::arithmetic::power2::lemma2_to64();
                assert(is_half_of(next_key, src_chunk_key));
                let h = halved(src_chunk_key);
                assert(next_key@ =~= h@);
                lemma_point_ext(next_key, h);
                assert(self.levels@[0]@ == self@[0]);
                assert(old(self).levels@[0]@ == old(self)@[0]);
                assert(self@[0].indexer == before[0].indexer);
            }
            src_chunk_key = next_key;
            dst_lod += 1;
        }
    }

    /// Downsamples all chunks that `lod0_extent` touches through all levels,
    /// in the row-major order of their keys. Destinations that several
    /// chunks share are written once for each.
    pub fn downsample_chunks_for_extent_all_lods<Samp: ChunkDownsampler<D, T>>(
        &mut self,
        sampler: &Samp,
        lod0_extent: &ExtentN<D>,
    )
        requires
            old(self).wf(),
            old(self).chunks_valid(),
            old(self).levels@.len() > 0,
            lod0_extent.wf(),
            old(self).can_downsample_extent(*lod0_extent),
        ensures
            final(self).wf(),
            final(self).chunks_valid(),
            final(self)@ == downsample_keys_model(
                old(self)@,
                *sampler,
                old(self).levels@[0].indexer.spec_chunk_keys_for_extent(*lod0_extent),
            ),
            final(self)@.len() == old(self)@.len(),
            final(self)@[0] == old(self)@[0],
            old(self).sources_are_chunks(*lod0_extent),
            old(self).levels@.len() > 1 ==> old(self).sources_write_apart(*lod0_extent),
    {
        let indexer = self.levels[0].indexer;
        let keys = indexer.chunk_keys_for_extent(lod0_extent);
        proof {
            assert(old(self).sources_are_chunks(*lod0_extent)) by {
                assert forall|k: int| 0 <= k < keys@.len() implies indexer.is_aligned(
                    (#[trigger] keys@[k])@,
                ) && indexer.chunk_intersects(keys@[k]@, *lod0_extent) by {
                    assert(keys@.contains(keys@[k]));
                }
            }
            if self.levels@.len() > 1 {
                assert forall|j: int, k: int| 0 <= j < k < keys@.len() implies destination_parts_disjoint(
                    indexer,
                    #[trigger] keys@[j],
                    #[trigger] keys@[k],
                    1,
                ) by {
                    assert(keys@.contains(keys@[j]));
                    assert(keys@.contains(keys@[k]));
                    assert(old(self).can_downsample_all_lods(keys@[j]));
                    lemma_destination_parts_disjoint(indexer, keys@[j], keys@[k], 1);
                }
            }
        }
        let mut k: usize = 0;
        proof {
            assert(keys@.skip(0) =~= keys@);
        }
        while k < keys.len()
            invariant
                k <= keys.len(),
                self.wf(),
                self.chunks_valid(),
                self@.len() == old(self)@.len(),
                self.levels@.len() > 0,
                self@[0] == old(self)@[0],
                indexer == self.levels@[0].indexer,
                keys.len() == indexer.num_keys(*lod0_extent),
                forall|j: int|
                    0 <= j < keys.len() ==> old(self).can_downsample_all_lods(#[trigger] keys@[j]),
                old(self).levels@.len() == self.levels@.len(),
                old(self).levels@[0].indexer == indexer,
                downsample_keys_model(self@, *sampler, keys@.skip(k as int))
                    == downsample_keys_model(old(self)@, *sampler, keys@),
            decreases keys.len() - k,
        {
            proof {
                assert(old(self).can_downsample_all_lods(keys@[k as int]));
                assert(keys@.skip(k as int)[0] == keys@[k as int]);
                assert(keys@.skip(k as int).drop_first() =~= keys@.skip(k as int + 1));
            }
            self.downsample_chunk_all_lods(sampler, keys[k]);
            proof {
                assert(self.levels@[0]@ == self@[0]);
                assert(old(self).levels@[0]@ == old(self)@[0]);
            }
            k += 1;
        }
        proof {
            assert(keys@.skip(keys.len() as int) =~= Seq::<PointN<D>>::empty());
        }
    }

    /// Downsamples everything in level 0 through all levels: the extent that
    /// bounds the chunks of level 0 is downsampled.
    pub fn downsample_entire_map_all_lods<Samp: ChunkDownsampler<D, T>>(&mut self, sampler: &Samp)
        requires
            old(self).wf(),
            old(self).chunks_valid(),
            old(self).levels@.len() > 0,
            old(self).levels@.len() > 1 ==> level_up_shape_fits(old(self).chunk_shape(), 1),
            old(self).levels@[0].indexer.num_keys(old(self)@[0].bounding_extent()) <= usize::MAX,
        ensures
            final(self).wf(),
            final(self).chunks_valid(),
            final(self)@ == downsample_keys_model(
                old(self)@,
                *sampler,
                old(self).levels@[0].indexer.spec_chunk_keys_for_extent(
                    old(self)@[0].bounding_extent(),
                ),
            ),
            final(self)@.len() == old(self)@.len(),
            final(self)@[0] == old(self)@[0],
            old(self).sources_are_chunks(old(self)@[0].bounding_extent()),
            old(self).levels@.len() > 1 ==> old(self).sources_write_apart(
                old(self)@[0].bounding_extent(),
            ),
    {
        proof {
            assert(self.levels@[0]@ == self@[0]);
            assert(self@[0].chunks_valid());
            assert forall|key: PointN<D>| #[trigger]
                self.levels@[0].chunks().contains_key(key) implies self.levels@[0].indexer.key_in_bounds(
                key@,
            ) by {
                assert(self@[0].chunks.contains_key(key));
            }
        }
        let bounding_extent = self.levels[0].bounding_extent();
        proof {
            self.lemma_bounded_keys_in_bounds(bounding_extent);
        }
        self.downsample_chunks_for_extent_all_lods(sampler, &bounding_extent);
    }

    /// Every level can be reached from every chunk that the bounding extent
    /// of level 0 touches: such a chunk lies between chunks of level 0, so
    /// inside the world's bounds.
    pub proof fn lemma_bounded_keys_in_bounds(self, extent: ExtentN<D>)
        requires
            self.wf(),
            self.chunks_valid(),
            self.levels@.len() > 0,
            self.levels@.len() > 1 ==> level_up_shape_fits(self.chunk_shape(), 1),
            self@[0].is_bounding_extent(extent),
            extent.wf(),
            self.levels@[0].indexer.num_keys(extent) <= usize::MAX,
        ensures
            self.can_downsample_extent(extent),
    {
        let indexer = self.levels@[0].indexer;
        let level = self@[0];
        let shape = indexer.chunk_shape@;
        let keys = indexer.spec_chunk_keys_for_extent(extent);
        assert(self.levels@[0].wf());
        assert(level == self.levels@[0]@);
        assert(level.chunks_valid());
        if self.levels@.len() > 1 {
            assert forall|k: int| 0 <= k < indexer.num_keys(extent) implies all_lods_in_bounds(
                indexer,
                #[trigger] keys[k],
                1,
                self.levels@.len() as int,
            ) by {
                let key = keys[k];
                assert(!extent.spec_is_empty());
                let witness = lemma_key_list_exists(indexer, extent);
                indexer.lemma_key_list_unique(witness, keys, extent);
                indexer.lemma_key_at(extent, key@);
                assert(indexer.key_at(extent, k) == key@);
                assert(indexer.is_aligned(key@) && indexer.chunk_intersects(key@, extent));
                assert forall|i: int| 0 <= i < D implies crate::indexer::WORLD_MIN
                    <= #[trigger] key@[i] && key@[i] + shape[i] <= crate::indexer::WORLD_LUB by {
                    assert(0 <= indexer.chunk_shape_log2@[i] < 31);
                    vstd::arithmetic::power2::lemma_pow2_pos(indexer.chunk_shape_log2@[i] as nat);
                    if forall|any: PointN<D>| !level.chunks.contains_key(any) {
                        assert(extent.minimum@[i] == 0 && extent.shape@[i] == 0);
                        assert(extent.spec_is_empty());
                    }
                    assert(extent.minimum@[i] == extent.minimum@[i]);
                    assert(extent.shape@[i] == extent.shape@[i]);
                    let low = choose|low: PointN<D>| #[trigger]
                        level.chunks.contains_key(low) && low@[i] == extent.minimum@[i];
                    let high = choose|high: PointN<D>| #[trigger]
                        level.chunks.contains_key(high) && high@[i] + shape[i]
                            == extent.minimum@[i] + extent.shape@[i];
                    assert(level.chunks.contains_key(low) && low@[i] == extent.minimum@[i]);
                    assert(level.chunks.contains_key(high) && high@[i] + shape[i]
                        == extent.minimum@[i] + extent.shape@[i]);
                    assert(indexer.key_in_bounds(low@) && indexer.is_aligned(low@));
                    assert(indexer.key_in_bounds(high@) && indexer.is_aligned(high@));
                    assert(crate::indexer::WORLD_MIN <= low@[i]);
                    assert(high@[i] + shape[i] <= crate::indexer::WORLD_LUB);
                    assert(key@[i] % shape[i] == 0);
                    assert(low@[i] % shape[i] == 0);
                    assert(high@[i] % shape[i] == 0);
                    assert(key@[i] < extent.minimum@[i] + extent.shape@[i]);
                    lemma_multiples_apart(shape[i], key@[i], high@[i]);
                    lemma_multiples_apart(shape[i], low@[i], key@[i]);
                }
                lemma_in_bounds_can_downsample(indexer, key, 1, self.levels@.len() as int);
            }
        }
    }
}

/// A pyramid whose levels keep their chunks in hash maps.
pub type ChunkHashMapPyramid<const D: usize, T, Meta> = ChunkPyramid<
    D,
    T,
    Meta,
    ChunkHashMapStorage<D, T, Meta>,
>;

/// A 2-dimensional `ChunkHashMapPyramid`.
pub type ChunkHashMapPyramid2<T, Meta> = ChunkHashMapPyramid<2, T, Meta>;

/// A 3-dimensional `ChunkHashMapPyramid`.
pub type ChunkHashMapPyramid3<T, Meta> = ChunkHashMapPyramid<3, T, Meta>;

/// Whether `levels` are `num_levels` chunk maps as `builder` makes them,
/// without any chunk.
pub open spec fn is_empty_pyramid<const D: usize, T, Meta>(
    levels: Seq<LevelView<D, T, Meta>>,
    builder: ChunkMapBuilder<D, T, Meta>,
    num_levels: int,
) -> bool {
    &&& levels.len() == num_levels
    &&& forall|i: int|
        0 <= i < num_levels ==> {
            &&& (#[trigger] levels[i]).chunks == Map::<PointN<D>, ChunkView<D, T, Meta>>::empty()
            &&& levels[i].indexer.chunk_shape == builder.chunk_shape
            &&& levels[i].ambient_value == builder.ambient_value
            &&& levels[i].default_chunk_metadata == builder.default_chunk_metadata
        }
}

impl<const D: usize, T: Copy, Meta: Copy> ChunkHashMapPyramid<D, T, Meta> {
    /// A pyramid of `num_lods` levels without any chunk.
    pub fn new(builder: ChunkMapBuilder<D, T, Meta>, num_lods: u8) -> (pyramid: Self)
        requires
            builder.valid(),
        ensures
            pyramid.wf(),
            pyramid.chunks_valid(),
            is_empty_pyramid(pyramid@, builder, num_lods as int),
            forall|i: int| 0 <= i < num_lods ==> (#[trigger] pyramid@[i]).live_capacity is None,
    {
        let mut levels: Vec<ChunkMap<D, T, Meta, ChunkHashMapStorage<D, T, Meta>>> = Vec::new();
        let mut i: u8 = 0;
        let ghost indexer = crate::indexer::ChunkIndexer::<D>::spec_new(builder.chunk_shape);
        while i < num_lods
            invariant
                i <= num_lods,
                builder.valid(),
                indexer == crate::indexer::ChunkIndexer::<D>::spec_new(builder.chunk_shape),
                levels@.len() == i,
                forall|j: int|
                    0 <= j < i ==> {
                        &&& (#[trigger] levels@[j]).wf()
                        &&& levels@[j]@.chunks == Map::<PointN<D>, ChunkView<D, T, Meta>>::empty()
                        &&& levels@[j].indexer == indexer
                        &&& levels@[j].indexer.chunk_shape == builder.chunk_shape
                        &&& levels@[j].ambient_value == builder.ambient_value
                        &&& levels@[j].default_chunk_metadata == builder.default_chunk_metadata
                    },
            decreases num_lods - i,
        {
            let map = builder.build_with_write_storage(ChunkHashMapStorage::new());
            levels.push(map);
            i += 1;
        }
        let pyramid = ChunkPyramid { levels };
        proof {
            assert forall|j: int| 0 <= j < pyramid@.len() implies (#[trigger] pyramid@[j]).chunks_valid() by {
                assert(pyramid@[j] == pyramid.levels@[j]@);
            }
            assert forall|j: int| 0 <= j < num_lods implies {
                &&& (#[trigger] pyramid@[j]).chunks == Map::<PointN<D>, ChunkView<D, T, Meta>>::empty()
                &&& pyramid@[j].indexer.chunk_shape == builder.chunk_shape
                &&& pyramid@[j].ambient_value == builder.ambient_value
                &&& pyramid@[j].default_chunk_metadata == builder.default_chunk_metadata
            } by {
                assert(pyramid@[j] == pyramid.levels@[j]@);
            }
        }
        pyramid
    }

    /// A pyramid of `num_lods` levels with `lod0_chunk_map` as level 0 and no
    /// chunk in the other levels.
    pub fn with_lod0_chunk_map(
        lod0_chunk_map: ChunkMap<D, T, Meta, ChunkHashMapStorage<D, T, Meta>>,
        num_lods: u8,
    ) -> (pyramid: Self)
        requires
            num_lods > 0,
            lod0_chunk_map.wf(),
        ensures
            pyramid.wf(),
            pyramid@.len() == num_lods,
            pyramid@[0] == lod0_chunk_map@,
            forall|i: int|
                1 <= i < num_lods ==> {
                    &&& (#[trigger] pyramid@[i]).chunks == Map::<
                        PointN<D>,
                        ChunkView<D, T, Meta>,
                    >::empty()
                    &&& pyramid@[i].indexer == lod0_chunk_map.indexer
                    &&& pyramid@[i].ambient_value == lod0_chunk_map.ambient_value
                    &&& pyramid@[i].default_chunk_metadata == lod0_chunk_map.default_chunk_metadata
                },
    {
        let builder = lod0_chunk_map.builder();
        proof {
            lod0_chunk_map.indexer.lemma_shape_is_pow2();
        }
        let mut pyramid = Self::new(builder, num_lods);
        let ghost empty = pyramid;
        proof {
            assert forall|i: int| 0 <= i < num_lods implies (#[trigger] empty.levels@[i]).indexer
                == lod0_chunk_map.indexer by {
                assert(empty@[i] == empty.levels@[i]@);
                empty.levels@[i].indexer.lemma_same_shape(lod0_chunk_map.indexer);
            }
        }
        let ghost lod0 = lod0_chunk_map@;
        let ghost lod0_indexer = lod0_chunk_map.indexer;
        *pyramid.level_mut(0) = lod0_chunk_map;
        proof {
            assert(pyramid.levels@[0]@ == lod0);
            assert forall|i: int| 1 <= i < num_lods implies {
                &&& (#[trigger] pyramid@[i]).chunks == Map::<PointN<D>, ChunkView<D, T, Meta>>::empty()
                &&& pyramid@[i].indexer == lod0_indexer
                &&& pyramid@[i].ambient_value == lod0.ambient_value
                &&& pyramid@[i].default_chunk_metadata == lod0.default_chunk_metadata
            } by {
                assert(pyramid.levels@[i] == empty.levels@[i]);
                assert(empty@[i] == empty.levels@[i]@);
            }
            assert forall|i: int| 0 <= i < pyramid.levels@.len() implies (
            #[trigger] pyramid.levels@[i]).wf() && pyramid.levels@[i].indexer
                == pyramid.levels@[0].indexer by {
                if i > 0 {
                    assert(pyramid.levels@[i] == empty.levels@[i]);
                }
            }
        }
        pyramid
    }
}

/// A pyramid whose levels keep a bounded number of chunks decompressed and
/// the others compressed.
pub type CompressibleChunkPyramid<const D: usize, T, Meta, B> = ChunkPyramid<
    D,
    T,
    Meta,
    CompressibleChunkStorage<D, T, Meta, B>,
>;

/// A 2-dimensional `CompressibleChunkPyramid`.
pub type CompressibleChunkPyramid2<T, Meta, B> = CompressibleChunkPyramid<2, T, Meta, B>;

/// A 3-dimensional `CompressibleChunkPyramid`.
pub type CompressibleChunkPyramid3<T, Meta, B> = CompressibleChunkPyramid<3, T, Meta, B>;

impl<
    const D: usize,
    T: VoxelBytes,
    Meta: Copy,
    B: BytesCompression + Copy,
> CompressibleChunkPyramid<D, T, Meta, B> {
    /// A pyramid of `num_levels` levels without any chunk, every level
    /// compressing with `compression`.
    pub fn new(builder: ChunkMapBuilder<D, T, Meta>, num_levels: u8, compression: B) -> (pyramid:
        Self)
        requires
            builder.valid(),
        ensures
            pyramid.wf(),
            pyramid.chunks_valid(),
            is_empty_pyramid(pyramid@, builder, num_levels as int),
            forall|i: int|
                0 <= i < num_levels ==> (#[trigger] pyramid.levels@[i]).storage.compression
                    == compression,
            forall|i: int|
                0 <= i < num_levels ==> (#[trigger] pyramid@[i]).live_capacity == Some(
                    crate::compressible::DEFAULT_CAPACITY as nat,
                ),
    {
        let mut levels: Vec<ChunkMap<D, T, Meta, CompressibleChunkStorage<D, T, Meta, B>>> =
            Vec::new();
        let mut i: u8 = 0;
        let ghost indexer = crate::indexer::ChunkIndexer::<D>::spec_new(builder.chunk_shape);
        while i < num_levels
            invariant
                i <= num_levels,
                builder.valid(),
                indexer == crate::indexer::ChunkIndexer::<D>::spec_new(builder.chunk_shape),
                levels@.len() == i,
                forall|j: int|
                    0 <= j < i ==> {
                        &&& (#[trigger] levels@[j]).wf()
                        &&& levels@[j]@.chunks == Map::<PointN<D>, ChunkView<D, T, Meta>>::empty()
                        &&& levels@[j].indexer == indexer
                        &&& levels@[j].indexer.chunk_shape == builder.chunk_shape
                        &&& levels@[j].ambient_value == builder.ambient_value
                        &&& levels@[j].default_chunk_metadata == builder.default_chunk_metadata
                        &&& levels@[j].storage.compression == compression
                        &&& levels@[j].storage.capacity == crate::compressible::DEFAULT_CAPACITY
                    },
            decreases num_levels - i,
        {
            let map = builder.build_with_write_storage(CompressibleChunkStorage::new(compression));
            levels.push(map);
            i += 1;
        }
        let pyramid = ChunkPyramid { levels };
        proof {
            assert forall|j: int| 0 <= j < pyramid@.len() implies (#[trigger] pyramid@[j]).chunks_valid() by {
                assert(pyramid@[j] == pyramid.levels@[j]@);
            }
            assert forall|j: int| 0 <= j < num_levels implies {
                &&& (#[trigger] pyramid@[j]).chunks == Map::<PointN<D>, ChunkView<D, T, Meta>>::empty()
                &&& pyramid@[j].indexer.chunk_shape == builder.chunk_shape
                &&& pyramid@[j].ambient_value == builder.ambient_value
                &&& pyramid@[j].default_chunk_metadata == builder.default_chunk_metadata
            } by {
                assert(pyramid@[j] == pyramid.levels@[j]@);
            }
        }
        pyramid
    }
}

} // verus!
