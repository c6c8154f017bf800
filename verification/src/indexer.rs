//! The chunk grid: which chunk a point belongs to, and which chunks a box
//! touches.
use crate::extent::{
    delinearize, in_shape, lemma_delinearize_in_shape, lemma_linearize_delinearize,
    lemma_product_zero, product, ExtentN,
};
use crate::point::{lemma_point_ext, PointN};
use vstd::arithmetic::div_mod::{lemma_fundamental_div_mod, lemma_mod_bound};
use vstd::arithmetic::power2::pow2;
use vstd::prelude::*;

verus! {

/// Cuts the lattice into chunks of one shape, every side a power of two. The
/// key of a chunk is its minimum, a point whose coordinates are multiples of
/// the sides: the chunk with key `k` holds the points `p` with `k[i] <= p[i] <
/// k[i] + shape[i]`. Keys are in voxels of their own level, so every level
/// of detail uses the same keys.
#[derive(Clone, Copy, Debug)]
pub struct ChunkIndexer<const D: usize> {
    pub chunk_shape: PointN<D>,
    pub chunk_shape_log2: PointN<D>,
}

/// The least coordinate of a voxel that a chunk store addresses.
pub const WORLD_MIN: i32 = -0x4000_0000;

/// One past the greatest coordinate of a voxel that a chunk store addresses.
/// The distance from `WORLD_MIN` to here fits `i32`.
pub const WORLD_LUB: i32 = 0x3FFF_FFFF;

/// One coordinate of a point counted in chunks: the coordinate divided by
/// the chunk's side, rounded toward negative infinity.
pub open spec fn grid_coordinate(side: int, p: int) -> int {
    p / side
}

/// One coordinate of the key of the chunk that holds a point: the point's
/// coordinate divided by the chunk's side, rounded toward negative infinity,
/// and scaled by the side again.
pub open spec fn key_coordinate(side: int, p: int) -> int {
    grid_coordinate(side, p) * side
}

/// Keying is idempotent: the key of a point that is the minimum of a chunk
/// is that point. The quotient of a point by the chunk's side, scaled by the
/// side, is such a point, and its key is the key of the point.
pub proof fn lemma_rekey_idempotent(side: int, p: int)
    requires
        side > 0,
    ensures
        key_coordinate(side, grid_coordinate(side, p) * side) == key_coordinate(side, p),
        key_coordinate(side, key_coordinate(side, p)) == key_coordinate(side, p),
        key_coordinate(side, p) % side == 0,
        key_coordinate(side, p) <= p < key_coordinate(side, p) + side,
{
    vstd::arithmetic::div_mod::lemma_div_multiples_vanish(p / side, side);
    assert((p / side) * side == side * (p / side)) by (nonlinear_arith);
    vstd::arithmetic::div_mod::lemma_mod_multiples_basic(p / side, side);
    lemma_fundamental_div_mod(p, side);
    lemma_mod_bound(p, side);
}

/// A multiple of the side is the key of itself.
pub proof fn lemma_aligned_key(side: int, key: int)
    requires
        side > 0,
        key % side == 0,
    ensures
        key_coordinate(side, key) == key,
        key == (key / side) * side,
{
    lemma_fundamental_div_mod(key, side);
    assert((key / side) * side == side * (key / side)) by (nonlinear_arith);
}

/// The keys `q` from `a / side` to `b / side` are those whose chunk reaches
/// into `a..=b`.
pub proof fn lemma_key_range(side: int, a: int, b: int, q: int)
    requires
        side > 0,
    ensures
        (a / side <= q <= b / side) <==> (a < q * side + side && q * side <= b),
{
    lemma_fundamental_div_mod(a, side);
    lemma_fundamental_div_mod(b, side);
    lemma_mod_bound(a, side);
    lemma_mod_bound(b, side);
    let qa = a / side;
    let qb = b / side;
    assert((qa <= q) <==> (a < q * side + side)) by (nonlinear_arith)
        requires
            side > 0,
            a == side * qa + a % side,
            0 <= a % side < side,
    ;
    assert((q <= qb) <==> (q * side <= b)) by (nonlinear_arith)
        requires
            side > 0,
            b == side * qb + b % side,
            0 <= b % side < side,
    ;
}

/// Between two numbers there are no more multiples of `side` than numbers.
pub proof fn lemma_key_span(side: int, a: int, b: int)
    requires
        side > 0,
        a <= b,
    ensures
        0 <= b / side - a / side <= b - a,
        a / side <= a || a < 0,
        b < 0 ==> b / side < 0,
        a >= 0 ==> 0 <= a / side <= a,
        a / side >= a || a >= 0,
{
    lemma_fundamental_div_mod(a, side);
    lemma_fundamental_div_mod(b, side);
    lemma_mod_bound(a, side);
    lemma_mod_bound(b, side);
    let qa = a / side;
    let qb = b / side;
    assert(0 <= qb - qa <= b - a) by (nonlinear_arith)
        requires
            side > 0,
            a <= b,
            a == side * qa + a % side,
            0 <= a % side < side,
            b == side * qb + b % side,
            0 <= b % side < side,
    ;
    assert((a >= 0 ==> 0 <= qa <= a) && (a < 0 ==> a <= qa < 0)) by (nonlinear_arith)
        requires
            side > 0,
            a == side * qa + a % side,
            0 <= a % side < side,
    ;
    assert(b < 0 ==> qb < 0) by (nonlinear_arith)
        requires
            side > 0,
            b == side * qb + b % side,
            0 <= b % side < side,
    ;
}

impl<const D: usize> ChunkIndexer<D> {
    /// Every side of the chunk shape is a power of two, and the exponents are
    /// recorded.
    pub open spec fn wf(self) -> bool {
        forall|i: int|
            0 <= i < D ==> 0 <= #[trigger] self.chunk_shape_log2@[i] < 31 && self.chunk_shape@[i]
                == pow2(self.chunk_shape_log2@[i] as nat)
    }

    /// Whether the chunk with key `key` lies between `WORLD_MIN` and
    /// `WORLD_LUB` in every coordinate.
    pub open spec fn key_in_bounds(self, key: Seq<int>) -> bool {
        &&& key.len() == D
        &&& forall|i: int|
            0 <= i < D ==> WORLD_MIN <= #[trigger] key[i] && key[i] + self.chunk_shape@[i]
                <= WORLD_LUB
    }

    /// Whether `key` is the minimum of a chunk: every coordinate is a
    /// multiple of the chunk's side.
    pub open spec fn is_aligned(self, key: Seq<int>) -> bool {
        &&& key.len() == D
        &&& forall|i: int| 0 <= i < D ==> #[trigger] key[i] % self.chunk_shape@[i] == 0
    }

    /// Whether the chunk with key `key` shares a point with `extent`.
    pub open spec fn chunk_intersects(self, key: Seq<int>, extent: ExtentN<D>) -> bool {
        &&& key.len() == D
        &&& forall|i: int|
            0 <= i < D ==> #[trigger] key[i] < extent.minimum@[i] + extent.shape@[i]
                && extent.minimum@[i] < key[i] + self.chunk_shape@[i] && extent.shape@[i] > 0
    }

    /// The sides of the chunk shape are powers of two.
    pub proof fn lemma_shape_is_pow2(self)
        requires
            self.wf(),
        ensures
            self.chunk_shape.is_pow2_shape(),
    {
        assert forall|i: int| 0 <= i < D implies crate::point::is_pow2_i32(
            #[trigger] self.chunk_shape@[i],
        ) by {
            let k = self.chunk_shape_log2@[i] as nat;
            assert(0 <= self.chunk_shape_log2@[i] < 31);
            assert(k < 31 && self.chunk_shape@[i] == pow2(k));
        }
    }

    /// Whether `e` is the box of the points of the chunk with key `key`.
    pub open spec fn is_extent_of_chunk(self, e: ExtentN<D>, key: PointN<D>) -> bool {
        e == self.spec_extent_for_chunk_at_key(key)
    }

    /// The box of the points of the chunk with key `key`.
    pub open spec fn spec_extent_for_chunk_at_key(self, key: PointN<D>) -> ExtentN<D> {
        ExtentN { minimum: key, shape: self.chunk_shape }
    }

    /// In each coordinate, the first chunk that `extent` touches, counted in
    /// chunks.
    pub open spec fn first_key(self, extent: ExtentN<D>) -> Seq<int> {
        Seq::new(D as nat, |i: int| grid_coordinate(self.chunk_shape@[i], extent.minimum@[i]))
    }

    /// In each coordinate, how many chunks `extent` touches.
    pub open spec fn key_counts(self, extent: ExtentN<D>) -> Seq<int> {
        Seq::new(
            D as nat,
            |i: int|
                grid_coordinate(
                    self.chunk_shape@[i],
                    extent.minimum@[i] + extent.shape@[i] - 1,
                ) - grid_coordinate(self.chunk_shape@[i], extent.minimum@[i]) + 1,
        )
    }

    /// How many chunks `extent` touches.
    pub open spec fn num_keys(self, extent: ExtentN<D>) -> int {
        if extent.spec_is_empty() {
            0
        } else {
            product(self.key_counts(extent))
        }
    }

    /// The key of rank `k` among the chunks that `extent` touches, in
    /// row-major order.
    pub open spec fn key_at(self, extent: ExtentN<D>, k: int) -> Seq<int> {
        Seq::new(
            D as nat,
            |i: int|
                (self.first_key(extent)[i] + delinearize(self.key_counts(extent), k)[i])
                    * self.chunk_shape@[i],
        )
    }

    /// Valid indexers for chunks of one shape are the same indexer.
    pub proof fn lemma_same_shape(self, other: Self)
        requires
            self.wf(),
            other.wf(),
            self.chunk_shape == other.chunk_shape,
        ensures
            self == other,
    {
        assert forall|i: int| 0 <= i < D implies self.chunk_shape_log2@[i]
            == other.chunk_shape_log2@[i] by {
            let a = self.chunk_shape_log2@[i] as nat;
            let b = other.chunk_shape_log2@[i] as nat;
            assert(0 <= self.chunk_shape_log2@[i] < 31);
            assert(0 <= other.chunk_shape_log2@[i] < 31);
            assert(pow2(a) == self.chunk_shape@[i]);
            assert(pow2(b) == other.chunk_shape@[i]);
            if a < b {
                vstd::arithmetic::power2::lemma_pow2_strictly_increases(a, b);
            }
            if b < a {
                vstd::arithmetic::power2::lemma_pow2_strictly_increases(b, a);
            }
        }
        assert(self.chunk_shape_log2@ =~= other.chunk_shape_log2@);
        lemma_point_ext(self.chunk_shape_log2, other.chunk_shape_log2);
    }

    /// The indexer for chunks of the given shape.
    pub open spec fn spec_new(chunk_shape: PointN<D>) -> Self {
        choose|r: Self| r.wf() && r.chunk_shape == chunk_shape
    }

    /// An indexer for chunks of the given shape.
    pub fn new(chunk_shape: PointN<D>) -> (r: Self)
        requires
            chunk_shape.is_pow2_shape(),
        ensures
            r.wf(),
            r.chunk_shape == chunk_shape,
            r == Self::spec_new(chunk_shape),
    {
        let chunk_shape_log2 = chunk_shape.log2();
        let r = ChunkIndexer { chunk_shape, chunk_shape_log2 };
        proof {
            assert(r.wf() && r.chunk_shape == chunk_shape);
            r.lemma_same_shape(Self::spec_new(chunk_shape));
        }
        r
    }

    /// The shape of every chunk.
    pub fn chunk_shape(&self) -> (s: PointN<D>)
        ensures
            s == self.chunk_shape,
    {
        self.chunk_shape
    }

    /// The key of the chunk that holds `p`: `p` divided by the chunk shape,
    /// rounded toward negative infinity, and scaled by the chunk shape again.
    pub fn chunk_key_for_point(&self, p: PointN<D>) -> (key: PointN<D>)
        requires
            self.wf(),
        ensures
            forall|i: int|
                0 <= i < D ==> #[trigger] key@[i] == key_coordinate(self.chunk_shape@[i], p@[i]),
            self.is_aligned(key@),
    {
        let quotient = p.vector_shr(self.chunk_shape_log2);
        proof {
            vstd::arithmetic::power2::lemma2_to64();
            assert forall|i: int| 0 <= i < D implies 0 <= #[trigger] self.chunk_shape_log2@[i] < 32
                && i32::MIN <= #[trigger] (quotient@[i] * pow2(self.chunk_shape_log2@[i] as nat))
                <= i32::MAX by {
                assert(0 <= self.chunk_shape_log2@[i] < 31);
                crate::bits::lemma_pow2_bounds(self.chunk_shape_log2@[i] as nat);
                crate::pyramid::lemma_destination_bounds(
                    self.chunk_shape_log2@[i] as nat,
                    p@[i],
                    0,
                );
            }
        }
        let key = quotient.vector_shl(self.chunk_shape_log2);
        proof {
            assert forall|i: int| 0 <= i < D implies #[trigger] key@[i] == key_coordinate(
                self.chunk_shape@[i],
                p@[i],
            ) && key@[i] % self.chunk_shape@[i] == 0 by {
                assert(0 <= self.chunk_shape_log2@[i] < 31);
                vstd::arithmetic::power2::lemma_pow2_pos(self.chunk_shape_log2@[i] as nat);
                lemma_rekey_idempotent(self.chunk_shape@[i], p@[i]);
            }
        }
        key
    }

    /// Whether the chunk with key `key` lies between `WORLD_MIN` and
    /// `WORLD_LUB` in every coordinate.
    pub fn is_key_in_bounds(&self, key: &PointN<D>) -> (r: bool)
        requires
            self.wf(),
        ensures
            r == self.key_in_bounds(key@),
    {
        let mut i: usize = 0;
        while i < D
            invariant
                i <= D,
                self.wf(),
                forall|j: int|
                    0 <= j < i ==> WORLD_MIN <= #[trigger] key@[j] && key@[j]
                        + self.chunk_shape@[j] <= WORLD_LUB,
            decreases D - i,
        {
            let side: i64 = self.chunk_shape.0[i] as i64;
            let k: i64 = key.0[i] as i64;
            if k < WORLD_MIN as i64 || k + side > WORLD_LUB as i64 {
                assert(!(WORLD_MIN <= key@[i as int] && key@[i as int]
                    + self.chunk_shape@[i as int] <= WORLD_LUB));
                return false;
            }
            i += 1;
        }
        true
    }

    /// Whether `key` is the minimum of a chunk.
    pub fn is_key_aligned(&self, key: &PointN<D>) -> (r: bool)
        requires
            self.wf(),
        ensures
            r == self.is_aligned(key@),
    {
        let mut i: usize = 0;
        while i < D
            invariant
                i <= D,
                self.wf(),
                forall|j: int| 0 <= j < i ==> #[trigger] key@[j] % self.chunk_shape@[j] == 0,
            decreases D - i,
        {
            proof {
                assert(0 <= self.chunk_shape_log2@[i as int] < 31);
                vstd::arithmetic::power2::lemma_pow2_pos(self.chunk_shape_log2@[i as int] as nat);
            }
            if crate::point::mod_floor(key.0[i], self.chunk_shape.0[i]) != 0 {
                assert(!(key@[i as int] % self.chunk_shape@[i as int] == 0));
                return false;
            }
            i += 1;
        }
        true
    }

    /// The box of the points of the chunk with key `key`.
    pub fn extent_for_chunk_at_key(&self, key: PointN<D>) -> (e: ExtentN<D>)
        requires
            self.wf(),
            self.key_in_bounds(key@),
        ensures
            e.wf(),
            e == self.spec_extent_for_chunk_at_key(key),
            self.is_extent_of_chunk(e, key),
    {
        let e = ExtentN::from_min_and_shape(key, self.chunk_shape);
        proof {
            assert forall|i: int| 0 <= i < D implies #[trigger] e.shape@[i] >= 0 && e.minimum@[i]
                + e.shape@[i] <= i32::MAX by {
                assert(0 <= self.chunk_shape_log2@[i] < 31);
                vstd::arithmetic::power2::lemma_pow2_pos(self.chunk_shape_log2@[i] as nat);
                assert(WORLD_MIN <= key@[i]);
            }
        }
        e
    }

    /// Whether `keys` lists the keys of the chunks that `extent` touches, in
    /// row-major order.
    pub open spec fn is_key_list(self, keys: Seq<PointN<D>>, extent: ExtentN<D>) -> bool {
        &&& keys.len() == self.num_keys(extent)
        &&& forall|k: int| 0 <= k < keys.len() ==> (#[trigger] keys[k])@ == self.key_at(extent, k)
    }

    /// The keys of the chunks that `extent` touches, in row-major order.
    pub open spec fn spec_chunk_keys_for_extent(self, extent: ExtentN<D>) -> Seq<PointN<D>> {
        choose|keys: Seq<PointN<D>>| self.is_key_list(keys, extent)
    }

    /// A box has one list of keys only.
    pub proof fn lemma_key_list_unique(self, a: Seq<PointN<D>>, b: Seq<PointN<D>>, extent: ExtentN<D>)
        requires
            self.is_key_list(a, extent),
            self.is_key_list(b, extent),
        ensures
            a == b,
    {
        assert forall|k: int| 0 <= k < a.len() implies a[k] == b[k] by {
            lemma_point_ext(a[k], b[k]);
        }
        assert(a =~= b);
    }

    /// The keys that `chunk_keys_for_extent` lists are the minimums of the
    /// chunks that the box touches, each at one rank.
    pub proof fn lemma_key_at(self, extent: ExtentN<D>, key: Seq<int>)
        requires
            self.wf(),
            extent.wf(),
            !extent.spec_is_empty(),
        ensures
            self.is_aligned(key) && self.chunk_intersects(key, extent) <==> exists|k: int|
                0 <= k < self.num_keys(extent) && #[trigger] self.key_at(extent, k) == key,
            forall|j: int, k: int|
                0 <= j < self.num_keys(extent) && 0 <= k < self.num_keys(extent) && self.key_at(
                    extent,
                    j,
                ) == self.key_at(extent, k) ==> j == k,
    {
        let counts = self.key_counts(extent);
        let first = self.first_key(extent);
        let shape = self.chunk_shape@;
        assert forall|i: int| 0 <= i < D implies #[trigger] counts[i] >= 1 && shape[i] > 0 by {
            assert(self.chunk_shape_log2@[i] >= 0);
            vstd::arithmetic::power2::lemma_pow2_pos(self.chunk_shape_log2@[i] as nat);
            assert(extent.shape@[i] > 0);
            lemma_key_span(
                self.chunk_shape@[i],
                extent.minimum@[i],
                extent.minimum@[i] + extent.shape@[i] - 1,
            );
        }
        assert forall|j: int, k: int|
            0 <= j < self.num_keys(extent) && 0 <= k < self.num_keys(extent) && self.key_at(
                extent,
                j,
            ) == self.key_at(extent, k) implies j == k by {
            lemma_delinearize_in_shape(counts, j);
            lemma_delinearize_in_shape(counts, k);
            let dj = delinearize(counts, j);
            let dk = delinearize(counts, k);
            assert forall|i: int| 0 <= i < D implies dj[i] == dk[i] by {
                assert(counts[i] >= 1 && shape[i] > 0);
                assert(self.key_at(extent, j)[i] == (first[i] + dj[i]) * shape[i]);
                assert(self.key_at(extent, k)[i] == (first[i] + dk[i]) * shape[i]);
                assert(dj[i] == dk[i]) by (nonlinear_arith)
                    requires
                        (first[i] + dj[i]) * shape[i] == (first[i] + dk[i]) * shape[i],
                        shape[i] > 0,
                ;
            }
            assert(dj =~= dk);
            lemma_linearize_delinearize(counts, j);
            lemma_linearize_delinearize(counts, k);
        }
        if self.is_aligned(key) && self.chunk_intersects(key, extent) {
            let l = Seq::new(D as nat, |i: int| key[i] / shape[i] - first[i]);
            assert(in_shape(counts, l)) by {
                assert forall|i: int| 0 <= i < D implies 0 <= #[trigger] l[i] < counts[i] by {
                    assert(counts[i] >= 1 && shape[i] > 0);
                    assert(key[i] % shape[i] == 0);
                    lemma_aligned_key(shape[i], key[i]);
                    assert(key[i] < extent.minimum@[i] + extent.shape@[i]);
                    lemma_key_range(
                        shape[i],
                        extent.minimum@[i],
                        extent.minimum@[i] + extent.shape@[i] - 1,
                        key[i] / shape[i],
                    );
                }
            }
            let k = crate::extent::linearize(counts, l);
            crate::extent::lemma_linearize_bound(counts, l);
            crate::extent::lemma_delinearize_linearize(counts, l);
            assert(self.key_at(extent, k) =~= key) by {
                assert forall|i: int| 0 <= i < D implies self.key_at(extent, k)[i] == key[i] by {
                    assert(counts[i] >= 1 && shape[i] > 0);
                    assert(key[i] % shape[i] == 0);
                    lemma_aligned_key(shape[i], key[i]);
                }
            }
        }
        if exists|k: int|
            0 <= k < self.num_keys(extent) && #[trigger] self.key_at(extent, k) == key {
            let k = choose|k: int|
                0 <= k < self.num_keys(extent) && #[trigger] self.key_at(extent, k) == key;
            lemma_delinearize_in_shape(counts, k);
            let d = delinearize(counts, k);
            assert forall|i: int| 0 <= i < D implies #[trigger] key[i] % shape[i] == 0 by {
                assert(counts[i] >= 1 && shape[i] > 0);
                assert(self.key_at(extent, k)[i] == (first[i] + d[i]) * shape[i]);
                vstd::arithmetic::div_mod::lemma_mod_multiples_basic(first[i] + d[i], shape[i]);
            }
            assert forall|i: int| 0 <= i < D implies #[trigger] key[i] < extent.minimum@[i]
                + extent.shape@[i] && extent.minimum@[i] < key[i] + shape[i] && extent.shape@[i]
                > 0 by {
                assert(counts[i] >= 1 && shape[i] > 0);
                assert(self.key_at(extent, k)[i] == (first[i] + d[i]) * shape[i]);
                assert(0 <= d[i] < counts[i]);
                lemma_key_range(
                    shape[i],
                    extent.minimum@[i],
                    extent.minimum@[i] + extent.shape@[i] - 1,
                    first[i] + d[i],
                );
            }
        }
    }

    /// The box of the chunks that `extent` touches, counted in chunks.
    fn grid_extent(&self, extent: &ExtentN<D>) -> (grid: ExtentN<D>)
        requires
            self.wf(),
            extent.wf(),
            !extent.spec_is_empty(),
        ensures
            grid.wf(),
            grid.shape@ == self.key_counts(*extent),
            grid.minimum@ == self.first_key(*extent),
    {
        let ones: PointN<D> = PointN::ones();
        let lub = extent.least_upper_bound();
        proof {
            assert forall|i: int| 0 <= i < D implies i32::MIN <= #[trigger] lub@[i] - ones@[i]
                <= i32::MAX by {
                assert(extent.shape@[i] > 0);
            }
        }
        let max = lub.sub(ones);
        let first = extent.minimum.vector_shr(self.chunk_shape_log2);
        let last = max.vector_shr(self.chunk_shape_log2);
        proof {
            assert forall|i: int| 0 <= i < D implies 0 <= #[trigger] last@[i] - first@[i] + 1
                <= i32::MAX && last@[i] < i32::MAX by {
                assert(0 <= self.chunk_shape_log2@[i] < 31);
                vstd::arithmetic::power2::lemma_pow2_pos(self.chunk_shape_log2@[i] as nat);
                assert(extent.shape@[i] > 0);
                assert(extent.minimum@[i] + extent.shape@[i] <= i32::MAX);
                assert(max@[i] == lub@[i] - ones@[i]);
                lemma_key_span(self.chunk_shape@[i], extent.minimum@[i], max@[i]);
                lemma_key_span(self.chunk_shape@[i], max@[i], max@[i]);
            }
        }
        let grid = ExtentN::from_min_and_max(first, last);
        proof {
            assert(grid.shape@ =~= self.key_counts(*extent)) by {
                assert forall|i: int| 0 <= i < D implies grid.shape@[i] == self.key_counts(
                    *extent,
                )[i] by {
                    assert(0 <= self.chunk_shape_log2@[i] < 31);
                    assert(max@[i] == lub@[i] - ones@[i]);
                }
            }
            assert(grid.minimum@ =~= self.first_key(*extent)) by {
                assert forall|i: int| 0 <= i < D implies grid.minimum@[i] == self.first_key(
                    *extent,
                )[i] by {
                    assert(0 <= self.chunk_shape_log2@[i] < 31);
                }
            }
        }
        grid
    }

    /// How many chunks `extent` touches, or `None` if `usize` cannot hold
    /// the number.
    pub fn checked_num_keys(&self, extent: &ExtentN<D>) -> (n: Option<usize>)
        requires
            self.wf(),
            extent.wf(),
        ensures
            match n {
                Some(v) => v == self.num_keys(*extent),
                None => self.num_keys(*extent) > usize::MAX,
            },
    {
        if extent.is_empty() {
            return Some(0);
        }
        let grid = self.grid_extent(extent);
        grid.checked_num_points()
    }

    /// The keys of the chunks that share a point with `extent`, in row-major
    /// order: the first coordinate runs fastest. Every key is the minimum of
    /// its chunk.
    pub fn chunk_keys_for_extent(&self, extent: &ExtentN<D>) -> (keys: Vec<PointN<D>>)
        requires
            self.wf(),
            extent.wf(),
            self.num_keys(*extent) <= usize::MAX,
        ensures
            self.is_key_list(keys@, *extent),
            keys@ == self.spec_chunk_keys_for_extent(*extent),
            forall|key: PointN<D>|
                keys@.contains(key) <==> self.is_aligned(key@) && self.chunk_intersects(
                    key@,
                    *extent,
                ),
            keys@.no_duplicates(),
    {
        if extent.is_empty() {
            let keys: Vec<PointN<D>> = Vec::new();
            proof {
                assert(self.is_key_list(keys@, *extent));
                self.lemma_key_list_unique(keys@, self.spec_chunk_keys_for_extent(*extent), *extent);
                assert forall|key: PointN<D>| !self.chunk_intersects(key@, *extent) by {
                    let i = choose|i: int| 0 <= i < D && #[trigger] extent.shape@[i] <= 0;
                    if self.chunk_intersects(key@, *extent) {
                        assert(key@[i] < extent.minimum@[i] + extent.shape@[i]);
                    }
                }
            }
            return keys;
        }
        let grid = self.grid_extent(extent);
        let cells = grid.points();
        let mut keys: Vec<PointN<D>> = Vec::new();
        let mut k: usize = 0;
        while k < cells.len()
            invariant
                k <= cells.len(),
                self.wf(),
                extent.wf(),
                !extent.spec_is_empty(),
                grid.wf(),
                cells.len() == grid.volume(),
                grid.shape@ == self.key_counts(*extent),
                grid.minimum@ == self.first_key(*extent),
                forall|j: int|
                    0 <= j < cells.len() ==> (#[trigger] cells[j])@ == grid.spec_point_at(j),
                keys.len() == k,
                forall|j: int| 0 <= j < k ==> (#[trigger] keys[j])@ == self.key_at(*extent, j),
            decreases cells.len() - k,
        {
            let cell = cells[k];
            proof {
                grid.lemma_point_at(k as int);
                assert forall|i: int| 0 <= i < D implies 0 <= #[trigger] self.chunk_shape_log2@[i]
                    < 32 && i32::MIN <= #[trigger] (cell@[i] * pow2(
                    self.chunk_shape_log2@[i] as nat,
                )) <= i32::MAX by {
                    let side = self.chunk_shape@[i];
                    let low = extent.minimum@[i];
                    let high = extent.minimum@[i] + extent.shape@[i] - 1;
                    assert(0 <= self.chunk_shape_log2@[i] < 31);
                    vstd::arithmetic::power2::lemma_pow2_pos(self.chunk_shape_log2@[i] as nat);
                    vstd::arithmetic::power2::lemma2_to64();
                    crate::pyramid::lemma_destination_bounds(
                        self.chunk_shape_log2@[i] as nat,
                        low,
                        0,
                    );
                    assert(extent.shape@[i] >= 0);
                    lemma_rekey_idempotent(side, high);
                    assert(grid.minimum@[i] <= cell@[i] < grid.minimum@[i] + grid.shape@[i]);
                    assert((low / side) * side <= cell@[i] * side <= (high / side) * side)
                        by (nonlinear_arith)
                        requires
                            low / side <= cell@[i] <= high / side,
                            side > 0,
                    ;
                }
            }
            let key = cell.vector_shl(self.chunk_shape_log2);
            proof {
                assert(key@ =~= self.key_at(*extent, k as int)) by {
                    assert forall|i: int| 0 <= i < D implies key@[i] == self.key_at(
                        *extent,
                        k as int,
                    )[i] by {
                        assert(0 <= self.chunk_shape_log2@[i] < 31);
                    }
                }
            }
            keys.push(key);
            k += 1;
        }
        proof {
            assert(self.is_key_list(keys@, *extent));
            self.lemma_key_list_unique(keys@, self.spec_chunk_keys_for_extent(*extent), *extent);
            assert forall|key: PointN<D>|
                keys@.contains(key) <==> self.is_aligned(key@) && self.chunk_intersects(
                    key@,
                    *extent,
                ) by {
                self.lemma_key_at(*extent, key@);
                if keys@.contains(key) {
                    let k = choose|k: int| 0 <= k < keys@.len() && keys@[k] == key;
                    assert(self.key_at(*extent, k) == key@);
                }
                if self.is_aligned(key@) && self.chunk_intersects(key@, *extent) {
                    let k = choose|k: int|
                        0 <= k < self.num_keys(*extent) && #[trigger] self.key_at(*extent, k)
                            == key@;
                    assert(keys[k]@ == key@);
                    lemma_point_ext(keys[k], key);
                    assert(keys@[k] == key);
                }
            }
            assert forall|j: int, k: int|
                0 <= j < keys@.len() && 0 <= k < keys@.len() && j != k implies keys@[j]
                != keys@[k] by {
                self.lemma_key_at(*extent, keys[j]@);
                assert(keys[j]@ == self.key_at(*extent, j));
                assert(keys[k]@ == self.key_at(*extent, k));
            }
        }
        keys
    }
}

} // verus!
