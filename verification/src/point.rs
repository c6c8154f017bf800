//! Points of the integer lattice and their component-wise arithmetic.
//!
//! Components are `i32`. Every operation whose mathematical result could leave
//! the range of `i32` asks its caller, by a precondition, to rule that out.
use crate::bits::{lemma_pow2_bounds, lemma_shl_is_mul, lemma_shr_is_floor_div};
use vstd::arithmetic::power2::pow2;
use vstd::prelude::*;

verus! {

/// A point with `D` integer coordinates.
#[derive(Clone, Copy, Debug, PartialEq, Eq, Hash)]
pub struct PointN<const D: usize>(pub [i32; D]);

/// A point of the plane.
pub type Point2i = PointN<2>;

/// A point of space.
pub type Point3i = PointN<3>;

impl<const D: usize> View for PointN<D> {
    type V = Seq<int>;

    /// The coordinates as mathematical integers.
    open spec fn view(&self) -> Seq<int> {
        Seq::new(D as nat, |i: int| self.0@[i] as int)
    }
}

/// Whether `n` is a positive power of two that an `i32` can hold.
pub open spec fn is_pow2_i32(n: int) -> bool {
    exists|k: nat| k < 31 && n == #[trigger] pow2(k)
}

/// The exponent of a power of two.
pub open spec fn log2_of(n: int) -> nat {
    choose|k: nat| k < 31 && n == #[trigger] pow2(k)
}

/// Every sequence of `D` numbers in the range of `i32` is the view of a
/// point.
pub proof fn lemma_point_exists<const D: usize>(coordinates: Seq<int>) -> (p: PointN<D>)
    requires
        coordinates.len() == D,
        forall|i: int| 0 <= i < D ==> i32::MIN <= #[trigger] coordinates[i] <= i32::MAX,
    ensures
        p@ == coordinates,
{
    let a = array_prefix::<D>(coordinates, D as int);
    let p = PointN(a);
    assert(p@ =~= coordinates);
    p
}

proof fn array_prefix<const D: usize>(coordinates: Seq<int>, n: int) -> (a: [i32; D])
    requires
        coordinates.len() == D,
        0 <= n <= D,
        forall|i: int| 0 <= i < D ==> i32::MIN <= #[trigger] coordinates[i] <= i32::MAX,
    ensures
        forall|i: int| 0 <= i < n ==> a@[i] == coordinates[i],
    decreases n,
{
    broadcast use vstd::array::group_array_axioms;

    if n == 0 {
        vstd::array::spec_array_fill_for_copy_type::<i32, D>(0i32)
    } else {
        let before = array_prefix::<D>(coordinates, n - 1);
        let a = vstd::array::spec_array_update(before, n - 1, coordinates[n - 1] as i32);
        assert(a@ == before@.update(n - 1, coordinates[n - 1] as i32));
        a
    }
}

/// Two points with the same coordinates are the same point.
pub proof fn lemma_point_ext<const D: usize>(p: PointN<D>, q: PointN<D>)
    requires
        p@ == q@,
    ensures
        p == q,
{
    assert forall|i: int| 0 <= i < D implies p.0@[i] == q.0@[i] by {
        assert(p@[i] == p.0@[i] as int);
        assert(q@[i] == q.0@[i] as int);
    }
    assert(p.0@ =~= q.0@);
    assert(p.0 == q.0);
}

impl<const D: usize> PointN<D> {
    /// The point with every coordinate equal to `value`.
    pub fn fill(value: i32) -> (p: Self)
        ensures
            forall|i: int| 0 <= i < D ==> p@[i] == value,
    {
        PointN([value;D])
    }

    /// The origin.
    pub fn zero() -> (p: Self)
        ensures
            forall|i: int| 0 <= i < D ==> p@[i] == 0,
    {
        Self::fill(0)
    }

    /// The point with every coordinate equal to one.
    pub fn ones() -> (p: Self)
        ensures
            forall|i: int| 0 <= i < D ==> p@[i] == 1,
    {
        Self::fill(1)
    }

    /// Whether the two points have the same coordinates.
    pub fn equals(&self, other: &Self) -> (r: bool)
        ensures
            r == (*self == *other),
    {
        let mut i: usize = 0;
        while i < D
            invariant
                i <= D,
                forall|j: int| 0 <= j < i ==> self@[j] == other@[j],
            decreases D - i,
        {
            if self.0[i] != other.0[i] {
                assert(self@[i as int] != other@[i as int]);
                return false;
            }
            i += 1;
        }
        proof {
            assert(self@ =~= other@);
            lemma_point_ext(*self, *other);
        }
        true
    }

    /// Whether every coordinate of `self` is at most that of `other`.
    pub fn all_le(&self, other: &Self) -> (r: bool)
        ensures
            r == forall|i: int| 0 <= i < D ==> self@[i] <= other@[i],
    {
        let mut i: usize = 0;
        while i < D
            invariant
                i <= D,
                forall|j: int| 0 <= j < i ==> self@[j] <= other@[j],
            decreases D - i,
        {
            if self.0[i] > other.0[i] {
                assert(!(self@[i as int] <= other@[i as int]));
                return false;
            }
            i += 1;
        }
        true
    }

    /// Whether every coordinate of `self` is below that of `other`.
    pub fn all_lt(&self, other: &Self) -> (r: bool)
        ensures
            r == forall|i: int| 0 <= i < D ==> self@[i] < other@[i],
    {
        let mut i: usize = 0;
        while i < D
            invariant
                i <= D,
                forall|j: int| 0 <= j < i ==> self@[j] < other@[j],
            decreases D - i,
        {
            if self.0[i] >= other.0[i] {
                assert(!(self@[i as int] < other@[i as int]));
                return false;
            }
            i += 1;
        }
        true
    }

    /// The component-wise sum.
    pub fn add(self, rhs: Self) -> (r: Self)
        requires
            forall|i: int| 0 <= i < D ==> i32::MIN <= #[trigger] self@[i] + rhs@[i] <= i32::MAX,
        ensures
            forall|i: int| 0 <= i < D ==> r@[i] == self@[i] + rhs@[i],
    {
        let mut a: [i32; D] = self.0;
        let mut i: usize = 0;
        while i < D
            invariant
                i <= D,
                forall|j: int| 0 <= j < D ==> i32::MIN <= #[trigger] self@[j] + rhs@[j] <= i32::MAX,
                forall|j: int| 0 <= j < i ==> a@[j] == self@[j] + rhs@[j],
            decreases D - i,
        {
            assert(i32::MIN <= self@[i as int] + rhs@[i as int] <= i32::MAX);
            a[i] = self.0[i] + rhs.0[i];
            i += 1;
        }
        PointN(a)
    }

    /// The component-wise difference.
    pub fn sub(self, rhs: Self) -> (r: Self)
        requires
            forall|i: int| 0 <= i < D ==> i32::MIN <= #[trigger] self@[i] - rhs@[i] <= i32::MAX,
        ensures
            forall|i: int| 0 <= i < D ==> r@[i] == self@[i] - rhs@[i],
    {
        let mut a: [i32; D] = self.0;
        let mut i: usize = 0;
        while i < D
            invariant
                i <= D,
                forall|j: int| 0 <= j < D ==> i32::MIN <= #[trigger] self@[j] - rhs@[j] <= i32::MAX,
                forall|j: int| 0 <= j < i ==> a@[j] == self@[j] - rhs@[j],
            decreases D - i,
        {
            assert(i32::MIN <= self@[i as int] - rhs@[i as int] <= i32::MAX);
            a[i] = self.0[i] - rhs.0[i];
            i += 1;
        }
        PointN(a)
    }

    /// The component-wise product.
    pub fn mul(self, rhs: Self) -> (r: Self)
        requires
            forall|i: int| 0 <= i < D ==> i32::MIN <= #[trigger] (self@[i] * rhs@[i]) <= i32::MAX,
        ensures
            forall|i: int| 0 <= i < D ==> r@[i] == self@[i] * rhs@[i],
    {
        let mut a: [i32; D] = self.0;
        let mut i: usize = 0;
        while i < D
            invariant
                i <= D,
                forall|j: int|
                    0 <= j < D ==> i32::MIN <= #[trigger] (self@[j] * rhs@[j]) <= i32::MAX,
                forall|j: int| 0 <= j < i ==> a@[j] == self@[j] * rhs@[j],
            decreases D - i,
        {
            assert(i32::MIN <= self@[i as int] * rhs@[i as int] <= i32::MAX);
            a[i] = self.0[i] * rhs.0[i];
            i += 1;
        }
        PointN(a)
    }

    /// Every coordinate multiplied by `factor`.
    pub fn scale(self, factor: i32) -> (r: Self)
        requires
            forall|i: int| 0 <= i < D ==> i32::MIN <= #[trigger] (self@[i] * factor) <= i32::MAX,
        ensures
            forall|i: int| 0 <= i < D ==> r@[i] == self@[i] * factor,
    {
        let mut a: [i32; D] = self.0;
        let mut i: usize = 0;
        while i < D
            invariant
                i <= D,
                forall|j: int| 0 <= j < D ==> i32::MIN <= #[trigger] (self@[j] * factor) <= i32::MAX,
                forall|j: int| 0 <= j < i ==> a@[j] == self@[j] * factor,
            decreases D - i,
        {
            assert(i32::MIN <= self@[i as int] * factor <= i32::MAX);
            a[i] = self.0[i] * factor;
            i += 1;
        }
        PointN(a)
    }

    /// The component-wise quotient, rounded toward negative infinity.
    pub fn div_floor(self, rhs: Self) -> (r: Self)
        requires
            forall|i: int| 0 <= i < D ==> rhs@[i] > 0,
        ensures
            forall|i: int| 0 <= i < D ==> r@[i] == self@[i] / rhs@[i],
    {
        let mut a: [i32; D] = self.0;
        let mut i: usize = 0;
        while i < D
            invariant
                i <= D,
                forall|j: int| 0 <= j < D ==> rhs@[j] > 0,
                forall|j: int| 0 <= j < i ==> a@[j] == self@[j] / rhs@[j],
            decreases D - i,
        {
            assert(rhs@[i as int] > 0);
            a[i] = div_floor(self.0[i], rhs.0[i]);
            i += 1;
        }
        PointN(a)
    }

    /// Every coordinate divided by `divisor`, rounded toward negative
    /// infinity.
    pub fn scalar_div_floor(self, divisor: i32) -> (r: Self)
        requires
            divisor > 0,
        ensures
            forall|i: int| 0 <= i < D ==> r@[i] == self@[i] / (divisor as int),
    {
        let mut a: [i32; D] = self.0;
        let mut i: usize = 0;
        while i < D
            invariant
                i <= D,
                divisor > 0,
                forall|j: int| 0 <= j < i ==> a@[j] == self@[j] / (divisor as int),
            decreases D - i,
        {
            a[i] = div_floor(self.0[i], divisor);
            i += 1;
        }
        PointN(a)
    }

    /// The component-wise remainder, each in `0..rhs[i]`.
    pub fn mod_floor(self, rhs: Self) -> (r: Self)
        requires
            forall|i: int| 0 <= i < D ==> rhs@[i] > 0,
        ensures
            forall|i: int| 0 <= i < D ==> r@[i] == self@[i] % rhs@[i],
    {
        let mut a: [i32; D] = self.0;
        let mut i: usize = 0;
        while i < D
            invariant
                i <= D,
                forall|j: int| 0 <= j < D ==> rhs@[j] > 0,
                forall|j: int| 0 <= j < i ==> a@[j] == self@[j] % rhs@[j],
            decreases D - i,
        {
            assert(rhs@[i as int] > 0);
            a[i] = mod_floor(self.0[i], rhs.0[i]);
            i += 1;
        }
        PointN(a)
    }

    /// The component-wise minimum.
    pub fn meet(self, rhs: Self) -> (r: Self)
        ensures
            forall|i: int|
                0 <= i < D ==> r@[i] == if self@[i] <= rhs@[i] {
                    self@[i]
                } else {
                    rhs@[i]
                },
    {
        let mut a: [i32; D] = self.0;
        let mut i: usize = 0;
        while i < D
            invariant
                i <= D,
                forall|j: int| i <= j < D ==> a@[j] == self@[j],
                forall|j: int|
                    0 <= j < i ==> a@[j] == if self@[j] <= rhs@[j] {
                        self@[j]
                    } else {
                        rhs@[j]
                    },
            decreases D - i,
        {
            if rhs.0[i] < self.0[i] {
                a[i] = rhs.0[i];
            }
            i += 1;
        }
        PointN(a)
    }

    /// The component-wise maximum.
    pub fn join(self, rhs: Self) -> (r: Self)
        ensures
            forall|i: int|
                0 <= i < D ==> r@[i] == if self@[i] >= rhs@[i] {
                    self@[i]
                } else {
                    rhs@[i]
                },
    {
        let mut a: [i32; D] = self.0;
        let mut i: usize = 0;
        while i < D
            invariant
                i <= D,
                forall|j: int| i <= j < D ==> a@[j] == self@[j],
                forall|j: int|
                    0 <= j < i ==> a@[j] == if self@[j] >= rhs@[j] {
                        self@[j]
                    } else {
                        rhs@[j]
                    },
            decreases D - i,
        {
            if rhs.0[i] > self.0[i] {
                a[i] = rhs.0[i];
            }
            i += 1;
        }
        PointN(a)
    }
}

impl<const D: usize> PointN<D> {
    /// Whether every coordinate is a positive power of two.
    pub open spec fn is_pow2_shape(self) -> bool {
        forall|i: int| 0 <= i < D ==> is_pow2_i32(#[trigger] self@[i])
    }

    /// Whether every coordinate is a positive power of two.
    pub fn dimensions_are_powers_of_2(&self) -> (r: bool)
        ensures
            r == self.is_pow2_shape(),
    {
        let mut i: usize = 0;
        while i < D
            invariant
                i <= D,
                forall|j: int| 0 <= j < i ==> is_pow2_i32(#[trigger] self@[j]),
            decreases D - i,
        {
            if log2_exact(self.0[i]).is_none() {
                assert(!is_pow2_i32(self@[i as int]));
                return false;
            }
            i += 1;
        }
        true
    }

    /// The exponents of a point whose coordinates are powers of two.
    pub fn log2(self) -> (r: Self)
        requires
            self.is_pow2_shape(),
        ensures
            forall|i: int| 0 <= i < D ==> 0 <= #[trigger] r@[i] < 31 && self@[i] == pow2(r@[i] as nat),
    {
        let mut a: [i32; D] = self.0;
        let mut i: usize = 0;
        while i < D
            invariant
                i <= D,
                self.is_pow2_shape(),
                forall|j: int|
                    0 <= j < i ==> 0 <= #[trigger] a@[j] < 31 && self@[j] == pow2(a@[j] as nat),
            decreases D - i,
        {
            assert(is_pow2_i32(self@[i as int]));
            match log2_exact(self.0[i]) {
                Some(k) => {
                    a[i] = k as i32;
                },
                None => {},
            }
            i += 1;
        }
        PointN(a)
    }

    /// Every coordinate shifted right by `k` bits: divided by `2^k`, rounding
    /// toward negative infinity.
    pub fn shr(self, k: u32) -> (r: Self)
        requires
            k < 32,
        ensures
            forall|i: int| 0 <= i < D ==> r@[i] == self@[i] / (pow2(k as nat) as int),
    {
        let mut a: [i32; D] = self.0;
        let mut i: usize = 0;
        while i < D
            invariant
                i <= D,
                k < 32,
                forall|j: int| 0 <= j < i ==> a@[j] == self@[j] / (pow2(k as nat) as int),
            decreases D - i,
        {
            proof {
                lemma_shr_is_floor_div(self.0@[i as int], k);
            }
            a[i] = self.0[i] >> k;
            i += 1;
        }
        PointN(a)
    }

    /// Every coordinate shifted left by `k` bits: multiplied by `2^k`.
    pub fn shl(self, k: u32) -> (r: Self)
        requires
            k < 32,
            forall|i: int|
                0 <= i < D ==> i32::MIN <= #[trigger] (self@[i] * pow2(k as nat)) <= i32::MAX,
        ensures
            forall|i: int| 0 <= i < D ==> r@[i] == self@[i] * pow2(k as nat),
    {
        let mut a: [i32; D] = self.0;
        let mut i: usize = 0;
        while i < D
            invariant
                i <= D,
                k < 32,
                forall|j: int|
                    0 <= j < D ==> i32::MIN <= #[trigger] (self@[j] * pow2(k as nat)) <= i32::MAX,
                forall|j: int| 0 <= j < i ==> a@[j] == self@[j] * pow2(k as nat),
            decreases D - i,
        {
            proof {
                assert(i32::MIN <= self@[i as int] * pow2(k as nat) <= i32::MAX);
                lemma_shl_is_mul(self.0@[i as int], k);
            }
            a[i] = self.0[i] << k;
            i += 1;
        }
        PointN(a)
    }

    /// Coordinate `i` shifted right by `bits[i]` bits.
    pub fn vector_shr(self, bits: Self) -> (r: Self)
        requires
            forall|i: int| 0 <= i < D ==> 0 <= #[trigger] bits@[i] < 32,
        ensures
            forall|i: int| 0 <= i < D ==> r@[i] == self@[i] / (pow2(bits@[i] as nat) as int),
    {
        let mut a: [i32; D] = self.0;
        let mut i: usize = 0;
        while i < D
            invariant
                i <= D,
                forall|j: int| 0 <= j < D ==> 0 <= #[trigger] bits@[j] < 32,
                forall|j: int|
                    0 <= j < i ==> a@[j] == self@[j] / (pow2(bits@[j] as nat) as int),
            decreases D - i,
        {
            assert(0 <= bits@[i as int] < 32);
            let k: u32 = bits.0[i] as u32;
            proof {
                lemma_shr_is_floor_div(self.0@[i as int], k);
            }
            a[i] = self.0[i] >> k;
            i += 1;
        }
        PointN(a)
    }

    /// Coordinate `i` shifted left by `bits[i]` bits.
    pub fn vector_shl(self, bits: Self) -> (r: Self)
        requires
            forall|i: int| 0 <= i < D ==> 0 <= #[trigger] bits@[i] < 32,
            forall|i: int|
                0 <= i < D ==> i32::MIN <= #[trigger] (self@[i] * pow2(bits@[i] as nat))
                    <= i32::MAX,
        ensures
            forall|i: int| 0 <= i < D ==> r@[i] == self@[i] * pow2(bits@[i] as nat),
    {
        let mut a: [i32; D] = self.0;
        let mut i: usize = 0;
        while i < D
            invariant
                i <= D,
                forall|j: int| 0 <= j < D ==> 0 <= #[trigger] bits@[j] < 32,
                forall|j: int|
                    0 <= j < D ==> i32::MIN <= #[trigger] (self@[j] * pow2(bits@[j] as nat))
                        <= i32::MAX,
                forall|j: int| 0 <= j < i ==> a@[j] == self@[j] * pow2(bits@[j] as nat),
            decreases D - i,
        {
            assert(0 <= bits@[i as int] < 32);
            let k: u32 = bits.0[i] as u32;
            proof {
                assert(i32::MIN <= self@[i as int] * pow2(bits@[i as int] as nat) <= i32::MAX);
                lemma_shl_is_mul(self.0@[i as int], k);
            }
            a[i] = self.0[i] << k;
            i += 1;
        }
        PointN(a)
    }
}

/// `a / b` rounded toward negative infinity.
pub fn div_floor(a: i32, b: i32) -> (q: i32)
    requires
        b > 0,
    ensures
        q == a as int / b as int,
{
    if a >= 0 {
        a / b
    } else {
        let y: i32 = -1 - a;
        assert((a as int) / (b as int) == -1 - (y as int) / (b as int)) by (nonlinear_arith)
            requires
                b > 0,
                y >= 0,
                a == -1 - y,
        ;
        assert(0 <= (y as int) / (b as int) <= y) by (nonlinear_arith)
            requires
                b > 0,
                y >= 0,
        ;
        -1 - y / b
    }
}

/// The remainder of `a` by `b` that lies in `0..b`.
pub fn mod_floor(a: i32, b: i32) -> (r: i32)
    requires
        b > 0,
    ensures
        r == a as int % b as int,
        0 <= r < b,
{
    if a >= 0 {
        a % b
    } else {
        let y: i32 = -1 - a;
        assert((a as int) / (b as int) == -1 - (y as int) / (b as int)) by (nonlinear_arith)
            requires
                b > 0,
                y >= 0,
                a == -1 - y,
        ;
        proof {
            vstd::arithmetic::div_mod::lemma_fundamental_div_mod(a as int, b as int);
            vstd::arithmetic::div_mod::lemma_fundamental_div_mod(y as int, b as int);
            vstd::arithmetic::mul::lemma_mul_is_distributive_sub(
                b as int,
                -1,
                (y as int) / (b as int),
            );
        }
        b - 1 - y % b
    }
}

/// The exponent `k` with `n == 2^k`, or `None` when `n` is no positive power
/// of two.
pub fn log2_exact(n: i32) -> (r: Option<u32>)
    ensures
        r is Some <==> is_pow2_i32(n as int),
        r matches Some(k) ==> k < 31 && n == pow2(k as nat),
{
    let mut k: u32 = 0;
    let mut p: i32 = 1;
    proof {
        vstd::arithmetic::power2::lemma2_to64();
    }
    while k < 30 && p < n
        invariant
            k <= 30,
            p == pow2(k as nat),
            forall|j: nat| j < k ==> n != #[trigger] pow2(j),
        decreases 30 - k,
    {
        proof {
            vstd::arithmetic::power2::lemma2_to64();
            vstd::arithmetic::power2::lemma_pow2_strictly_increases(k as nat, 30);
            vstd::arithmetic::power2::lemma_pow2_unfold((k + 1) as nat);
        }
        p = p * 2;
        k = k + 1;
    }
    if p == n {
        Some(k)
    } else {
        proof {
            assert forall|j: nat| j < 31 implies n != #[trigger] pow2(j) by {
                if j > k {
                    vstd::arithmetic::power2::lemma_pow2_strictly_increases(k as nat, j);
                }
            }
        }
        None
    }
}

} // verus!
