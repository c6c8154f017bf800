//! Axis-aligned boxes of lattice points.
use crate::point::PointN;
use vstd::prelude::*;

verus! {

/// The box `[minimum, minimum + shape)`: it holds the points `p` with
/// `minimum[i] <= p[i] < minimum[i] + shape[i]` in every coordinate.
#[derive(Clone, Copy, Debug, PartialEq, Eq)]
pub struct ExtentN<const D: usize> {
    pub minimum: PointN<D>,
    pub shape: PointN<D>,
}

/// A box of the plane.
pub type Extent2i = ExtentN<2>;

/// A box of space.
pub type Extent3i = ExtentN<3>;

/// The product of the numbers of `s`.
pub open spec fn product(s: Seq<int>) -> int
    decreases s.len(),
{
    if s.len() == 0 {
        1
    } else {
        s[0] * product(s.drop_first())
    }
}

/// A product of positive numbers is positive, and no smaller than the
/// product of the numbers from position `n` on.
pub proof fn lemma_product_suffix(s: Seq<int>, n: int)
    requires
        0 <= n <= s.len(),
        forall|i: int| 0 <= i < s.len() ==> s[i] >= 1,
    ensures
        1 <= product(s.skip(n)) <= product(s),
        n < s.len() ==> product(s.skip(n)) == s[n] * product(s.skip(n + 1)),
    decreases n,
{
    if n < s.len() {
        assert(s.skip(n).drop_first() =~= s.skip(n + 1));
    }
    lemma_product_positive(s.skip(n));
    if n > 0 {
        lemma_product_suffix(s, n - 1);
        assert(s.skip(n - 1).drop_first() =~= s.skip(n));
        assert(product(s.skip(n)) <= s[n - 1] * product(s.skip(n))) by (nonlinear_arith)
            requires
                product(s.skip(n)) >= 1,
                s[n - 1] >= 1,
        ;
    } else {
        assert(s.skip(0) =~= s);
    }
}

/// A product of positive numbers is positive.
pub proof fn lemma_product_positive(s: Seq<int>)
    requires
        forall|i: int| 0 <= i < s.len() ==> s[i] >= 1,
    ensures
        product(s) >= 1,
    decreases s.len(),
{
    if s.len() > 0 {
        lemma_product_positive(s.drop_first());
        assert(s[0] * product(s.drop_first()) >= 1) by (nonlinear_arith)
            requires
                product(s.drop_first()) >= 1,
                s[0] >= 1,
        ;
    }
}

/// A product with a zero factor is zero.
pub proof fn lemma_product_zero(s: Seq<int>, k: int)
    requires
        0 <= k < s.len(),
        s[k] == 0,
    ensures
        product(s) == 0,
    decreases s.len(),
{
    if k > 0 {
        lemma_product_zero(s.drop_first(), k - 1);
    }
    assert(s[0] * product(s.drop_first()) == 0) by (nonlinear_arith)
        requires
            product(s.drop_first()) == 0 || s[0] == 0,
    ;
}

/// Whether `p` has a coordinate in `0..shape[i]` for every side of `shape`.
pub open spec fn in_shape(shape: Seq<int>, p: Seq<int>) -> bool {
    &&& p.len() == shape.len()
    &&& forall|i: int| 0 <= i < shape.len() ==> 0 <= #[trigger] p[i] < shape[i]
}

/// The rank of `p` among the points of a box with sides `shape`, counted in
/// row-major order: the first coordinate runs fastest.
pub open spec fn linearize(shape: Seq<int>, p: Seq<int>) -> int
    decreases shape.len(),
{
    if shape.len() == 0 {
        0
    } else {
        p[0] + shape[0] * linearize(shape.drop_first(), p.drop_first())
    }
}

/// The point of rank `k`: the inverse of `linearize`.
pub open spec fn delinearize(shape: Seq<int>, k: int) -> Seq<int>
    decreases shape.len(),
{
    if shape.len() == 0 {
        Seq::empty()
    } else {
        seq![k % shape[0]] + delinearize(shape.drop_first(), k / shape[0])
    }
}

/// A point inside the box has a rank below the number of its points.
pub proof fn lemma_linearize_bound(shape: Seq<int>, p: Seq<int>)
    requires
        in_shape(shape, p),
    ensures
        0 <= linearize(shape, p) < product(shape),
    decreases shape.len(),
{
    if shape.len() > 0 {
        assert(0 <= p[0] < shape[0]);
        assert(in_shape(shape.drop_first(), p.drop_first())) by {
            assert forall|i: int| 0 <= i < shape.drop_first().len() implies 0
                <= #[trigger] p.drop_first()[i] < shape.drop_first()[i] by {
                assert(0 <= p[i + 1] < shape[i + 1]);
            }
        }
        lemma_linearize_bound(shape.drop_first(), p.drop_first());
        let r = linearize(shape.drop_first(), p.drop_first());
        let q = product(shape.drop_first());
        assert(0 <= p[0] + shape[0] * r < shape[0] * q) by (nonlinear_arith)
            requires
                0 <= p[0] < shape[0],
                0 <= r < q,
        ;
    }
}

/// The point of a rank has a coordinate for every side, inside the box.
pub proof fn lemma_delinearize_in_shape(shape: Seq<int>, k: int)
    requires
        forall|i: int| 0 <= i < shape.len() ==> shape[i] >= 1,
    ensures
        in_shape(shape, delinearize(shape, k)),
    decreases shape.len(),
{
    if shape.len() > 0 {
        lemma_delinearize_in_shape(shape.drop_first(), k / shape[0]);
        let d = delinearize(shape, k);
        let rest = delinearize(shape.drop_first(), k / shape[0]);
        assert forall|i: int| 0 <= i < shape.len() implies 0 <= #[trigger] d[i] < shape[i] by {
            if i > 0 {
                assert(d[i] == rest[i - 1]);
                assert(shape[i] == shape.drop_first()[i - 1]);
            }
        }
    }
}

/// Taking the point of the rank of `p` gives `p` back.
pub proof fn lemma_delinearize_linearize(shape: Seq<int>, p: Seq<int>)
    requires
        in_shape(shape, p),
    ensures
        delinearize(shape, linearize(shape, p)) == p,
    decreases shape.len(),
{
    if shape.len() > 0 {
        assert(0 <= p[0] < shape[0]);
        assert(in_shape(shape.drop_first(), p.drop_first())) by {
            assert forall|i: int| 0 <= i < shape.drop_first().len() implies 0
                <= #[trigger] p.drop_first()[i] < shape.drop_first()[i] by {
                assert(0 <= p[i + 1] < shape[i + 1]);
            }
        }
        lemma_delinearize_linearize(shape.drop_first(), p.drop_first());
        let r = linearize(shape.drop_first(), p.drop_first());
        let k = p[0] + shape[0] * r;
        vstd::arithmetic::div_mod::lemma_fundamental_div_mod_converse(k, shape[0], r, p[0]);
        assert(delinearize(shape, k) =~= p);
    } else {
        assert(delinearize(shape, linearize(shape, p)) =~= p);
    }
}

/// Taking the rank of the point of rank `k` gives `k` back.
pub proof fn lemma_linearize_delinearize(shape: Seq<int>, k: int)
    requires
        forall|i: int| 0 <= i < shape.len() ==> shape[i] >= 1,
        0 <= k < product(shape),
    ensures
        linearize(shape, delinearize(shape, k)) == k,
    decreases shape.len(),
{
    if shape.len() > 0 {
        let q = product(shape.drop_first());
        let s = shape[0];
        vstd::arithmetic::div_mod::lemma_fundamental_div_mod(k, s);
        assert(0 <= k / s < q) by (nonlinear_arith)
            requires
                0 <= k < s * q,
                s >= 1,
                k == s * (k / s) + k % s,
                0 <= k % s < s,
        ;
        lemma_linearize_delinearize(shape.drop_first(), k / s);
        let d = delinearize(shape, k);
        assert(d.drop_first() =~= delinearize(shape.drop_first(), k / s));
    }
}

/// The points `p` with `minimum[i] <= p[i] < minimum[i] + shape[i]` in every
/// coordinate.
pub open spec fn box_points(minimum: Seq<int>, shape: Seq<int>) -> Set<Seq<int>> {
    Set::new(
        |p: Seq<int>|
            p.len() == minimum.len() && forall|i: int|
                0 <= i < minimum.len() ==> minimum[i] <= #[trigger] p[i] < minimum[i] + shape[i],
    )
}

impl<const D: usize> ExtentN<D> {
    /// No side is negative, and the least upper bound is a point.
    pub open spec fn wf(self) -> bool {
        forall|i: int|
            0 <= i < D ==> #[trigger] self.shape@[i] >= 0 && self.minimum@[i] + self.shape@[i]
                <= i32::MAX
    }

    /// Whether the point with coordinates `p` lies in the box.
    pub open spec fn contains(self, p: Seq<int>) -> bool {
        box_points(self.minimum@, self.shape@).contains(p)
    }

    /// The points of the box.
    pub open spec fn point_set(self) -> Set<Seq<int>> {
        box_points(self.minimum@, self.shape@)
    }

    /// Whether the box holds no point.
    pub open spec fn spec_is_empty(self) -> bool {
        exists|i: int| 0 <= i < D && #[trigger] self.shape@[i] <= 0
    }

    /// The number of points in the box.
    pub open spec fn volume(self) -> int {
        product(self.shape@)
    }

    /// The box with the given minimum and sides.
    pub fn from_min_and_shape(minimum: PointN<D>, shape: PointN<D>) -> (e: Self)
        ensures
            e.minimum == minimum,
            e.shape == shape,
    {
        ExtentN { minimum, shape }
    }

    /// The box from `minimum` up to, and not including, `least_upper_bound`.
    pub fn from_min_and_lub(minimum: PointN<D>, least_upper_bound: PointN<D>) -> (e: Self)
        requires
            forall|i: int|
                0 <= i < D ==> 0 <= #[trigger] least_upper_bound@[i] - minimum@[i] <= i32::MAX,
        ensures
            e.minimum == minimum,
            forall|i: int| 0 <= i < D ==> e.shape@[i] == least_upper_bound@[i] - minimum@[i],
            e.wf(),
    {
        let shape = least_upper_bound.sub(minimum);
        let e = ExtentN { minimum, shape };
        proof {
            assert forall|i: int| 0 <= i < D implies #[trigger] e.shape@[i] >= 0 && e.minimum@[i]
                + e.shape@[i] <= i32::MAX by {
                assert(0 <= least_upper_bound@[i] - minimum@[i]);
            }
        }
        e
    }

    /// The box from `minimum` up to, and including, `max`.
    pub fn from_min_and_max(minimum: PointN<D>, max: PointN<D>) -> (e: Self)
        requires
            forall|i: int|
                0 <= i < D ==> 0 <= #[trigger] max@[i] - minimum@[i] + 1 <= i32::MAX && max@[i]
                    < i32::MAX,
        ensures
            e.minimum == minimum,
            forall|i: int| 0 <= i < D ==> e.shape@[i] == max@[i] - minimum@[i] + 1,
            e.wf(),
    {
        let ones: PointN<D> = PointN::ones();
        proof {
            assert forall|i: int| 0 <= i < D implies i32::MIN <= #[trigger] max@[i] + ones@[i]
                <= i32::MAX by {
                assert(0 <= max@[i] - minimum@[i] + 1);
            }
        }
        let lub = max.add(ones);
        proof {
            assert forall|i: int| 0 <= i < D implies 0 <= #[trigger] lub@[i] - minimum@[i]
                <= i32::MAX by {
                assert(0 <= max@[i] - minimum@[i] + 1);
                assert(lub@[i] == max@[i] + ones@[i]);
            }
        }
        let e = Self::from_min_and_lub(minimum, lub);
        proof {
            assert forall|i: int| 0 <= i < D implies e.shape@[i] == max@[i] - minimum@[i] + 1 by {
                assert(lub@[i] == max@[i] + ones@[i]);
            }
        }
        e
    }

    /// The point one past the maximum in every coordinate.
    pub fn least_upper_bound(&self) -> (p: PointN<D>)
        requires
            self.wf(),
        ensures
            forall|i: int| 0 <= i < D ==> p@[i] == self.minimum@[i] + self.shape@[i],
    {
        proof {
            assert forall|i: int| 0 <= i < D implies i32::MIN <= #[trigger] self.minimum@[i]
                + self.shape@[i] <= i32::MAX by {
                assert(self.shape@[i] >= 0);
            }
        }
        self.minimum.add(self.shape)
    }

    /// Whether the box holds no point.
    pub fn is_empty(&self) -> (r: bool)
        ensures
            r == self.spec_is_empty(),
    {
        let mut i: usize = 0;
        while i < D
            invariant
                i <= D,
                forall|j: int| 0 <= j < i ==> #[trigger] self.shape@[j] > 0,
            decreases D - i,
        {
            if self.shape.0[i] <= 0 {
                assert(self.shape@[i as int] <= 0);
                return true;
            }
            i += 1;
        }
        false
    }

    /// Whether `p` lies in the box.
    pub fn contains_point(&self, p: &PointN<D>) -> (r: bool)
        requires
            self.wf(),
        ensures
            r == self.contains(p@),
    {
        let mut i: usize = 0;
        while i < D
            invariant
                i <= D,
                self.wf(),
                forall|j: int|
                    0 <= j < i ==> self.minimum@[j] <= #[trigger] p@[j] < self.minimum@[j]
                        + self.shape@[j],
            decreases D - i,
        {
            assert(self.shape@[i as int] >= 0);
            if p.0[i] < self.minimum.0[i] || p.0[i] >= self.minimum.0[i] + self.shape.0[i] {
                assert(!(self.minimum@[i as int] <= p@[i as int] < self.minimum@[i as int]
                    + self.shape@[i as int]));
                return false;
            }
            i += 1;
        }
        true
    }

    /// Whether every point of `other` lies in this box.
    pub fn contains_extent(&self, other: &Self) -> (r: bool)
        requires
            self.wf(),
            other.wf(),
        ensures
            r == other.point_set().subset_of(self.point_set()),
    {
        if other.is_empty() {
            proof {
                let i = choose|i: int| 0 <= i < D && #[trigger] other.shape@[i] <= 0;
                assert forall|p: Seq<int>| other.point_set().contains(p) implies self.point_set().contains(
                    p,
                ) by {
                    assert(other.minimum@[i] <= p[i] < other.minimum@[i] + other.shape@[i]);
                }
            }
            return true;
        }
        let lub = self.least_upper_bound();
        let other_lub = other.least_upper_bound();
        let r = self.minimum.all_le(&other.minimum) && other_lub.all_le(&lub);
        proof {
            if r {
                assert forall|p: Seq<int>| other.point_set().contains(p) implies self.point_set().contains(
                    p,
                ) by {
                    assert forall|i: int| 0 <= i < D implies self.minimum@[i] <= #[trigger] p[i]
                        < self.minimum@[i] + self.shape@[i] by {
                        assert(other.minimum@[i] <= p[i] < other.minimum@[i] + other.shape@[i]);
                        assert(self.minimum@[i] <= other.minimum@[i]);
                        assert(other_lub@[i] <= lub@[i]);
                    }
                }
            } else {
                let low = other.minimum@;
                let high = Seq::new(D as nat, |i: int| other.minimum@[i] + other.shape@[i] - 1);
                assert(other.point_set().contains(low)) by {
                    assert forall|i: int| 0 <= i < D implies other.minimum@[i] <= #[trigger] low[i]
                        < other.minimum@[i] + other.shape@[i] by {
                        assert(other.shape@[i] > 0);
                    }
                }
                assert(other.point_set().contains(high)) by {
                    assert forall|i: int| 0 <= i < D implies other.minimum@[i] <= #[trigger] high[i]
                        < other.minimum@[i] + other.shape@[i] by {
                        assert(other.shape@[i] > 0);
                    }
                }
                if other.point_set().subset_of(self.point_set()) {
                    assert(self.point_set().contains(low));
                    assert(self.point_set().contains(high));
                    assert forall|i: int| 0 <= i < D implies self.minimum@[i]
                        <= other.minimum@[i] by {
                        assert(self.minimum@[i] <= low[i]);
                    }
                    assert forall|i: int| 0 <= i < D implies other_lub@[i] <= lub@[i] by {
                        assert(high[i] < self.minimum@[i] + self.shape@[i]);
                    }
                }
            }
        }
        r
    }

    /// The box of the points that lie in both boxes.
    pub fn intersection(&self, other: &Self) -> (e: Self)
        requires
            self.wf(),
            other.wf(),
        ensures
            e.wf(),
            forall|p: Seq<int>| #[trigger] e.contains(p) <==> self.contains(p) && other.contains(p),
    {
        let minimum = self.minimum.join(other.minimum);
        let lub_a = self.least_upper_bound();
        let lub_b = other.least_upper_bound();
        let met = lub_a.meet(lub_b);
        let lub = met.join(minimum);
        proof {
            assert forall|i: int| 0 <= i < D implies 0 <= #[trigger] lub@[i] - minimum@[i]
                <= i32::MAX by {
                assert(self.shape@[i] >= 0);
                assert(other.shape@[i] >= 0);
                assert(met@[i] <= lub_a@[i]);
            }
        }
        let e = Self::from_min_and_lub(minimum, lub);
        proof {
            assert forall|p: Seq<int>| #[trigger] e.contains(p) <==> self.contains(p)
                && other.contains(p) by {
                if e.contains(p) {
                    assert forall|i: int| 0 <= i < D implies self.minimum@[i] <= #[trigger] p[i]
                        < self.minimum@[i] + self.shape@[i] && other.minimum@[i] <= p[i]
                        < other.minimum@[i] + other.shape@[i] by {
                        assert(e.minimum@[i] <= p[i] < e.minimum@[i] + e.shape@[i]);
                        assert(met@[i] <= lub_a@[i]);
                    }
                }
                if self.contains(p) && other.contains(p) {
                    assert forall|i: int| 0 <= i < D implies e.minimum@[i] <= #[trigger] p[i]
                        < e.minimum@[i] + e.shape@[i] by {
                        assert(self.minimum@[i] <= p[i] < self.minimum@[i] + self.shape@[i]);
                        assert(other.minimum@[i] <= p[i] < other.minimum@[i] + other.shape@[i]);
                        assert(met@[i] <= lub_a@[i]);
                    }
                }
            }
        }
        e
    }

    /// The number of points in the box, or `None` if `usize` cannot hold it.
    pub fn checked_num_points(&self) -> (n: Option<usize>)
        requires
            self.wf(),
        ensures
            match n {
                Some(v) => v == self.volume(),
                None => self.volume() > usize::MAX,
            },
    {
        if self.is_empty() {
            proof {
                let k = choose|i: int| 0 <= i < D && #[trigger] self.shape@[i] <= 0;
                assert(self.shape@[k] >= 0);
                lemma_product_zero(self.shape@, k);
            }
            return Some(0);
        }
        let mut n: usize = 1;
        let mut i: usize = D;
        proof {
            assert(self.shape@.skip(D as int) =~= Seq::<int>::empty());
        }
        while i > 0
            invariant
                i <= D,
                self.shape@.len() == D,
                forall|j: int| 0 <= j < D ==> #[trigger] self.shape@[j] >= 1,
                n == product(self.shape@.skip(i as int)),
            decreases i,
        {
            i -= 1;
            proof {
                lemma_product_suffix(self.shape@, i as int);
                lemma_product_suffix(self.shape@, i as int + 1);
            }
            match (self.shape.0[i] as usize).checked_mul(n) {
                Some(next) => {
                    n = next;
                },
                None => {
                    return None;
                },
            }
        }
        proof {
            assert(self.shape@.skip(0) =~= self.shape@);
        }
        Some(n)
    }

    /// The number of points in the box.
    pub fn num_points(&self) -> (n: usize)
        requires
            self.wf(),
            self.volume() <= usize::MAX,
        ensures
            n == self.volume(),
    {
        if self.is_empty() {
            proof {
                let k = choose|i: int| 0 <= i < D && #[trigger] self.shape@[i] <= 0;
                assert(self.shape@[k] >= 0);
                lemma_product_zero(self.shape@, k);
            }
            return 0;
        }
        let mut n: usize = 1;
        let mut i: usize = D;
        proof {
            assert(self.shape@.skip(D as int) =~= Seq::<int>::empty());
        }
        while i > 0
            invariant
                i <= D,
                self.shape@.len() == D,
                forall|j: int| 0 <= j < D ==> #[trigger] self.shape@[j] >= 1,
                n == product(self.shape@.skip(i as int)),
                product(self.shape@) <= usize::MAX,
            decreases i,
        {
            i -= 1;
            proof {
                lemma_product_suffix(self.shape@, i as int);
                lemma_product_suffix(self.shape@, i as int + 1);
            }
            n = (self.shape.0[i] as usize) * n;
        }
        proof {
            assert(self.shape@.skip(0) =~= self.shape@);
        }
        n
    }

    /// The coordinates of `p` relative to the minimum.
    pub open spec fn local(self, p: Seq<int>) -> Seq<int> {
        Seq::new(D as nat, |i: int| p[i] - self.minimum@[i])
    }

    /// The rank of `p` among the points of the box, in row-major order.
    pub open spec fn spec_index_of(self, p: Seq<int>) -> int {
        linearize(self.shape@, self.local(p))
    }

    /// The point of rank `k` in row-major order.
    pub open spec fn spec_point_at(self, k: int) -> Seq<int> {
        Seq::new(D as nat, |i: int| self.minimum@[i] + delinearize(self.shape@, k)[i])
    }

    /// A point of the box has a rank below the number of points, and the
    /// point of that rank is the point itself.
    pub proof fn lemma_index_of(self, p: Seq<int>)
        requires
            self.contains(p),
        ensures
            0 <= self.spec_index_of(p) < self.volume(),
            self.spec_point_at(self.spec_index_of(p)) == p,
    {
        let l = self.local(p);
        assert(in_shape(self.shape@, l)) by {
            assert forall|i: int| 0 <= i < D implies 0 <= #[trigger] l[i] < self.shape@[i] by {
                assert(self.minimum@[i] <= p[i] < self.minimum@[i] + self.shape@[i]);
            }
        }
        lemma_linearize_bound(self.shape@, l);
        lemma_delinearize_linearize(self.shape@, l);
        assert(self.spec_point_at(self.spec_index_of(p)) =~= p);
    }

    /// Every rank below the number of points is the rank of one point of the
    /// box.
    pub proof fn lemma_point_at(self, k: int)
        requires
            self.wf(),
            0 <= k < self.volume(),
        ensures
            self.contains(self.spec_point_at(k)),
            self.spec_index_of(self.spec_point_at(k)) == k,
    {
        assert forall|i: int| 0 <= i < D implies #[trigger] self.shape@[i] >= 1 by {
            if self.shape@[i] < 1 {
                assert(self.shape@[i] >= 0);
                lemma_product_zero(self.shape@, i);
            }
        }
        lemma_delinearize_in_shape(self.shape@, k);
        lemma_linearize_delinearize(self.shape@, k);
        let q = self.spec_point_at(k);
        let d = delinearize(self.shape@, k);
        assert forall|i: int| 0 <= i < D implies self.minimum@[i] <= #[trigger] q[i]
            < self.minimum@[i] + self.shape@[i] by {
            assert(0 <= d[i] < self.shape@[i]);
        }
        assert(self.local(q) =~= d);
    }

    /// The rank of `p` among the points of the box, in row-major order.
    pub fn index_of(&self, p: &PointN<D>) -> (k: usize)
        requires
            self.wf(),
            self.contains(p@),
            self.volume() <= usize::MAX,
        ensures
            k == self.spec_index_of(p@),
            k < self.volume(),
    {
        let ghost l = self.local(p@);
        let ghost shape = self.shape@;
        proof {
            self.lemma_index_of(p@);
            assert forall|i: int| 0 <= i < D implies 0 <= #[trigger] l[i] < shape[i] by {
                assert(self.minimum@[i] <= p@[i] < self.minimum@[i] + self.shape@[i]);
            }
            assert(shape.skip(D as int) =~= Seq::<int>::empty());
        }
        let mut k: usize = 0;
        let mut i: usize = D;
        while i > 0
            invariant
                i <= D,
                self.wf(),
                l == self.local(p@),
                shape == self.shape@,
                in_shape(shape, l),
                product(shape) <= usize::MAX,
                k == linearize(shape.skip(i as int), l.skip(i as int)),
            decreases i,
        {
            i -= 1;
            proof {
                let ss = shape.skip(i as int);
                let ll = l.skip(i as int);
                assert(ss.drop_first() =~= shape.skip(i as int + 1));
                assert(ll.drop_first() =~= l.skip(i as int + 1));
                assert(in_shape(ss, ll)) by {
                    assert forall|j: int| 0 <= j < ss.len() implies 0 <= #[trigger] ll[j] < ss[j] by {
                        assert(0 <= l[j + i] < shape[j + i]);
                    }
                }
                lemma_linearize_bound(ss, ll);
                assert forall|j: int| 0 <= j < shape.len() implies shape[j] >= 1 by {
                    assert(0 <= l[j] < shape[j]);
                }
                lemma_product_suffix(shape, i as int);
                assert(0 <= l[i as int] < shape[i as int]);
                assert(l[i as int] == p@[i as int] - self.minimum@[i as int]);
                assert(0 <= shape[i as int] * k) by (nonlinear_arith)
                    requires
                        shape[i as int] >= 0,
                        k >= 0,
                ;
            }
            let c: usize = (p.0[i] - self.minimum.0[i]) as usize;
            let side: usize = self.shape.0[i] as usize;
            k = c + side * k;
        }
        proof {
            assert(shape.skip(0) =~= shape);
            assert(l.skip(0) =~= l);
        }
        k
    }

    /// The point of rank `k` in row-major order.
    pub fn point_at(&self, k: usize) -> (p: PointN<D>)
        requires
            self.wf(),
            k < self.volume(),
        ensures
            p@ == self.spec_point_at(k as int),
            self.contains(p@),
    {
        let ghost shape = self.shape@;
        proof {
            self.lemma_point_at(k as int);
            assert forall|i: int| 0 <= i < D implies #[trigger] shape[i] >= 1 by {
                if shape[i] < 1 {
                    assert(self.shape@[i] >= 0);
                    lemma_product_zero(shape, i);
                }
            }
            lemma_delinearize_in_shape(shape, k as int);
            assert(shape.skip(0) =~= shape);
        }
        let mut a: [i32; D] = self.minimum.0;
        let mut rest: usize = k;
        let mut i: usize = 0;
        while i < D
            invariant
                i <= D,
                self.wf(),
                shape == self.shape@,
                forall|j: int| 0 <= j < D ==> #[trigger] shape[j] >= 1,
                in_shape(shape, delinearize(shape, k as int)),
                forall|j: int|
                    0 <= j < i ==> a@[j] == self.minimum@[j] + delinearize(shape, k as int)[j],
                forall|j: int|
                    i <= j < D ==> delinearize(shape, k as int)[j] == delinearize(
                        shape.skip(i as int),
                        rest as int,
                    )[j - i],
            decreases D - i,
        {
            let side: usize = self.shape.0[i] as usize;
            proof {
                let ss = shape.skip(i as int);
                assert(ss.drop_first() =~= shape.skip(i as int + 1));
                assert(ss[0] == shape[i as int]);
                let d = delinearize(ss, rest as int);
                assert forall|j: int| 0 <= j < ss.len() implies ss[j] >= 1 by {
                    assert(shape[j + i] >= 1);
                }
                lemma_delinearize_in_shape(ss, rest as int);
                lemma_delinearize_in_shape(ss.drop_first(), (rest as int) / ss[0]);
                assert(d[0] == (rest as int) % shape[i as int]);
                assert(0 <= delinearize(shape, k as int)[i as int] < shape[i as int]);
                assert(self.shape@[i as int] >= 0 && self.minimum@[i as int] + self.shape@[i as int]
                    <= i32::MAX);
                assert forall|j: int| i + 1 <= j < D implies delinearize(shape, k as int)[j]
                    == delinearize(shape.skip(i as int + 1), (rest as int) / shape[i as int])[j
                    - i - 1] by {
                    let tail = delinearize(ss.drop_first(), (rest as int) / ss[0]);
                    assert(d == seq![(rest as int) % ss[0]] + tail);
                    assert(delinearize(shape, k as int)[j] == d[j - i]);
                    assert(d[j - i] == tail[j - i - 1]);
                }
            }
            let c: i32 = (rest % side) as i32;
            a[i] = self.minimum.0[i] + c;
            rest = rest / side;
            i += 1;
        }
        let p = PointN(a);
        proof {
            assert(p@ =~= self.spec_point_at(k as int));
        }
        p
    }

    /// The points of the box in row-major order.
    pub fn points(&self) -> (v: Vec<PointN<D>>)
        requires
            self.wf(),
            self.volume() <= usize::MAX,
        ensures
            v.len() == self.volume(),
            forall|k: int| 0 <= k < v.len() ==> (#[trigger] v[k])@ == self.spec_point_at(k),
    {
        let n = self.num_points();
        let mut v: Vec<PointN<D>> = Vec::new();
        let mut k: usize = 0;
        while k < n
            invariant
                k <= n,
                n == self.volume(),
                self.wf(),
                v.len() == k,
                forall|j: int| 0 <= j < k ==> (#[trigger] v[j])@ == self.spec_point_at(j),
            decreases n - k,
        {
            let p = self.point_at(k);
            v.push(p);
            k += 1;
        }
        v
    }
}

} // verus!
