//! Dense arrays of voxels over a box of the lattice.
use crate::extent::ExtentN;
use crate::point::PointN;
use vstd::prelude::*;

verus! {

/// What an array holds: its box, and one value for each point of the box, in
/// row-major order.
pub struct ArrayView<const D: usize, T> {
    pub extent: ExtentN<D>,
    pub values: Seq<T>,
}

impl<const D: usize, T> ArrayView<D, T> {
    /// The box is valid and there is one value for each of its points.
    pub open spec fn wf(self) -> bool {
        &&& self.extent.wf()
        &&& self.values.len() == self.extent.volume()
    }

    /// The value at the point with coordinates `p`.
    pub open spec fn value_at(self, p: Seq<int>) -> T {
        self.values[self.extent.spec_index_of(p)]
    }

    /// The array with `value` at those of its points that are in `points`,
    /// and all others as in `self`.
    pub open spec fn filled(self, points: Set<Seq<int>>, value: T) -> Self {
        ArrayView {
            extent: self.extent,
            values: Seq::new(
                self.values.len(),
                |k: int|
                    if points.contains(self.extent.spec_point_at(k)) {
                        value
                    } else {
                        self.values[k]
                    },
            ),
        }
    }

    /// Filling sets the given points, and no others.
    pub proof fn lemma_filled(self, points: Set<Seq<int>>, value: T, p: Seq<int>)
        requires
            self.wf(),
            self.extent.contains(p),
        ensures
            self.filled(points, value).wf(),
            self.filled(points, value).value_at(p) == if points.contains(p) {
                value
            } else {
                self.value_at(p)
            },
    {
        self.extent.lemma_index_of(p);
    }
}

/// A dense array with one value of type `T` for each point of a box.
pub struct Array<const D: usize, T> {
    pub extent: ExtentN<D>,
    pub values: Vec<T>,
}

impl<const D: usize, T> View for Array<D, T> {
    type V = ArrayView<D, T>;

    open spec fn view(&self) -> ArrayView<D, T> {
        ArrayView { extent: self.extent, values: self.values@ }
    }
}

impl<const D: usize, T: Copy> Array<D, T> {
    /// The box is valid and there is one value for each of its points.
    pub open spec fn wf(self) -> bool {
        self@.wf()
    }

    /// An array over `extent` with `value` at every point.
    pub fn fill(extent: ExtentN<D>, value: T) -> (a: Self)
        requires
            extent.wf(),
            extent.volume() <= usize::MAX,
        ensures
            a.wf(),
            a.extent == extent,
            a@.values == Seq::new(extent.volume() as nat, |k: int| value),
    {
        let n = extent.num_points();
        let mut values: Vec<T> = Vec::new();
        let mut k: usize = 0;
        while k < n
            invariant
                k <= n,
                values.len() == k,
                forall|j: int| 0 <= j < k ==> values[j] == value,
            decreases n - k,
        {
            values.push(value);
            k += 1;
        }
        let a = Array { extent, values };
        proof {
            assert(a@.values =~= Seq::new(extent.volume() as nat, |k: int| value));
        }
        a
    }

    /// The box that the array covers.
    pub fn extent(&self) -> (e: &ExtentN<D>)
        ensures
            *e == self.extent,
    {
        &self.extent
    }

    /// The value at `p`.
    pub fn get(&self, p: &PointN<D>) -> (value: T)
        requires
            self.wf(),
            self.extent.contains(p@),
        ensures
            value == self@.value_at(p@),
    {
        let n = self.values.len();
        assert(n == self.extent.volume());
        let k = self.extent.index_of(p);
        self.values[k]
    }

    /// Writes `value` at `p`.
    pub fn set(&mut self, p: &PointN<D>, value: T)
        requires
            old(self).wf(),
            old(self).extent.contains(p@),
        ensures
            final(self).wf(),
            final(self).extent == old(self).extent,
            final(self)@.values == old(self)@.values.update(
                old(self).extent.spec_index_of(p@),
                value,
            ),
            final(self)@.value_at(p@) == value,
            forall|q: Seq<int>|
                old(self).extent.contains(q) && q != p@ ==> final(self)@.value_at(q) == old(self)@.value_at(q),
    {
        let n = self.values.len();
        assert(n == self.extent.volume());
        let k = self.extent.index_of(p);
        self.values[k] = value;
        proof {
            assert forall|q: Seq<int>| old(self).extent.contains(q) && q != p@ implies final(self)@.value_at(q) == old(self)@.value_at(q) by {
                self.extent.lemma_index_of(q);
                self.extent.lemma_index_of(p@);
            }
        }
    }

    /// Writes `value` at every point of `extent` that the array covers.
    pub fn fill_extent(&mut self, extent: &ExtentN<D>, value: T)
        requires
            old(self).wf(),
            extent.wf(),
        ensures
            final(self).wf(),
            final(self)@ == old(self)@.filled(extent.point_set(), value),
    {
        let n = self.values.len();
        let mut k: usize = 0;
        while k < n
            invariant
                k <= n,
                n == self.values.len(),
                self.extent == old(self).extent,
                self.wf(),
                old(self).wf(),
                extent.wf(),
                forall|j: int|
                    0 <= j < k ==> self.values[j] == if extent.contains(
                        self.extent.spec_point_at(j),
                    ) {
                        value
                    } else {
                        old(self).values[j]
                    },
                forall|j: int| k <= j < n ==> self.values[j] == old(self).values[j],
            decreases n - k,
        {
            let p = self.extent.point_at(k);
            if extent.contains_point(&p) {
                self.values[k] = value;
            }
            k += 1;
        }
        proof {
            assert(self@.values =~= old(self)@.filled(extent.point_set(), value).values);
        }
    }
}

} // verus!
