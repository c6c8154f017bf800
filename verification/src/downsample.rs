//! The reduction that turns blocks of fine voxels into single coarse voxels.
use crate::array::{Array, ArrayView};
use crate::pyramid::Local;
use vstd::prelude::*;

verus! {

/// A way to reduce the voxels of a source chunk into a part of a destination
/// chunk that is `lod_delta` levels coarser. Which voxels are read and how
/// they are combined is up to the implementation; what it leaves in the
/// destination is a function of what it was given.
pub trait ChunkDownsampler<const D: usize, T> {
    /// What `downsample` leaves in the destination array.
    spec fn downsampled(
        &self,
        src: ArrayView<D, T>,
        dst: ArrayView<D, T>,
        dst_min: Local<D>,
        lod_delta: u8,
    ) -> ArrayView<D, T>;

    /// Samples `src_chunk` and writes the samples into `dst_chunk`, starting
    /// at `dst_min` from the minimum of `dst_chunk`. The destination keeps
    /// its box.
    fn downsample(
        &self,
        src_chunk: &Array<D, T>,
        dst_chunk: &mut Array<D, T>,
        dst_min: Local<D>,
        lod_delta: u8,
    )
        requires
            src_chunk@.wf(),
            old(dst_chunk)@.wf(),
        ensures
            final(dst_chunk)@ == self.downsampled(src_chunk@, old(dst_chunk)@, dst_min, lod_delta),
            final(dst_chunk)@.wf(),
            final(dst_chunk).extent == old(dst_chunk).extent,
    ;
}

} // verus!
