//! Chunked, multi-resolution storage for dense voxel lattices.
//!
//! Integer points and extents address the lattice, a chunk indexer cuts it into
//! power-of-two chunks, chunk stores hold the chunks of one level of detail, and
//! a pyramid stacks one store per level and carries data from finer levels to
//! coarser ones.
pub mod array;
pub mod bits;
pub mod chunk_map;
pub mod compressible;
pub mod compression;
pub mod downsample;
pub mod encoding;
pub mod extent;
pub mod idempotence;
pub mod independence;
pub mod indexer;
pub mod point;
pub mod pyramid;
pub mod storage;
