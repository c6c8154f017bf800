//! Lossless compression of byte buffers, and the encoding of voxels as bytes.
//!
//! A compressed buffer starts with one byte that says how the rest is to be
//! read: `STORED` when the rest is the input itself, `PACKED` when the rest
//! came out of the compressor. A compressor's output is kept only after it
//! was decompressed again and compared with the input, so that every buffer
//! this module hands out can be read back.
use vstd::prelude::*;

verus! {

/// The first byte of a buffer that holds its input as it is.
pub const STORED: u8 = 0;

/// The first byte of a buffer that holds what the compressor made of its
/// input.
pub const PACKED: u8 = 1;

/// A way to compress byte buffers without loss.
pub trait BytesCompression {
    /// What decompressing `compressed` yields; `None` for a buffer that is
    /// not the compressed form of anything.
    spec fn decompressed(compressed: Seq<u8>) -> Option<Seq<u8>>;

    /// Compresses `bytes`. Decompressing the result gives `bytes` again.
    fn compress_bytes(&self, bytes: &[u8]) -> (compressed: Vec<u8>)
        ensures
            Self::decompressed(compressed@) == Some(bytes@),
    ;

    /// Decompresses `compressed`; `None` if the buffer is corrupt.
    fn decompress_bytes(compressed: &[u8]) -> (bytes: Option<Vec<u8>>)
        ensures
            match bytes {
                Some(b) => Self::decompressed(compressed@) == Some(b@),
                None => Self::decompressed(compressed@) is None,
            },
    ;
}

/// What a buffer with a leading byte stands for, given what the compressor's
/// own decompression makes of a packed buffer.
pub open spec fn unframed(compressed: Seq<u8>, unpacked: Option<Seq<u8>>) -> Option<Seq<u8>> {
    if compressed.len() == 0 {
        None
    } else if compressed[0] == STORED {
        Some(compressed.skip(1))
    } else if compressed[0] == PACKED {
        unpacked
    } else {
        None
    }
}

/// Whether the two buffers hold the same bytes.
pub fn bytes_equal(a: &[u8], b: &[u8]) -> (r: bool)
    ensures
        r == (a@ == b@),
{
    if a.len() != b.len() {
        return false;
    }
    let mut i: usize = 0;
    while i < a.len()
        invariant
            i <= a.len(),
            a.len() == b.len(),
            forall|j: int| 0 <= j < i ==> a@[j] == b@[j],
        decreases a.len() - i,
    {
        if a[i] != b[i] {
            return false;
        }
        i += 1;
    }
    assert(a@ =~= b@);
    true
}

/// `tag` followed by `payload`.
pub fn framed(tag: u8, payload: &[u8]) -> (out: Vec<u8>)
    ensures
        out@ == seq![tag] + payload@,
{
    let mut out: Vec<u8> = Vec::new();
    out.push(tag);
    let mut i: usize = 0;
    while i < payload.len()
        invariant
            i <= payload.len(),
            out@ == seq![tag] + payload@.take(i as int),
        decreases payload.len() - i,
    {
        out.push(payload[i]);
        assert(payload@.take(i as int + 1) =~= payload@.take(i as int).push(payload@[i as int]));
        i += 1;
    }
    assert(payload@.take(payload.len() as int) =~= payload@);
    out
}

/// The bytes after the leading byte.
pub fn payload(compressed: &[u8]) -> (out: Vec<u8>)
    requires
        compressed.len() > 0,
    ensures
        out@ == compressed@.skip(1),
{
    let mut out: Vec<u8> = Vec::new();
    let mut i: usize = 1;
    while i < compressed.len()
        invariant
            1 <= i <= compressed.len(),
            out@ == compressed@.subrange(1, i as int),
        decreases compressed.len() - i,
    {
        out.push(compressed[i]);
        assert(compressed@.subrange(1, i as int + 1) =~= compressed@.subrange(1, i as int).push(
            compressed@[i as int],
        ));
        i += 1;
    }
    assert(compressed@.subrange(1, compressed.len() as int) =~= compressed@.skip(1));
    out
}

/// The buffer that stands for `bytes`, given what the compressor made of
/// them and what its decompression made of that: the packed form where it
/// reads back as `bytes`, and `bytes` themselves otherwise.
pub fn frame_checked(bytes: &[u8], packed: Option<Vec<u8>>, unpacked: Option<Vec<u8>>) -> (out: Vec<
    u8,
>)
    ensures
        out@ == match (packed, unpacked) {
            (Some(p), Some(u)) => if u@ == bytes@ {
                seq![PACKED] + p@
            } else {
                seq![STORED] + bytes@
            },
            _ => seq![STORED] + bytes@,
        },
{
    match (packed, unpacked) {
        (Some(p), Some(u)) => {
            if bytes_equal(u.as_slice(), bytes) {
                framed(PACKED, p.as_slice())
            } else {
                framed(STORED, bytes)
            }
        },
        _ => framed(STORED, bytes),
    }
}

/// What the Snappy decoder makes of a buffer: the decompressed bytes, or
/// `None` where it reports an error.
pub uninterp spec fn snappy_decompressed(compressed: Seq<u8>) -> Option<Seq<u8>>;

/// What the LZ4 block decoder makes of a buffer that starts with the length
/// of the decompressed bytes: those bytes, or `None` where it reports an
/// error.
pub uninterp spec fn lz4_decompressed(compressed: Seq<u8>) -> Option<Seq<u8>>;

/// `snap::raw::Encoder::compress_vec` on a new encoder. Nothing is claimed
/// of the bytes that come back; `None` stands for the encoder's error.
#[verifier::external_body]
fn snappy_compress(bytes: &[u8]) -> Option<Vec<u8>> {
    snap::raw::Encoder::new().compress_vec(bytes).ok()
}

/// `snap::raw::Decoder::decompress_vec` on a new decoder. Its result depends
/// on the buffer alone; `None` stands for the decoder's error.
#[verifier::external_body]
fn snappy_decompress(compressed: &[u8]) -> (bytes: Option<Vec<u8>>)
    ensures
        match bytes {
            Some(b) => snappy_decompressed(compressed@) == Some(b@),
            None => snappy_decompressed(compressed@) is None,
        },
{
    snap::raw::Decoder::new().decompress_vec(compressed).ok()
}

/// `lz4::block::compress` in high-compression mode at `level`, with the
/// length of the input in front. Nothing is claimed of the bytes that come
/// back; `None` stands for the error. An empty input is kept away from the
/// compressor, which at its highest levels does not return on one.
#[verifier::external_body]
fn lz4_compress(bytes: &[u8], level: i32) -> Option<Vec<u8>>
    requires
        bytes@.len() > 0,
        0 <= level <= 12,
{
    lz4::block::compress(bytes, Some(lz4::block::CompressionMode::HIGHCOMPRESSION(level)), true).ok()
}

/// `lz4::block::decompress` of a buffer that starts with the length of the
/// decompressed bytes. Its result depends on the buffer alone; `None` stands
/// for the error.
#[verifier::external_body]
fn lz4_decompress(compressed: &[u8]) -> (bytes: Option<Vec<u8>>)
    ensures
        match bytes {
            Some(b) => lz4_decompressed(compressed@) == Some(b@),
            None => lz4_decompressed(compressed@) is None,
        },
{
    lz4::block::decompress(compressed, None).ok()
}

/// The Snappy compression algorithm.
#[derive(Clone, Copy, Debug)]
pub struct Snappy;

/// The LZ4 compression algorithm at a compression level.
#[derive(Clone, Copy, Debug)]
pub struct Lz4 {
    pub level: u32,
}

impl BytesCompression for Snappy {
    open spec fn decompressed(compressed: Seq<u8>) -> Option<Seq<u8>> {
        unframed(compressed, snappy_decompressed(compressed.skip(1)))
    }

    fn compress_bytes(&self, bytes: &[u8]) -> (compressed: Vec<u8>) {
        let packed = snappy_compress(bytes);
        let unpacked = match &packed {
            Some(p) => snappy_decompress(p.as_slice()),
            None => None,
        };
        let out = frame_checked(bytes, packed, unpacked);
        proof {
            assert(out@.skip(1) =~= match (packed, unpacked) {
                (Some(p), Some(u)) => if u@ == bytes@ {
                    p@
                } else {
                    bytes@
                },
                _ => bytes@,
            });
        }
        out
    }

    fn decompress_bytes(compressed: &[u8]) -> (bytes: Option<Vec<u8>>) {
        if compressed.len() == 0 {
            None
        } else if compressed[0] == STORED {
            Some(payload(compressed))
        } else if compressed[0] == PACKED {
            let rest = payload(compressed);
            snappy_decompress(rest.as_slice())
        } else {
            None
        }
    }
}

impl BytesCompression for Lz4 {
    open spec fn decompressed(compressed: Seq<u8>) -> Option<Seq<u8>> {
        unframed(compressed, lz4_decompressed(compressed.skip(1)))
    }

    fn compress_bytes(&self, bytes: &[u8]) -> (compressed: Vec<u8>) {
        let level: i32 = if self.level > 12 {
            12
        } else {
            self.level as i32
        };
        let packed = if bytes.len() > 0 {
            lz4_compress(bytes, level)
        } else {
            None
        };
        let unpacked = match &packed {
            Some(p) => lz4_decompress(p.as_slice()),
            None => None,
        };
        let out = frame_checked(bytes, packed, unpacked);
        proof {
            assert(out@.skip(1) =~= match (packed, unpacked) {
                (Some(p), Some(u)) => if u@ == bytes@ {
                    p@
                } else {
                    bytes@
                },
                _ => bytes@,
            });
        }
        out
    }

    fn decompress_bytes(compressed: &[u8]) -> (bytes: Option<Vec<u8>>) {
        if compressed.len() == 0 {
            None
        } else if compressed[0] == STORED {
            Some(payload(compressed))
        } else if compressed[0] == PACKED {
            let rest = payload(compressed);
            lz4_decompress(rest.as_slice())
        } else {
            None
        }
    }
}

} // verus!
