//! Voxels as bytes: what a compressed store writes before it compresses.
use vstd::prelude::*;

verus! {

/// A voxel type with an encoding of fixed width. Different voxels have
/// different encodings.
pub trait VoxelBytes: Copy {
    /// The number of bytes of every encoding.
    spec fn width() -> nat;

    /// The bytes that stand for the voxel.
    spec fn encoded(self) -> Seq<u8>;

    /// Every encoding has the width of the type, which is not zero.
    proof fn lemma_width(self)
        ensures
            self.encoded().len() == Self::width(),
            Self::width() > 0,
    ;

    /// Voxels with the same encoding are the same voxel.
    proof fn lemma_injective(self, other: Self)
        requires
            self.encoded() == other.encoded(),
        ensures
            self == other,
    ;

    /// The number of bytes of every encoding.
    fn byte_width() -> (w: usize)
        ensures
            w == Self::width(),
            w > 0,
    ;

    /// Appends the encoding of the voxel to `out`.
    fn encode(&self, out: &mut Vec<u8>)
        ensures
            final(out)@ == old(out)@ + self.encoded(),
    ;

    /// The voxel whose encoding starts at `at` in `bytes`. Where no voxel has
    /// that encoding, any voxel may come back.
    fn decode(bytes: &[u8], at: usize) -> (voxel: Self)
        requires
            at + Self::width() <= bytes.len(),
        ensures
            forall|v: Self|
                #[trigger] v.encoded() == bytes@.subrange(at as int, at + Self::width())
                    ==> voxel == v,
    ;
}

impl VoxelBytes for u8 {
    open spec fn width() -> nat {
        1
    }

    open spec fn encoded(self) -> Seq<u8> {
        seq![self]
    }

    proof fn lemma_width(self) {
    }

    proof fn lemma_injective(self, other: Self) {
        assert(self.encoded()[0] == self);
        assert(other.encoded()[0] == other);
    }

    fn byte_width() -> (w: usize) {
        1
    }

    fn encode(&self, out: &mut Vec<u8>) {
        out.push(*self);
        assert(out@ =~= old(out)@ + self.encoded());
    }

    fn decode(bytes: &[u8], at: usize) -> (voxel: Self) {
        let voxel = bytes[at];
        assert forall|v: u8|
            #[trigger] v.encoded() == bytes@.subrange(at as int, at + Self::width()) implies voxel
            == v by {
            assert(v.encoded()[0] == bytes@.subrange(at as int, at + 1)[0]);
        }
        voxel
    }
}

impl VoxelBytes for u16 {
    open spec fn width() -> nat {
        2
    }

    open spec fn encoded(self) -> Seq<u8> {
        seq![(self & 0xff) as u8, (self >> 8) as u8]
    }

    proof fn lemma_width(self) {
    }

    proof fn lemma_injective(self, other: Self) {
        let a = self;
        let b = other;
        assert(self.encoded()[0] == other.encoded()[0]);
        assert(self.encoded()[1] == other.encoded()[1]);
        assert((a & 0xff) as u8 == (b & 0xff) as u8 && (a >> 8) as u8 == (b >> 8) as u8 ==> a == b)
            by (bit_vector);
    }

    fn byte_width() -> (w: usize) {
        2
    }

    fn encode(&self, out: &mut Vec<u8>) {
        let v = *self;
        assert(v & 0xff <= 0xff && v >> 8 <= 0xff) by (bit_vector);
        out.push((v & 0xff) as u8);
        out.push((v >> 8) as u8);
        assert(out@ =~= old(out)@ + self.encoded());
    }

    fn decode(bytes: &[u8], at: usize) -> (voxel: Self) {
        let low = bytes[at];
        let high = bytes[at + 1];
        let voxel = (low as u16) | ((high as u16) << 8);
        assert forall|v: u16|
            #[trigger] v.encoded() == bytes@.subrange(at as int, at + Self::width()) implies voxel
            == v by {
            let e = v.encoded();
            let s = bytes@.subrange(at as int, at + 2);
            assert(e[0] == s[0]);
            assert(e[1] == s[1]);
            assert(low == (v & 0xff) as u8 && high == (v >> 8) as u8 ==> (low as u16) | ((
            high as u16) << 8) == v) by (bit_vector);
        }
        voxel
    }
}

impl VoxelBytes for u32 {
    open spec fn width() -> nat {
        4
    }

    open spec fn encoded(self) -> Seq<u8> {
        seq![
            (self & 0xff) as u8,
            ((self >> 8) & 0xff) as u8,
            ((self >> 16) & 0xff) as u8,
            ((self >> 24) & 0xff) as u8,
        ]
    }

    proof fn lemma_width(self) {
    }

    proof fn lemma_injective(self, other: Self) {
        let a = self;
        let b = other;
        assert(self.encoded()[0] == other.encoded()[0]);
        assert(self.encoded()[1] == other.encoded()[1]);
        assert(self.encoded()[2] == other.encoded()[2]);
        assert(self.encoded()[3] == other.encoded()[3]);
        assert((a & 0xff) as u8 == (b & 0xff) as u8 && ((a >> 8) & 0xff) as u8 == ((b >> 8)
            & 0xff) as u8 && ((a >> 16) & 0xff) as u8 == ((b >> 16) & 0xff) as u8 && ((a >> 24)
            & 0xff) as u8 == ((b >> 24) & 0xff) as u8 ==> a == b) by (bit_vector);
    }

    fn byte_width() -> (w: usize) {
        4
    }

    fn encode(&self, out: &mut Vec<u8>) {
        let v = *self;
        assert(0 <= v & 0xff <= 0xff && 0 <= (v >> 8) & 0xff <= 0xff && 0 <= (v >> 16) & 0xff
            <= 0xff && 0 <= (v >> 24) & 0xff <= 0xff) by (bit_vector);
        out.push((v & 0xff) as u8);
        out.push(((v >> 8) & 0xff) as u8);
        out.push(((v >> 16) & 0xff) as u8);
        out.push(((v >> 24) & 0xff) as u8);
        assert(out@ =~= old(out)@ + self.encoded());
    }

    fn decode(bytes: &[u8], at: usize) -> (voxel: Self) {
        let b0 = bytes[at];
        let b1 = bytes[at + 1];
        let b2 = bytes[at + 2];
        let b3 = bytes[at + 3];
        let voxel = (b0 as u32) | ((b1 as u32) << 8) | ((b2 as u32) << 16) | ((b3 as u32) << 24);
        assert forall|v: u32|
            #[trigger] v.encoded() == bytes@.subrange(at as int, at + Self::width()) implies voxel
            == v by {
            let e = v.encoded();
            let s = bytes@.subrange(at as int, at + 4);
            assert(e[0] == s[0]);
            assert(e[1] == s[1]);
            assert(e[2] == s[2]);
            assert(e[3] == s[3]);
            assert(b0 == (v & 0xff) as u8 && b1 == ((v >> 8) & 0xff) as u8 && b2 == ((v >> 16)
                & 0xff) as u8 && b3 == ((v >> 24) & 0xff) as u8 ==> (b0 as u32) | ((b1 as u32) << 8)
                | ((b2 as u32) << 16) | ((b3 as u32) << 24) == v) by (bit_vector);
        }
        voxel
    }
}

impl VoxelBytes for i32 {
    open spec fn width() -> nat {
        4
    }

    open spec fn encoded(self) -> Seq<u8> {
        seq![
            (self & 0xff) as u8,
            ((self >> 8) & 0xff) as u8,
            ((self >> 16) & 0xff) as u8,
            ((self >> 24) & 0xff) as u8,
        ]
    }

    proof fn lemma_width(self) {
    }

    proof fn lemma_injective(self, other: Self) {
        let a = self;
        let b = other;
        assert(self.encoded()[0] == other.encoded()[0]);
        assert(self.encoded()[1] == other.encoded()[1]);
        assert(self.encoded()[2] == other.encoded()[2]);
        assert(self.encoded()[3] == other.encoded()[3]);
        assert((a & 0xff) as u8 == (b & 0xff) as u8 && ((a >> 8) & 0xff) as u8 == ((b >> 8)
            & 0xff) as u8 && ((a >> 16) & 0xff) as u8 == ((b >> 16) & 0xff) as u8 && ((a >> 24)
            & 0xff) as u8 == ((b >> 24) & 0xff) as u8 ==> a == b) by (bit_vector);
    }

    fn byte_width() -> (w: usize) {
        4
    }

    fn encode(&self, out: &mut Vec<u8>) {
        let v = *self;
        assert(0 <= v & 0xff <= 0xff && 0 <= (v >> 8) & 0xff <= 0xff && 0 <= (v >> 16) & 0xff
            <= 0xff && 0 <= (v >> 24) & 0xff <= 0xff) by (bit_vector);
        out.push((v & 0xff) as u8);
        out.push(((v >> 8) & 0xff) as u8);
        out.push(((v >> 16) & 0xff) as u8);
        out.push(((v >> 24) & 0xff) as u8);
        assert(out@ =~= old(out)@ + self.encoded());
    }

    fn decode(bytes: &[u8], at: usize) -> (voxel: Self) {
        let b0 = bytes[at];
        let b1 = bytes[at + 1];
        let b2 = bytes[at + 2];
        let b3 = bytes[at + 3];
        let voxel = (b0 as i32) | ((b1 as i32) << 8) | ((b2 as i32) << 16) | ((b3 as i32) << 24);
        assert forall|v: i32|
            #[trigger] v.encoded() == bytes@.subrange(at as int, at + Self::width()) implies voxel
            == v by {
            let e = v.encoded();
            let s = bytes@.subrange(at as int, at + 4);
            assert(e[0] == s[0]);
            assert(e[1] == s[1]);
            assert(e[2] == s[2]);
            assert(e[3] == s[3]);
            assert(b0 == (v & 0xff) as u8 && b1 == ((v >> 8) & 0xff) as u8 && b2 == ((v >> 16)
                & 0xff) as u8 && b3 == ((v >> 24) & 0xff) as u8 ==> (b0 as i32) | ((b1 as i32) << 8)
                | ((b2 as i32) << 16) | ((b3 as i32) << 24) == v) by (bit_vector);
        }
        voxel
    }
}

/// The encodings of the voxels of `values`, one after the other.
pub open spec fn encoded_values<T: VoxelBytes>(values: Seq<T>) -> Seq<u8>
    decreases values.len(),
{
    if values.len() == 0 {
        Seq::empty()
    } else {
        encoded_values(values.drop_last()) + values.last().encoded()
    }
}

/// In the encoding of a sequence, each voxel has its own stretch of bytes.
pub proof fn lemma_encoded_values<T: VoxelBytes>(values: Seq<T>, i: int)
    requires
        0 <= i < values.len(),
    ensures
        encoded_values(values).len() == values.len() * T::width(),
        0 <= i * T::width(),
        (i + 1) * T::width() <= encoded_values(values).len(),
        encoded_values(values).subrange(i * T::width(), (i + 1) * T::width())
            == values[i].encoded(),
    decreases values.len(),
{
    let w = T::width() as int;
    let n = values.len() as int;
    values.last().lemma_width();
    lemma_encoded_len(values);
    assert(0 <= i * w && (i + 1) * w <= n * w && (n - 1) * w + w == n * w && (i + 1) * w == i * w
        + w) by (nonlinear_arith)
        requires
            0 <= i < n,
            w > 0,
    ;
    let front = encoded_values(values.drop_last());
    lemma_encoded_len(values.drop_last());
    let m = values.drop_last().len() as int;
    assert(m * w == (n - 1) * w && n * w == values.len() * T::width()) by (nonlinear_arith)
        requires
            m == n - 1,
            n == values.len(),
            w == T::width(),
    ;
    assert(front.len() == (n - 1) * w);
    assert(encoded_values(values).len() == n * w);
    if i == n - 1 {
        assert(encoded_values(values).subrange(i * w, (i + 1) * w) =~= values[i].encoded());
    } else {
        lemma_encoded_values(values.drop_last(), i);
        assert((i + 1) * w <= (n - 1) * w) by (nonlinear_arith)
            requires
                0 <= i < n - 1,
                w > 0,
        ;
        assert(encoded_values(values).subrange(i * w, (i + 1) * w) =~= front.subrange(
            i * w,
            (i + 1) * w,
        ));
    }
}

/// The encoding of a sequence has the width of a voxel for each voxel.
pub proof fn lemma_encoded_len<T: VoxelBytes>(values: Seq<T>)
    ensures
        encoded_values(values).len() == values.len() * T::width(),
    decreases values.len(),
{
    if values.len() > 0 {
        values.last().lemma_width();
        lemma_encoded_len(values.drop_last());
        assert((values.len() - 1) * T::width() + T::width() == values.len() * T::width())
            by (nonlinear_arith);
    }
}

/// Sequences with the same encoding are the same sequence.
pub proof fn lemma_encoded_values_injective<T: VoxelBytes>(a: Seq<T>, b: Seq<T>)
    requires
        encoded_values(a) == encoded_values(b),
    ensures
        a == b,
{
    lemma_encoded_len(a);
    lemma_encoded_len(b);
    if a.len() > 0 {
        a[0].lemma_width();
    }
    if b.len() > 0 {
        b[0].lemma_width();
    }
    let w = T::width() as int;
    assert(a.len() == b.len()) by (nonlinear_arith)
        requires
            a.len() * w == b.len() * w,
            a.len() > 0 || b.len() > 0 ==> w > 0,
    ;
    assert forall|i: int| 0 <= i < a.len() implies a[i] == b[i] by {
        lemma_encoded_values(a, i);
        lemma_encoded_values(b, i);
        a[i].lemma_injective(b[i]);
    }
    assert(a =~= b);
}

/// The encodings of the voxels of `values`, one after the other.
pub fn encode_values<T: VoxelBytes>(values: &Vec<T>) -> (out: Vec<u8>)
    ensures
        out@ == encoded_values(values@),
{
    let mut out: Vec<u8> = Vec::new();
    let mut i: usize = 0;
    assert(values@.take(0) =~= Seq::<T>::empty());
    while i < values.len()
        invariant
            i <= values.len(),
            out@ == encoded_values(values@.take(i as int)),
        decreases values.len() - i,
    {
        values[i].encode(&mut out);
        proof {
            let next = values@.take(i as int + 1);
            assert(next.drop_last() =~= values@.take(i as int));
            assert(next.last() == values@[i as int]);
        }
        i += 1;
    }
    assert(values@.take(values.len() as int) =~= values@);
    out
}

/// The `len` voxels whose encodings make up `bytes`.
pub fn decode_values<T: VoxelBytes>(bytes: &[u8], len: usize) -> (values: Vec<T>)
    requires
        bytes.len() == len * T::width(),
    ensures
        values.len() == len,
        forall|s: Seq<T>| #[trigger] encoded_values(s) == bytes@ ==> values@ == s,
{
    let w = T::byte_width();
    let mut values: Vec<T> = Vec::new();
    let mut i: usize = 0;
    while i < len
        invariant
            i <= len,
            w == T::width(),
            w > 0,
            bytes.len() == len * w,
            values.len() == i,
            forall|s: Seq<T>| #[trigger] encoded_values(s) == bytes@ ==> values@ == s.take(i as int),
        decreases len - i,
    {
        proof {
            assert(0 <= i * w && (i + 1) * w <= len * w) by (nonlinear_arith)
                requires
                    0 <= i < len,
                    w > 0,
            ;
            assert((i + 1) * w == i * w + w) by (nonlinear_arith);
        }
        let at: usize = i * w;
        let voxel = T::decode(bytes, at);
        let ghost before = values@;
        values.push(voxel);
        proof {
            assert forall|s: Seq<T>| #[trigger] encoded_values(s) == bytes@ implies values@
                == s.take(i as int + 1) by {
                lemma_encoded_len(s);
                assert(s.len() == len) by (nonlinear_arith)
                    requires
                        s.len() * w == len * w,
                        w > 0,
                ;
                lemma_encoded_values(s, i as int);
                assert(s[i as int].encoded() == bytes@.subrange(at as int, at + T::width()));
                assert(before == s.take(i as int));
                assert(values@ =~= s.take(i as int + 1));
            }
        }
        i += 1;
    }
    proof {
        assert forall|s: Seq<T>| #[trigger] encoded_values(s) == bytes@ implies values@ == s by {
            lemma_encoded_len(s);
            assert(s.len() == len) by (nonlinear_arith)
                requires
                    s.len() * w == len * w,
                    w > 0,
            ;
            assert(s.take(len as int) =~= s);
        }
    }
    values
}

} // verus!
