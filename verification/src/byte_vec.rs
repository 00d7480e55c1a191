use vstd::bytes::{spec_u64_from_le_bytes, spec_u64_to_le_bytes, u64_from_le_bytes, u64_to_le_bytes};
use vstd::prelude::*;
use vstd::slice::slice_subrange;

verus! {

/// The little-endian encoding of a signed 64-bit integer (its two's-complement bits).
pub open spec fn i64_le_bytes(v: i64) -> Seq<u8> {
    spec_u64_to_le_bytes(v as u64)
}

/// The signed 64-bit integer whose little-endian encoding is `s`.
pub open spec fn i64_from_le(s: Seq<u8>) -> i64 {
    spec_u64_from_le_bytes(s) as i64
}

/// The 8 bytes of `s` starting at `idx`.
pub open spec fn word_at(s: Seq<u8>, idx: int) -> Seq<u8> {
    s.subrange(idx, idx + 8)
}

/// `s` with the 8 bytes starting at `idx` replaced by `w`.
pub open spec fn with_word_at(s: Seq<u8>, idx: int, w: Seq<u8>) -> Seq<u8> {
    s.subrange(0, idx) + w + s.subrange(idx + 8, s.len() as int)
}

/// The number of zero bytes that bring a buffer of length `len` to a multiple of
/// `align` (no padding when it already is one).
pub open spec fn padding_for(len: nat, align: nat) -> nat {
    if len % align == 0 {
        0
    } else {
        (align - len % align) as nat
    }
}

/// Encoding a value and decoding the bytes gives the value back.
pub proof fn lemma_le_roundtrip(v: u64)
    ensures
        spec_u64_to_le_bytes(v).len() == 8,
        spec_u64_from_le_bytes(spec_u64_to_le_bytes(v)) == v,
{
    vstd::bytes::lemma_auto_spec_u64_to_from_le_bytes();
}

/// Encoding a signed value and decoding the bytes gives the value back.
pub proof fn lemma_i64_le_roundtrip(v: i64)
    ensures
        i64_le_bytes(v).len() == 8,
        i64_from_le(i64_le_bytes(v)) == v,
{
    vstd::bytes::lemma_auto_spec_u64_to_from_le_bytes();
    let u = v as u64;
    assert(spec_u64_from_le_bytes(spec_u64_to_le_bytes(u)) == u);
    assert((v as u64) as i64 == v) by (bit_vector);
}

/// A growable byte buffer into which bytes and 64-bit integers are written in
/// little-endian order and read back by byte offset.
pub trait ByteVecTrait {
    /// The bytes in the buffer.
    spec fn bytes(&self) -> Seq<u8>;

    /// The buffer's length fits in a `u64`.
    proof fn lemma_len_bound(&self)
        ensures
            self.bytes().len() <= u64::MAX,
    ;

    /// Appends one byte; returns the offset it was written at.
    fn push_u8(&mut self, value: u8) -> (r: u64)
        ensures
            r == old(self).bytes().len(),
            final(self).bytes() == old(self).bytes().push(value),
    ;

    /// The byte at offset `idx`.
    fn get_u8(&self, idx: u64) -> (r: u8)
        requires
            idx < self.bytes().len(),
        ensures
            r == self.bytes()[idx as int],
    ;

    /// Appends the 8 bytes of `value`; returns the offset they were written at.
    fn push_u64(&mut self, value: u64) -> (r: u64)
        ensures
            r == old(self).bytes().len(),
            final(self).bytes() == old(self).bytes() + spec_u64_to_le_bytes(value),
    ;

    /// The unsigned integer stored in the 8 bytes at offset `idx`.
    fn get_u64(&self, idx: u64) -> (r: u64)
        requires
            idx + 8 <= self.bytes().len(),
        ensures
            r == spec_u64_from_le_bytes(word_at(self.bytes(), idx as int)),
    ;

    /// Overwrites the 8 bytes at offset `idx` with `value`.
    fn set_u64(&mut self, idx: u64, value: u64)
        requires
            idx + 8 <= old(self).bytes().len(),
        ensures
            final(self).bytes() == with_word_at(old(self).bytes(), idx as int, spec_u64_to_le_bytes(value)),
    ;

    /// Appends the 8 bytes of `value`; returns the offset they were written at.
    fn push_i64(&mut self, value: i64) -> (r: u64)
        ensures
            r == old(self).bytes().len(),
            final(self).bytes() == old(self).bytes() + i64_le_bytes(value),
    ;

    /// The signed integer stored in the 8 bytes at offset `idx`.
    fn get_i64(&self, idx: u64) -> (r: i64)
        requires
            idx + 8 <= self.bytes().len(),
        ensures
            r == i64_from_le(word_at(self.bytes(), idx as int)),
    ;

    /// Appends zero bytes until the length is a multiple of the alignment of `T`.
    fn pad_for_value<T>(&mut self)
        ensures
            final(self).bytes() == old(self).bytes() + Seq::new(
                padding_for(old(self).bytes().len(), vstd::layout::align_of::<T>()),
                |i: int| 0u8,
            ),
    ;

    /// The number of bytes in the buffer.
    fn len(&self) -> (r: u64)
        ensures
            r == self.bytes().len(),
    ;
}

/// The byte buffer.
pub struct ByteVec {
    data: Vec<u8>,
}

impl View for ByteVec {
    type V = Seq<u8>;

    closed spec fn view(&self) -> Seq<u8> {
        self.data@
    }
}

impl ByteVec {
    pub fn new() -> (res: Self)
        ensures
            res@ == Seq::<u8>::empty(),
    {
        ByteVec { data: Vec::new() }
    }

    /// Appends all bytes of `s`.
    fn push_bytes(&mut self, s: &[u8])
        ensures
            final(self)@ == old(self)@ + s@,
    {
        let mut i: usize = 0;
        while i < s.len()
            invariant
                0 <= i <= s@.len(),
                self@ == old(self)@ + s@.subrange(0, i as int),
            decreases s@.len() - i,
        {
            self.data.push(s[i]);
            proof {
                assert(s@.subrange(0, i + 1) == s@.subrange(0, i as int).push(s@[i as int]));
            }
            i = i + 1;
        }
        proof {
            assert(s@.subrange(0, s@.len() as int) == s@);
        }
    }

    /// The bytes between offsets `start` and `end`.
    fn get_slice(&self, start: usize, end: usize) -> (r: &[u8])
        requires
            start <= end <= self@.len(),
        ensures
            r@ == self@.subrange(start as int, end as int),
    {
        slice_subrange(self.data.as_slice(), start, end)
    }

    /// Mutable access to `len` consecutive 64-bit words starting at offset `idx`,
    /// which must be a multiple of the alignment of `u64`.
    pub fn get_mut_slice(&mut self, idx: u64, len: u64) -> (r: ByteVecSliceMut<'_>)
        requires
            idx as nat % vstd::layout::align_of::<u64>() == 0,
            idx + 8 * len <= old(self)@.len(),
        ensures
            *r.byte_vec == *old(self),
            *final(self) == *final(r.byte_vec),
            r.start_idx == idx,
            r.len == len,
    {
        ByteVecSliceMut { byte_vec: self, start_idx: idx, len }
    }
}

impl ByteVecTrait for ByteVec {
    open spec fn bytes(&self) -> Seq<u8> {
        self@
    }

    proof fn lemma_len_bound(&self) {
        assert(self.data.len() == self.data@.len());
    }

    fn push_u8(&mut self, value: u8) -> (r: u64) {
        let offset = self.data.len();
        self.data.push(value);
        offset as u64
    }

    fn get_u8(&self, idx: u64) -> (r: u8) {
        let n = self.data.len();
        self.data[idx as usize]
    }

    fn push_u64(&mut self, value: u64) -> (r: u64) {
        let offset = self.data.len();
        let bytes = u64_to_le_bytes(value);
        self.push_bytes(bytes.as_slice());
        offset as u64
    }

    fn get_u64(&self, idx: u64) -> (r: u64) {
        let n = self.data.len();
        let start = idx as usize;
        u64_from_le_bytes(self.get_slice(start, start + 8))
    }

    fn set_u64(&mut self, idx: u64, value: u64) {
        let bytes = u64_to_le_bytes(value);
        let n = self.data.len();
        let start = idx as usize;
        let mut i: usize = 0;
        while i < 8
            invariant
                0 <= i <= 8,
                start + 8 <= old(self)@.len(),
                start == idx,
                self.data@.len() <= usize::MAX,
                bytes@ == spec_u64_to_le_bytes(value),
                bytes@.len() == 8,
                self@.len() == old(self)@.len(),
                forall|k: int| 0 <= k < self@.len() ==> #[trigger] self@[k] == if start <= k < start + i {
                    bytes@[k - start]
                } else {
                    old(self)@[k]
                },
            decreases 8 - i,
        {
            self.data.set(start + i, bytes[i]);
            i = i + 1;
        }
        proof {
            assert(self@ =~= with_word_at(old(self)@, idx as int, spec_u64_to_le_bytes(value)));
        }
    }

    fn push_i64(&mut self, value: i64) -> (r: u64) {
        self.push_u64(value as u64)
    }

    fn get_i64(&self, idx: u64) -> (r: i64) {
        self.get_u64(idx) as i64
    }

    fn pad_for_value<T>(&mut self) {
        let align = core::mem::align_of::<T>();
        proof {
            broadcast use vstd::layout::align_nonzero;
        }
        let remainder = self.data.len() % align;
        let mut padding: usize = 0;
        if remainder != 0 {
            padding = align - remainder;
        }
        let mut i: usize = 0;
        while i < padding
            invariant
                0 <= i <= padding,
                self@ == old(self)@ + Seq::new(i as nat, |k: int| 0u8),
            decreases padding - i,
        {
            self.data.push(0);
            proof {
                assert(Seq::new((i + 1) as nat, |k: int| 0u8) =~= Seq::new(i as nat, |k: int| 0u8).push(0u8));
            }
            i = i + 1;
        }
    }

    fn len(&self) -> (r: u64) {
        self.data.len() as u64
    }
}

impl ByteVec {
    /// An iterator over the `len` bytes starting at offset `start_idx`.
    pub fn get_slice_iterator<'a>(&'a self, start_idx: u64, len: u64) -> (r: ByteVecSliceIterator<'a>)
        ensures
            r.source() == *self,
            r.start() == start_idx,
            r.remaining_len() == len,
    {
        ByteVecSliceIterator { byte_vec: self, start_idx, len }
    }
}

/// Yields the bytes of a range of a [`ByteVec`] as one slice.
pub struct ByteVecSliceIterator<'a> {
    byte_vec: &'a ByteVec,
    start_idx: u64,
    len: u64,
}

impl<'a> ByteVecSliceIterator<'a> {
    /// The buffer the bytes come from.
    pub closed spec fn source(&self) -> ByteVec {
        *self.byte_vec
    }

    /// The offset of the range still to yield.
    pub closed spec fn start(&self) -> u64 {
        self.start_idx
    }

    /// The number of bytes still to yield.
    pub closed spec fn remaining_len(&self) -> u64 {
        self.len
    }

    /// The whole remaining range as one slice the first time, then nothing.
    pub fn next(&mut self) -> (r: Option<&'a [u8]>)
        requires
            old(self).start() + old(self).remaining_len() <= old(self).source()@.len(),
        ensures
            old(self).remaining_len() == 0 ==> r is None && *final(self) == *old(self),
            old(self).remaining_len() > 0 ==> (r matches Some(s) && s@ == old(self).source()@.subrange(
                old(self).start() as int,
                old(self).start() + old(self).remaining_len(),
            )),
            old(self).remaining_len() > 0 ==> final(self).start() == old(self).start() + old(self).remaining_len()
                && final(self).remaining_len() == 0 && final(self).source() == old(self).source(),
    {
        if self.len == 0 {
            return None;
        }
        let n = self.byte_vec.data.len();
        let start = self.start_idx as usize;
        let end = start + self.len as usize;
        let slice = self.byte_vec.get_slice(start, end);
        self.start_idx = self.start_idx + self.len;
        self.len = 0;
        Some(slice)
    }
}

/// Mutable access to consecutive 64-bit words of a [`ByteVec`].
pub struct ByteVecSliceMut<'a> {
    pub byte_vec: &'a mut ByteVec,
    pub start_idx: u64,
    pub len: u64,
}

impl<'a> ByteVecSliceMut<'a> {
    /// The number of words.
    pub fn len(&self) -> (r: u64)
        ensures
            r == self.len,
    {
        self.len
    }

    /// The word at position `i`.
    pub fn get(&self, i: u64) -> (r: u64)
        requires
            i < self.len,
            self.start_idx + 8 * self.len <= self.byte_vec@.len(),
        ensures
            r == spec_u64_from_le_bytes(word_at(old(self.byte_vec)@, self.start_idx + 8 * i)),
    {
        let n = self.byte_vec.data.len();
        self.byte_vec.get_u64(self.start_idx + 8 * i)
    }

    /// Overwrites the word at position `i`.
    pub fn set(&mut self, i: u64, value: u64)
        requires
            i < old(self).len,
            old(self).start_idx + 8 * old(self).len <= old(self).byte_vec@.len(),
        ensures
            final(self).byte_vec@ == with_word_at(
                old(self).byte_vec@,
                old(self).start_idx + 8 * i,
                spec_u64_to_le_bytes(value),
            ),
            final(self).start_idx == old(self).start_idx,
            final(self).len == old(self).len,
            *final(final(self).byte_vec) == *final(old(self).byte_vec),
    {
        let n = self.byte_vec.data.len();
        let idx = self.start_idx + 8 * i;
        self.byte_vec.set_u64(idx, value);
    }
}

} // verus!
