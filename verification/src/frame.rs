//! The auxiliary uncompressed event-file format: variable-length frames of
//! signature and data bytes, padded to a multiple of four.

use vstd::prelude::*;

verus! {

/// A packed `u16`: fourteen bits of signature length, two bits of padding.
#[derive(Debug, Clone, Copy, PartialEq, Eq)]
pub struct SigLenPad(pub u16);

impl SigLenPad {
    /// Packs a signature length and a padding width.
    pub fn new(sig_len: usize, padding: usize) -> (r: Self)
        requires
            sig_len < 0x3fff,
            padding < 4,
        ensures
            r.0 == sig_len * 4 + padding,
    {
        let sl = sig_len as u16;
        let pd = padding as u16;
        proof {
            assert(sl < 0x3fff && pd < 4 ==> ((sl << 2) | pd) == sl * 4 + pd) by (bit_vector);
        }
        SigLenPad((sl << 2) | pd)
    }

    /// The signature length packed in.
    pub fn sig_len(&self) -> (r: usize)
        ensures
            r == self.0 / 4,
    {
        let v = self.0;
        proof {
            assert((v >> 2) == v / 4) by (bit_vector);
        }
        (v >> 2) as usize
    }

    /// The padding width packed in.
    pub fn padding(&self) -> (r: usize)
        ensures
            r == self.0 % 4,
    {
        let v = self.0;
        proof {
            assert((v & 3) == v % 4) by (bit_vector);
        }
        (v & 3) as usize
    }
}

/// The header of one frame: total length, then the packed signature length
/// and padding.
#[derive(Debug, Clone, Copy, PartialEq, Eq)]
pub struct EventFrameIo {
    pub len: u32,
    pub sig_len_pad: SigLenPad,
}

/// Bytes of header fields before the signature and data.
pub const FRAME_HEADER_LEN: usize = 6;

impl EventFrameIo {
    /// Builds the header for a frame of the given signature and data sizes,
    /// padding the total to a multiple of four.
    pub fn header(sig_len: usize, data_len: usize) -> (r: Self)
        requires
            sig_len < 0x3fff,
            6 + sig_len + data_len + 3 <= u32::MAX,
        ensures
            r.len == 6 + sig_len + data_len + ((4 - (6 + sig_len + data_len) % 4) % 4),
            r.len % 4 == 0,
            r.sig_len_pad.0 == sig_len * 4 + (4 - (6 + sig_len + data_len) % 4) % 4,
    {
        let total = 6 + sig_len + data_len;
        let pad = (4 - total % 4) % 4;
        let len = total + pad;
        EventFrameIo { len: len as u32, sig_len_pad: SigLenPad::new(sig_len, pad) }
    }

    /// The frame's total length, padding included.
    pub fn len(&self) -> (r: usize)
        ensures
            r == self.len,
    {
        self.len as usize
    }

    /// The signature length.
    pub fn sig_len(&self) -> (r: usize)
        ensures
            r == self.sig_len_pad.0 / 4,
    {
        self.sig_len_pad.sig_len()
    }

    /// The padding width.
    pub fn padding(&self) -> (r: usize)
        ensures
            r == self.sig_len_pad.0 % 4,
    {
        self.sig_len_pad.padding()
    }

    /// The length of the signature and data bytes together.
    pub fn slice_len(&self) -> (r: usize)
        requires
            self.sig_len_pad.0 % 4 + 6 <= self.len,
        ensures
            r == self.len - self.sig_len_pad.0 % 4 - 6,
    {
        self.len as usize - self.sig_len_pad.padding() - 6
    }

    /// The signature bytes of a frame body.
    pub fn signature<'a>(&self, body: &'a [u8]) -> (r: &'a [u8])
        requires
            self.sig_len_pad.0 / 4 <= body@.len(),
        ensures
            r@ == body@.subrange(0, self.sig_len_pad.0 as int / 4),
    {
        &body[0..self.sig_len_pad.sig_len()]
    }

    /// The data bytes of a frame body.
    pub fn data<'a>(&self, body: &'a [u8]) -> (r: &'a [u8])
        requires
            self.sig_len_pad.0 / 4 <= body@.len(),
        ensures
            r@ == body@.subrange(self.sig_len_pad.0 as int / 4, body@.len() as int),
    {
        let n = body.len();
        &body[self.sig_len_pad.sig_len()..n]
    }
}

/// One event frame: opaque data bytes and a signature.
#[derive(Debug, Clone, Copy)]
pub struct EventFrame<'a> {
    pub data: &'a [u8],
    pub signature: &'a [u8],
}

impl<'a> EventFrame<'a> {
    pub fn new(data: &'a [u8], signature: &'a [u8]) -> (r: Self)
        ensures
            r.data@ == data@,
            r.signature@ == signature@,
    {
        EventFrame { data, signature }
    }
}

} // verus!
