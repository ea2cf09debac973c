//! The file image: a byte array laid out as header, stream region and
//! staging region.
//!
//! ```text
//! [ 0 .. 4096 )                 MmapFileHeader, padded to 4 KiB
//! [ 4096 .. 4096 + S )          stream region: concatenated finalized blocks
//! [ 4096 + S .. data.len() )    staging region, mutable, resized on demand
//! ```
//!
//! where `S = end_offset - start_offset`.  The caller owns persistence: it
//! hands the stored bytes in at open and takes them out to write them back.

use vstd::prelude::*;
use crate::error::Error;
use crate::records::MmapFileHeader;

verus! {

/// The size of the metadata header region in bytes.
pub const HEADER_REGION: usize = 4096;

/// A byte image of the whole log file, with the header fields mirrored.
pub struct FileImage {
    pub data: Vec<u8>,
    /// Global stream offset of the first stored stream byte.
    pub start_offset: u64,
    /// Global stream offset one past the last finalized byte.
    pub end_offset: u64,
    /// Caller-defined payload format version.
    pub user_version: u32,
}

impl FileImage {
    /// The header record that the first bytes of a well-formed image encode.
    pub open spec fn header_spec(self) -> MmapFileHeader {
        MmapFileHeader {
            stream_version: 1,
            user_version: self.user_version,
            start_offset: self.start_offset,
            end_offset: self.end_offset,
        }
    }

    /// Position of the staging region inside the image.
    pub open spec fn staging_start_spec(self) -> int {
        4096 + self.end_offset - self.start_offset
    }

    /// Well-formedness: regions in bounds, offsets aligned, header encoded.
    pub open spec fn wf(self) -> bool {
        &&& self.data@.len() >= 4096
        &&& self.start_offset <= self.end_offset
        &&& self.end_offset - self.start_offset <= self.data@.len() - 4096
        &&& self.start_offset % 8 == 0
        &&& self.end_offset % 8 == 0
        &&& self.data@.subrange(0, 32) == self.header_spec().enc()
    }

    /// The finalized stream bytes; index 0 is global offset `start_offset`.
    pub open spec fn stream(self) -> Seq<u8> {
        self.data@.subrange(4096, self.staging_start_spec())
    }

    /// The mutable staging bytes at the tail of the image.
    pub open spec fn staging(self) -> Seq<u8> {
        self.data@.subrange(self.staging_start_spec(), self.data@.len() as int)
    }

    /// Position of the staging region inside the image.
    pub fn staging_start(&self) -> (r: usize)
        requires
            self.wf(),
        ensures
            r == self.staging_start_spec(),
    {
        let dlen = self.data.len();
        let diff = self.end_offset - self.start_offset;
        proof {
            assert(diff <= dlen - 4096);
        }
        4096 + diff as usize
    }

    /// Length of the staging region.
    pub fn staging_len(&self) -> (r: usize)
        requires
            self.wf(),
        ensures
            r == self.staging().len(),
    {
        self.data.len() - self.staging_start()
    }

    pub fn end_offset(&self) -> (r: u64)
        ensures
            r == self.end_offset,
    {
        self.end_offset
    }

    /// A fresh image: 4 KiB of zeros with a header for an empty stream.
    pub fn new_fresh(user_version: u32) -> (r: Self)
        ensures
            r.wf(),
            r.start_offset == 0,
            r.end_offset == 0,
            r.user_version == user_version,
            r.stream() == Seq::<u8>::empty(),
            r.staging() == Seq::<u8>::empty(),
            r.data@.len() == 4096,
    {
        let mut data: Vec<u8> = Vec::new();
        data.resize(4096, 0u8);
        let header = MmapFileHeader {
            stream_version: 1,
            user_version,
            start_offset: 0,
            end_offset: 0,
        };
        let mut head_bytes: Vec<u8> = Vec::new();
        header.write_into(&mut head_bytes);
        proof {
            header.lemma_enc();
        }
        splice(&mut data, 0, head_bytes.as_slice());
        let r = FileImage { data, start_offset: 0, end_offset: 0, user_version };
        proof {
            assert(r.data@.subrange(0, 32) =~= header.enc());
            assert(r.stream() =~= Seq::<u8>::empty());
            assert(r.staging() =~= Seq::<u8>::empty());
        }
        r
    }

    /// Opens an image from stored bytes.
    ///
    /// Bytes shorter than the header region (an empty or truncated file)
    /// make a fresh image.  Otherwise the header is validated: a missing
    /// magic, or offsets that do not fit the byte length or are unaligned,
    /// fail with `DataCorruption`; a stream version other than 1 fails with
    /// `WrongStreamVersion` (checked first); a user version other than
    /// `user_version` fails with `WrongUserVersion`.
    pub fn from_bytes(data: Vec<u8>, user_version: u32) -> (r: Result<Self, Error>)
        ensures
            match r {
                Ok(img) => {
                    &&& img.wf()
                    &&& img.user_version == user_version
                    &&& if data@.len() < 4096 {
                        img.data@.len() == 4096 && img.start_offset == 0 && img.end_offset == 0
                    } else {
                        img.data@ == data@
                    }
                },
                Err(e) => data@.len() >= 4096 && {
                    let h = MmapFileHeader::dec(data@.subrange(0, 32));
                    if data@.subrange(0, 8) != MmapFileHeader::magic() {
                        e matches Error::DataCorruption { .. }
                    } else if h.stream_version != 1 {
                        e == Error::WrongStreamVersion(h.stream_version)
                    } else if h.user_version != user_version {
                        e == (Error::WrongUserVersion {
                            expected: user_version,
                            found: h.user_version,
                        })
                    } else {
                        e matches Error::DataCorruption { .. } && !valid_header_bounds(data@)
                    }
                },
            },
            r is Ok <==> (data@.len() < 4096 || (data@.subrange(0, 8)
                == MmapFileHeader::magic() && MmapFileHeader::dec(
                data@.subrange(0, 32),
            ).stream_version == 1 && MmapFileHeader::dec(data@.subrange(0, 32)).user_version
                == user_version && valid_header_bounds(data@))),
    {
        let n = data.len();
        if n < 4096 {
            // a file shorter than the header region is reinitialized fresh
            return Ok(Self::new_fresh(user_version));
        }
        let parsed = MmapFileHeader::parse(data.as_slice(), 0);
        match parsed {
            None => Err(
                Error::data_corruption("magic value not found", 0, 0x4576656e7473_3031u64),
            ),
            Some(h) => {
                if h.stream_version != 1 {
                    return Err(Error::wrong_stream_version(h.stream_version));
                }
                if h.user_version != user_version {
                    return Err(
                        Error::wrong_user_version(user_version, h.user_version),
                    );
                }
                if h.start_offset > h.end_offset || h.start_offset % 8 != 0 || h.end_offset % 8
                    != 0 || h.end_offset - h.start_offset > (n - 4096) as u64 {
                    return Err(
                        Error::data_corruption(
                            "header offsets out of range",
                            h.end_offset,
                            n as u64,
                        ),
                    );
                }
                let img = FileImage {
                    data,
                    start_offset: h.start_offset,
                    end_offset: h.end_offset,
                    user_version,
                };
                proof {
                    let s = img.data@.subrange(0, 32);
                    assert(s.subrange(0, 8) =~= img.data@.subrange(0, 8));
                    assert(MmapFileHeader::dec(s) == h);
                    assert(img.header_spec() == h);
                    lemma_dec_enc(s, h);
                }
                Ok(img)
            },
        }
    }

    /// A read-only view of the whole image, for persisting it.
    pub fn bytes(&self) -> (r: &Vec<u8>)
        ensures
            r@ == self.data@,
    {
        &self.data
    }

    /// Stream bytes `[offset, offset + size)`, checked as `stream_at` does:
    /// below `start_offset` or past `end_offset` is `DataNotPresent`, an
    /// unaligned offset is `DataCorruption`.
    pub fn stream_read(&self, offset: u64, size: u64) -> (r: Result<&[u8], Error>)
        requires
            self.wf(),
        ensures
            match r {
                Ok(s) => offset >= self.start_offset && offset + size <= self.end_offset && offset
                    % 8 == 0 && s@ == self.stream().subrange(
                    offset - self.start_offset,
                    offset - self.start_offset + size,
                ),
                Err(e) => {
                    ||| e matches Error::DataNotPresent { .. } && (offset < self.start_offset
                        || offset + size > self.end_offset)
                    ||| e matches Error::DataCorruption { .. } && offset % 8 != 0 && offset
                        >= self.start_offset && offset + size <= self.end_offset
                },
            },
    {
        if offset < self.start_offset {
            return Err(
                Error::data_not_present("index before start offset", offset, self.start_offset),
            );
        }
        if size > self.end_offset || offset > self.end_offset - size {
            return Err(
                Error::data_not_present(
                    "object reaching beyond end offset",
                    offset,
                    self.end_offset,
                ),
            );
        }
        if offset % 8 != 0 {
            return Err(Error::data_corruption("alignment error", offset, 0));
        }
        let dlen = self.data.len();
        let diff = offset - self.start_offset;
        proof {
            assert(diff + size <= self.end_offset - self.start_offset);
            assert(diff + size <= dlen - 4096);
        }
        let pos = 4096 + diff as usize;
        let s = &self.data.as_slice()[pos..pos + size as usize];
        proof {
            assert(s@ =~= self.stream().subrange(
                offset - self.start_offset,
                offset - self.start_offset + size,
            ));
        }
        Ok(s)
    }

    /// Staging bytes `[from, to)`; past the staging end is `DataCorruption`,
    /// a backwards range is `NumericOverflow`.
    pub fn staging_read(&self, from: usize, to: usize) -> (r: Result<&[u8], Error>)
        requires
            self.wf(),
        ensures
            match r {
                Ok(s) => from <= to <= self.staging().len() && s@ == self.staging().subrange(
                    from as int,
                    to as int,
                ),
                Err(e) => {
                    ||| e matches Error::DataCorruption { .. } && to > self.staging().len()
                    ||| e matches Error::NumericOverflow(_) && from > to && to
                        <= self.staging().len()
                },
            },
    {
        let sl = self.staging_len();
        if to > sl {
            return Err(
                Error::data_corruption("byte index beyond staging end", to as u64, sl as u64),
            );
        }
        if from > to {
            return Err(Error::numeric_overflow("negative range of staging_bytes requested"));
        }
        let start = self.staging_start();
        let dlen = self.data.len();
        proof {
            assert(start + to <= dlen);
        }
        let s = &self.data.as_slice()[start + from..start + to];
        proof {
            assert(s@ =~= self.staging().subrange(from as int, to as int));
        }
        Ok(s)
    }

    /// Writes `bytes` into the staging region at `offset`; past the file end
    /// is `DataCorruption`.
    pub fn staging_write(&mut self, offset: usize, bytes: &[u8]) -> (r: Result<(), Error>)
        requires
            old(self).wf(),
        ensures
            final(self).wf(),
            final(self).start_offset == old(self).start_offset,
            final(self).end_offset == old(self).end_offset,
            final(self).user_version == old(self).user_version,
            final(self).data@.len() == old(self).data@.len(),
            final(self).stream() == old(self).stream(),
            match r {
                Ok(()) => offset + bytes@.len() <= old(self).staging().len()
                    && final(self).staging() == splice_seq(
                    old(self).staging(),
                    offset as int,
                    bytes@,
                ),
                Err(e) => e matches Error::DataCorruption { .. }
                    && offset + bytes@.len() > old(self).staging().len()
                    && *final(self) == *old(self),
            },
    {
        let sl = self.staging_len();
        if offset > sl || bytes.len() > sl - offset {
            let e = if offset <= usize::MAX - bytes.len() {
                (offset + bytes.len()) as u64
            } else {
                u64::MAX
            };
            return Err(Error::data_corruption("writing beyond end of file", e, sl as u64));
        }
        let start = self.staging_start();
        let dlen = self.data.len();
        proof {
            assert(start + offset + bytes@.len() <= dlen);
        }
        splice(&mut self.data, start + offset, bytes);
        proof {
            assert(final(self).data@.subrange(0, 32) =~= old(self).data@.subrange(0, 32));
            assert(final(self).stream() =~= old(self).stream());
            assert(final(self).staging() =~= splice_seq(
                old(self).staging(),
                offset as int,
                bytes@,
            ));
        }
        Ok(())
    }

    /// Zeroes the staging region.
    pub fn clear_staging(&mut self)
        requires
            old(self).wf(),
        ensures
            final(self).wf(),
            final(self).start_offset == old(self).start_offset,
            final(self).end_offset == old(self).end_offset,
            final(self).user_version == old(self).user_version,
            final(self).data@.len() == old(self).data@.len(),
            final(self).stream() == old(self).stream(),
            final(self).staging() == Seq::new(old(self).staging().len(), |i: int| 0u8),
    {
        let start = self.staging_start();
        let n = self.data.len();
        let mut i = start;
        while i < n
            invariant
                start <= i <= n,
                n == self.data@.len(),
                self.data@.len() == old(self).data@.len(),
                self.start_offset == old(self).start_offset,
                self.end_offset == old(self).end_offset,
                self.user_version == old(self).user_version,
                forall|j: int| start <= j < i ==> self.data@[j] == 0u8,
                forall|j: int| 0 <= j < start ==> self.data@[j] == old(self).data@[j],
                forall|j: int| i <= j < n ==> self.data@[j] == old(self).data@[j],
            decreases n - i,
        {
            self.data[i] = 0u8;
            i += 1;
        }
        proof {
            assert(final(self).data@.subrange(0, 32) =~= old(self).data@.subrange(0, 32));
            assert(final(self).stream() =~= old(self).stream());
            assert(final(self).staging() =~= Seq::new(old(self).staging().len(), |i: int| 0u8));
        }
    }

    /// Grows the image so that the staging region holds at least `len`
    /// bytes; new bytes are zero.  `NumericOverflow` when the needed image
    /// size exceeds `usize`.
    pub fn ensure_staging_len(&mut self, len: usize) -> (r: Result<(), Error>)
        requires
            old(self).wf(),
        ensures
            final(self).wf(),
            final(self).start_offset == old(self).start_offset,
            final(self).end_offset == old(self).end_offset,
            final(self).user_version == old(self).user_version,
            final(self).stream() == old(self).stream(),
            match r {
                Ok(()) => final(self).staging().len() >= len && if old(self).staging().len()
                    >= len {
                    *final(self) == *old(self)
                } else {
                    final(self).staging() == old(self).staging() + Seq::new(
                        (len - old(self).staging().len()) as nat,
                        |i: int| 0u8,
                    )
                },
                Err(e) => e matches Error::NumericOverflow(_) && old(self).staging_start_spec()
                    + len > usize::MAX && *final(self) == *old(self),
            },
    {
        let sl = self.staging_len();
        if sl >= len {
            return Ok(());
        }
        let start = self.staging_start();
        if len > usize::MAX - start {
            return Err(Error::numeric_overflow("growing the file image"));
        }
        self.data.resize(start + len, 0u8);
        proof {
            assert(final(self).data@.subrange(0, 32) =~= old(self).data@.subrange(0, 32));
            assert(final(self).stream() =~= old(self).stream());
            assert(final(self).staging() =~= old(self).staging() + Seq::new(
                (len - old(self).staging().len()) as nat,
                |i: int| 0u8,
            ));
        }
        Ok(())
    }

    /// Appends `bytes` to the stream region, clobbering the start of the
    /// staging area.  The stream advances by `bytes.len()` rounded up to a
    /// multiple of 8; the padding bytes are zero.  The header's `end_offset`
    /// is rewritten.  `NumericOverflow` when an offset computation would
    /// exceed its type.
    pub fn stream_append(&mut self, bytes: &[u8]) -> (r: Result<(), Error>)
        requires
            old(self).wf(),
        ensures
            final(self).start_offset == old(self).start_offset,
            final(self).user_version == old(self).user_version,
            match r {
                Ok(()) => {
                    &&& final(self).wf()
                    &&& final(self).end_offset == old(self).end_offset + round8(bytes@.len() as int)
                    &&& final(self).stream() == old(self).stream() + bytes@ + Seq::new(
                        (round8(bytes@.len() as int) - bytes@.len()) as nat,
                        |i: int| 0u8,
                    )
                },
                Err(e) => {
                    &&& e matches Error::NumericOverflow(_)
                    &&& *final(self) == *old(self)
                },
            },
            old(self).end_offset + round8(bytes@.len() as int) <= u64::MAX && old(
                self,
            ).staging_start_spec() + round8(bytes@.len() as int) <= usize::MAX ==> r is Ok,
    {
        let len = bytes.len();
        if len > usize::MAX - 7 {
            proof {
                assert(round8(bytes@.len() as int) >= bytes@.len());
                assert(old(self).staging_start_spec() >= 4096);
                assert(old(self).staging_start_spec() + round8(bytes@.len() as int)
                    > usize::MAX);
            }
            return Err(Error::numeric_overflow("rounding up an append"));
        }
        let pad = (8 - len % 8) % 8;
        let advance = len + pad;
        proof {
            assert(advance == round8(bytes@.len() as int));
        }
        if advance as u64 > u64::MAX - self.end_offset {
            return Err(Error::numeric_overflow("advancing the end offset"));
        }
        let mut padded: Vec<u8> = Vec::new();
        padded.extend_from_slice(bytes);
        let mut p: usize = 0;
        while p < pad
            invariant
                0 <= p <= pad,
                padded@ == bytes@ + Seq::new(p as nat, |i: int| 0u8),
            decreases pad - p,
        {
            padded.push(0u8);
            proof {
                assert(padded@ =~= bytes@ + Seq::new((p + 1) as nat, |i: int| 0u8));
            }
            p += 1;
        }
        match self.ensure_staging_len(advance) {
            Ok(()) => {},
            Err(e) => {
                return Err(e);
            },
        }
        let ghost grown = self.data@;
        let start = self.staging_start();
        let dlen = self.data.len();
        proof {
            assert(start + advance <= dlen);
        }
        splice(&mut self.data, start, padded.as_slice());
        let new_end = self.end_offset + advance as u64;
        self.end_offset = new_end;
        let header = MmapFileHeader {
            stream_version: 1,
            user_version: self.user_version,
            start_offset: self.start_offset,
            end_offset: new_end,
        };
        let mut head_bytes: Vec<u8> = Vec::new();
        header.write_into(&mut head_bytes);
        proof {
            header.lemma_enc();
        }
        splice(&mut self.data, 0, head_bytes.as_slice());
        proof {
            let fin = self.data@;
            let start_i = start as int;
            let target = old(self).stream() + padded@;
            assert(final(self).data@.subrange(0, 32) =~= header.enc());
            assert(final(self).stream().len() == target.len());
            assert forall|k: int| 0 <= k < target.len() implies fin[4096 + k] == target[k] by {
                if k < old(self).stream().len() {
                    let ss = old(self).staging_start_spec();
                    assert(grown.subrange(4096, ss) == old(self).stream());
                    assert(grown[4096 + k] == grown.subrange(4096, ss)[k]);
                    assert(old(self).data@[4096 + k] == old(self).stream()[k]);
                    assert(fin[4096 + k] == grown[4096 + k]);
                } else {
                    assert(fin[4096 + k] == padded@[k - old(self).stream().len()]);
                }
            }
            assert(final(self).stream() =~= target);
            assert(target =~= old(self).stream() + bytes@ + Seq::new(
                (round8(bytes@.len() as int) - bytes@.len()) as nat,
                |i: int| 0u8,
            ));
        }
        Ok(())
    }
}

/// `n` rounded up to the next multiple of 8.
pub open spec fn round8(n: int) -> int {
    n + ((8 - n % 8) % 8)
}

/// `s` with `src` written over its bytes starting at `at`.
pub open spec fn splice_seq(s: Seq<u8>, at: int, src: Seq<u8>) -> Seq<u8> {
    s.subrange(0, at) + src + s.subrange(at + src.len(), s.len() as int)
}

/// Writes `src` over `data` starting at `at`, in place.
pub fn splice(data: &mut Vec<u8>, at: usize, src: &[u8])
    requires
        at + src@.len() <= old(data)@.len(),
    ensures
        final(data)@.len() == old(data)@.len(),
        final(data)@ == splice_seq(old(data)@, at as int, src@),
{
    let n = src.len();
    let dn = data.len();
    let mut i: usize = 0;
    while i < n
        invariant
            0 <= i <= n,
            n == src@.len(),
            at + n <= dn,
            dn == data@.len(),
            data@.len() == old(data)@.len(),
            forall|j: int| 0 <= j < data@.len() && !(at <= j < at + i) ==> data@[j] == old(
                data,
            )@[j],
            forall|j: int| at <= j < at + i ==> data@[j] == src@[j - at],
        decreases n - i,
    {
        data[at + i] = src[i];
        i += 1;
    }
    proof {
        assert(final(data)@ =~= splice_seq(old(data)@, at as int, src@));
    }
}

/// The header's offsets fit the image: ordered, 8-aligned, and the stream
/// region lies inside the bytes.
pub open spec fn valid_header_bounds(data: Seq<u8>) -> bool {
    let h = MmapFileHeader::dec(data.subrange(0, 32));
    &&& h.start_offset <= h.end_offset
    &&& h.start_offset % 8 == 0
    &&& h.end_offset % 8 == 0
    &&& h.end_offset - h.start_offset <= data.len() - 4096
}

/// Decoding a 32-byte region that carries the magic and re-encoding the
/// record reproduces the region.
pub proof fn lemma_dec_enc(s: Seq<u8>, h: MmapFileHeader)
    requires
        s.len() == 32,
        s.subrange(0, 8) == MmapFileHeader::magic(),
        h == MmapFileHeader::dec(s),
    ensures
        h.enc() == s,
{
    reveal(MmapFileHeader::enc);
    reveal(MmapFileHeader::magic);
    crate::be::lemma_be32(h.stream_version, s.subrange(8, 12));
    crate::be::lemma_be32(h.user_version, s.subrange(12, 16));
    crate::be::lemma_be64(h.start_offset, s.subrange(16, 24));
    crate::be::lemma_be64(h.end_offset, s.subrange(24, 32));
    assert(h.enc() =~= s);
}


/// How a splice reads back: inside the window it is the source, outside it
/// is the old bytes.
pub proof fn lemma_splice_parts(s: Seq<u8>, at: int, src: Seq<u8>)
    requires
        0 <= at,
        at + src.len() <= s.len(),
    ensures
        splice_seq(s, at, src).len() == s.len(),
        forall|k: int| 0 <= k < s.len() && !(at <= k < at + src.len()) ==> #[trigger] splice_seq(
            s,
            at,
            src,
        )[k] == s[k],
        forall|k: int| at <= k < at + src.len() ==> #[trigger] splice_seq(s, at, src)[k] == src[k
            - at],
{
}
} // verus!
