//! The fixed binary records of the file format.
//!
//! Every record that starts a region carries an 8-byte ASCII magic that
//! guards against corruption and type confusion.  All multi-byte scalars are
//! big-endian on disk.  Each record's total on-disk size (magic plus payload)
//! fits in one byte.

use vstd::prelude::*;
use crate::be::{be32, be32_val, be64, be64_val, lemma_be32, lemma_be64, push_be32, push_be64,
    read_be32, read_be64};

verus! {

/// Global metadata at the very start of the file; magic `Events01`.
#[derive(Debug, Clone, Copy)]
pub struct MmapFileHeader {
    pub stream_version: u32,
    pub user_version: u32,
    /// Global stream offset of the first stored byte.
    pub start_offset: u64,
    /// Global stream offset one past the last finalized byte.
    pub end_offset: u64,
}

/// Starts every block in the stream region; magic `BlockSta`.
#[derive(Debug, Clone, Copy)]
pub struct BlockHeader {
    /// Stream offset of the immediately preceding block, `u64::MAX` for none.
    pub prev_block: u64,
    /// Level of this block: 0 for a leaf, above 0 for a branch.
    pub level: u32,
    /// Length of the block payload excluding padding.
    pub length: u32,
}

/// Follows a level-0 `BlockHeader`; magic `LeafHead`.
#[derive(Debug, Clone, Copy)]
pub struct LeafHeader {
    /// Index of the first event in this block.
    pub start_idx: u64,
    /// Number of events in this block.
    pub count: u32,
}

/// Follows a `BlockHeader` of level above 0; magic `BranchHd`.
#[derive(Debug, Clone, Copy)]
pub struct BranchHeader {
    /// Stream offset of the previous block of level at least this one,
    /// `u64::MAX` for none.
    pub prev_offset: u64,
    /// Exclusive upper bound on the event indices summarized below.
    pub end_idx: u64,
}

/// Child pointer inside a branch; stored as a dense array without magic.
#[derive(Debug, Clone, Copy)]
pub struct IndexEntry {
    /// Stream offset of the child block.
    pub offset: u64,
    /// First event index covered by the child.
    pub start_idx: u64,
}

/// Metadata at the start of the staging area; magic `Staging!`.
#[derive(Debug, Clone, Copy)]
pub struct StagingHeader {
    /// Stream offset of the preceding finalized block's header.
    pub last_block: u64,
    /// Index of the first staged event.
    pub start_idx: u64,
    /// Number of staged events.
    pub count: u32,
    /// Number of jump-table slots allocated.
    pub capacity: u32,
}

impl MmapFileHeader {
    /// On-disk bytes including the magic: 32 in all.
    pub const LEN: usize = 32;

    pub const SIZE: u64 = 32;

    #[verifier::opaque]
    pub open spec fn magic() -> Seq<u8> {
        seq![0x45u8, 0x76, 0x65, 0x6e, 0x74, 0x73, 0x30, 0x31]
    }

    #[verifier::opaque]
    pub open spec fn enc(self) -> Seq<u8> {
        Self::magic() + be32(self.stream_version) + be32(self.user_version) + be64(
            self.start_offset,
        ) + be64(self.end_offset)
    }

    pub open spec fn dec(s: Seq<u8>) -> Self
        recommends
            s.len() == 32,
    {
        MmapFileHeader {
            stream_version: be32_val(s.subrange(8, 12)),
            user_version: be32_val(s.subrange(12, 16)),
            start_offset: be64_val(s.subrange(16, 24)),
            end_offset: be64_val(s.subrange(24, 32)),
        }
    }

    pub proof fn lemma_enc(self)
        ensures
            self.enc().len() == 32,
            self.enc().subrange(0, 8) == Self::magic(),
            Self::dec(self.enc()) == self,
    {
        reveal(MmapFileHeader::magic);
        reveal(MmapFileHeader::enc);
        let e = self.enc();
        lemma_be32(self.stream_version, seq![0u8, 0, 0, 0]);
        lemma_be32(self.user_version, seq![0u8, 0, 0, 0]);
        lemma_be64(self.start_offset, seq![0u8, 0, 0, 0, 0, 0, 0, 0]);
        lemma_be64(self.end_offset, seq![0u8, 0, 0, 0, 0, 0, 0, 0]);
        assert(e.subrange(0, 8) =~= Self::magic());
        assert(e.subrange(8, 12) =~= be32(self.stream_version));
        assert(e.subrange(12, 16) =~= be32(self.user_version));
        assert(e.subrange(16, 24) =~= be64(self.start_offset));
        assert(e.subrange(24, 32) =~= be64(self.end_offset));
    }

    /// Appends the record's on-disk bytes to `out`.
    pub fn write_into(&self, out: &mut Vec<u8>)
        ensures
            final(out)@ == old(out)@ + self.enc(),
    {
        out.push(0x45);
        out.push(0x76);
        out.push(0x65);
        out.push(0x6e);
        out.push(0x74);
        out.push(0x73);
        out.push(0x30);
        out.push(0x31);
        push_be32(out, self.stream_version);
        push_be32(out, self.user_version);
        push_be64(out, self.start_offset);
        push_be64(out, self.end_offset);
        assert(final(out)@ =~= old(out)@ + self.enc()) by {
            reveal(MmapFileHeader::enc);
            reveal(MmapFileHeader::magic);
            lemma_be32(self.stream_version, seq![0u8, 0, 0, 0]);
            lemma_be32(self.user_version, seq![0u8, 0, 0, 0]);
            lemma_be64(self.start_offset, seq![0u8, 0, 0, 0, 0, 0, 0, 0]);
            lemma_be64(self.end_offset, seq![0u8, 0, 0, 0, 0, 0, 0, 0]);
        }
    }

    /// Reads the record stored at `at`, failing when the magic is absent.
    pub fn parse(data: &[u8], at: usize) -> (r: Option<Self>)
        requires
            at + 32 <= data@.len(),
        ensures
            match r {
                Some(h) => data@.subrange(at as int, at as int + 8) == Self::magic() && h
                    == Self::dec(data@.subrange(at as int, at as int + 32)),
                None => data@.subrange(at as int, at as int + 8) != Self::magic(),
            },
    {
        let ghost m = data@.subrange(at as int, at as int + 8);
        if data[at] == 0x45 && data[at + 1] == 0x76 && data[at + 2] == 0x65 && data[at + 3] == 0x6e
            && data[at + 4] == 0x74 && data[at + 5] == 0x73 && data[at + 6] == 0x30 && data[at + 7]
            == 0x31 {
            assert(m =~= Self::magic()) by {
                reveal(MmapFileHeader::magic);
            }
            let ghost s = data@.subrange(at as int, at as int + 32);
            let stream_version = read_be32(data, at + 8);
            let user_version = read_be32(data, at + 12);
            let start_offset = read_be64(data, at + 16);
            let end_offset = read_be64(data, at + 24);
            proof {
                assert(data@.subrange(at as int + 8, at as int + 12) =~= s.subrange(8, 12));
                assert(data@.subrange(at as int + 12, at as int + 16) =~= s.subrange(12, 16));
                assert(data@.subrange(at as int + 16, at as int + 24) =~= s.subrange(16, 24));
                assert(data@.subrange(at as int + 24, at as int + 32) =~= s.subrange(24, 32));
            }
            Some(MmapFileHeader { stream_version, user_version, start_offset, end_offset })
        } else {
            proof {
                reveal(MmapFileHeader::magic);
                if m == Self::magic() {
                    assert(m[0] == 0x45 && m[1] == 0x76 && m[2] == 0x65 && m[3] == 0x6e && m[4]
                        == 0x74 && m[5] == 0x73 && m[6] == 0x30 && m[7] == 0x31);
                    assert(false);
                }
            }
            None
        }
    }
}

impl BlockHeader {
    /// On-disk bytes including the magic: 24 in all.
    pub const LEN: usize = 24;

    pub const SIZE: u64 = 24;

    #[verifier::opaque]
    pub open spec fn magic() -> Seq<u8> {
        seq![0x42u8, 0x6c, 0x6f, 0x63, 0x6b, 0x53, 0x74, 0x61]
    }

    #[verifier::opaque]
    pub open spec fn enc(self) -> Seq<u8> {
        Self::magic() + be64(self.prev_block) + be32(self.level) + be32(self.length)
    }

    pub open spec fn dec(s: Seq<u8>) -> Self
        recommends
            s.len() == 24,
    {
        BlockHeader {
            prev_block: be64_val(s.subrange(8, 16)),
            level: be32_val(s.subrange(16, 20)),
            length: be32_val(s.subrange(20, 24)),
        }
    }

    pub proof fn lemma_enc(self)
        ensures
            self.enc().len() == 24,
            self.enc().subrange(0, 8) == Self::magic(),
            Self::dec(self.enc()) == self,
    {
        reveal(BlockHeader::magic);
        reveal(BlockHeader::enc);
        let e = self.enc();
        lemma_be64(self.prev_block, seq![0u8, 0, 0, 0, 0, 0, 0, 0]);
        lemma_be32(self.level, seq![0u8, 0, 0, 0]);
        lemma_be32(self.length, seq![0u8, 0, 0, 0]);
        assert(e.subrange(0, 8) =~= Self::magic());
        assert(e.subrange(8, 16) =~= be64(self.prev_block));
        assert(e.subrange(16, 20) =~= be32(self.level));
        assert(e.subrange(20, 24) =~= be32(self.length));
    }

    /// Appends the record's on-disk bytes to `out`.
    pub fn write_into(&self, out: &mut Vec<u8>)
        ensures
            final(out)@ == old(out)@ + self.enc(),
    {
        out.push(0x42);
        out.push(0x6c);
        out.push(0x6f);
        out.push(0x63);
        out.push(0x6b);
        out.push(0x53);
        out.push(0x74);
        out.push(0x61);
        push_be64(out, self.prev_block);
        push_be32(out, self.level);
        push_be32(out, self.length);
        assert(final(out)@ =~= old(out)@ + self.enc()) by {
            reveal(BlockHeader::enc);
            reveal(BlockHeader::magic);
            lemma_be64(self.prev_block, seq![0u8, 0, 0, 0, 0, 0, 0, 0]);
            lemma_be32(self.level, seq![0u8, 0, 0, 0]);
            lemma_be32(self.length, seq![0u8, 0, 0, 0]);
        }
    }

    /// Reads the record stored at `at`, failing when the magic is absent.
    pub fn parse(data: &[u8], at: usize) -> (r: Option<Self>)
        requires
            at + 24 <= data@.len(),
        ensures
            match r {
                Some(h) => data@.subrange(at as int, at as int + 8) == Self::magic() && h
                    == Self::dec(data@.subrange(at as int, at as int + 24)),
                None => data@.subrange(at as int, at as int + 8) != Self::magic(),
            },
    {
        let ghost m = data@.subrange(at as int, at as int + 8);
        if data[at] == 0x42 && data[at + 1] == 0x6c && data[at + 2] == 0x6f && data[at + 3] == 0x63
            && data[at + 4] == 0x6b && data[at + 5] == 0x53 && data[at + 6] == 0x74 && data[at + 7]
            == 0x61 {
            assert(m =~= Self::magic()) by {
                reveal(BlockHeader::magic);
            }
            let ghost s = data@.subrange(at as int, at as int + 24);
            let prev_block = read_be64(data, at + 8);
            let level = read_be32(data, at + 16);
            let length = read_be32(data, at + 20);
            proof {
                assert(data@.subrange(at as int + 8, at as int + 16) =~= s.subrange(8, 16));
                assert(data@.subrange(at as int + 16, at as int + 20) =~= s.subrange(16, 20));
                assert(data@.subrange(at as int + 20, at as int + 24) =~= s.subrange(20, 24));
            }
            Some(BlockHeader { prev_block, level, length })
        } else {
            proof {
                reveal(BlockHeader::magic);
                if m == Self::magic() {
                    assert(m[0] == 0x42 && m[1] == 0x6c && m[2] == 0x6f && m[3] == 0x63 && m[4]
                        == 0x6b && m[5] == 0x53 && m[6] == 0x74 && m[7] == 0x61);
                    assert(false);
                }
            }
            None
        }
    }
}

impl LeafHeader {
    /// On-disk bytes including the magic and four bytes of padding: 24 in all.
    pub const LEN: usize = 24;

    pub const SIZE: u64 = 24;

    #[verifier::opaque]
    pub open spec fn magic() -> Seq<u8> {
        seq![0x4cu8, 0x65, 0x61, 0x66, 0x48, 0x65, 0x61, 0x64]
    }

    #[verifier::opaque]
    pub open spec fn enc(self) -> Seq<u8> {
        Self::magic() + be64(self.start_idx) + be32(self.count) + seq![0u8, 0, 0, 0]
    }

    pub open spec fn dec(s: Seq<u8>) -> Self
        recommends
            s.len() == 24,
    {
        LeafHeader {
            start_idx: be64_val(s.subrange(8, 16)),
            count: be32_val(s.subrange(16, 20)),
        }
    }

    pub proof fn lemma_enc(self)
        ensures
            self.enc().len() == 24,
            self.enc().subrange(0, 8) == Self::magic(),
            Self::dec(self.enc()) == self,
    {
        reveal(LeafHeader::magic);
        reveal(LeafHeader::enc);
        let e = self.enc();
        lemma_be64(self.start_idx, seq![0u8, 0, 0, 0, 0, 0, 0, 0]);
        lemma_be32(self.count, seq![0u8, 0, 0, 0]);
        assert(e.subrange(0, 8) =~= Self::magic());
        assert(e.subrange(8, 16) =~= be64(self.start_idx));
        assert(e.subrange(16, 20) =~= be32(self.count));
    }

    /// Appends the record's on-disk bytes to `out`.
    pub fn write_into(&self, out: &mut Vec<u8>)
        ensures
            final(out)@ == old(out)@ + self.enc(),
    {
        out.push(0x4c);
        out.push(0x65);
        out.push(0x61);
        out.push(0x66);
        out.push(0x48);
        out.push(0x65);
        out.push(0x61);
        out.push(0x64);
        push_be64(out, self.start_idx);
        push_be32(out, self.count);
        out.push(0);
        out.push(0);
        out.push(0);
        out.push(0);
        assert(final(out)@ =~= old(out)@ + self.enc()) by {
            reveal(LeafHeader::enc);
            reveal(LeafHeader::magic);
            lemma_be64(self.start_idx, seq![0u8, 0, 0, 0, 0, 0, 0, 0]);
            lemma_be32(self.count, seq![0u8, 0, 0, 0]);
        }
    }

    /// Reads the record stored at `at`, failing when the magic is absent.
    pub fn parse(data: &[u8], at: usize) -> (r: Option<Self>)
        requires
            at + 24 <= data@.len(),
        ensures
            match r {
                Some(h) => data@.subrange(at as int, at as int + 8) == Self::magic() && h
                    == Self::dec(data@.subrange(at as int, at as int + 24)),
                None => data@.subrange(at as int, at as int + 8) != Self::magic(),
            },
    {
        let ghost m = data@.subrange(at as int, at as int + 8);
        if data[at] == 0x4c && data[at + 1] == 0x65 && data[at + 2] == 0x61 && data[at + 3] == 0x66
            && data[at + 4] == 0x48 && data[at + 5] == 0x65 && data[at + 6] == 0x61 && data[at + 7]
            == 0x64 {
            assert(m =~= Self::magic()) by {
                reveal(LeafHeader::magic);
            }
            let ghost s = data@.subrange(at as int, at as int + 24);
            let start_idx = read_be64(data, at + 8);
            let count = read_be32(data, at + 16);
            proof {
                assert(data@.subrange(at as int + 8, at as int + 16) =~= s.subrange(8, 16));
                assert(data@.subrange(at as int + 16, at as int + 20) =~= s.subrange(16, 20));
            }
            Some(LeafHeader { start_idx, count })
        } else {
            proof {
                reveal(LeafHeader::magic);
                if m == Self::magic() {
                    assert(m[0] == 0x4c && m[1] == 0x65 && m[2] == 0x61 && m[3] == 0x66 && m[4]
                        == 0x48 && m[5] == 0x65 && m[6] == 0x61 && m[7] == 0x64);
                    assert(false);
                }
            }
            None
        }
    }
}

impl BranchHeader {
    /// On-disk bytes including the magic: 24 in all.
    pub const LEN: usize = 24;

    pub const SIZE: u64 = 24;

    #[verifier::opaque]
    pub open spec fn magic() -> Seq<u8> {
        seq![0x42u8, 0x72, 0x61, 0x6e, 0x63, 0x68, 0x48, 0x64]
    }

    #[verifier::opaque]
    pub open spec fn enc(self) -> Seq<u8> {
        Self::magic() + be64(self.prev_offset) + be64(self.end_idx)
    }

    pub open spec fn dec(s: Seq<u8>) -> Self
        recommends
            s.len() == 24,
    {
        BranchHeader {
            prev_offset: be64_val(s.subrange(8, 16)),
            end_idx: be64_val(s.subrange(16, 24)),
        }
    }

    pub proof fn lemma_enc(self)
        ensures
            self.enc().len() == 24,
            self.enc().subrange(0, 8) == Self::magic(),
            Self::dec(self.enc()) == self,
    {
        reveal(BranchHeader::magic);
        reveal(BranchHeader::enc);
        let e = self.enc();
        lemma_be64(self.prev_offset, seq![0u8, 0, 0, 0, 0, 0, 0, 0]);
        lemma_be64(self.end_idx, seq![0u8, 0, 0, 0, 0, 0, 0, 0]);
        assert(e.subrange(0, 8) =~= Self::magic());
        assert(e.subrange(8, 16) =~= be64(self.prev_offset));
        assert(e.subrange(16, 24) =~= be64(self.end_idx));
    }

    /// Appends the record's on-disk bytes to `out`.
    pub fn write_into(&self, out: &mut Vec<u8>)
        ensures
            final(out)@ == old(out)@ + self.enc(),
    {
        out.push(0x42);
        out.push(0x72);
        out.push(0x61);
        out.push(0x6e);
        out.push(0x63);
        out.push(0x68);
        out.push(0x48);
        out.push(0x64);
        push_be64(out, self.prev_offset);
        push_be64(out, self.end_idx);
        assert(final(out)@ =~= old(out)@ + self.enc()) by {
            reveal(BranchHeader::enc);
            reveal(BranchHeader::magic);
            lemma_be64(self.prev_offset, seq![0u8, 0, 0, 0, 0, 0, 0, 0]);
            lemma_be64(self.end_idx, seq![0u8, 0, 0, 0, 0, 0, 0, 0]);
        }
    }

    /// Reads the record stored at `at`, failing when the magic is absent.
    pub fn parse(data: &[u8], at: usize) -> (r: Option<Self>)
        requires
            at + 24 <= data@.len(),
        ensures
            match r {
                Some(h) => data@.subrange(at as int, at as int + 8) == Self::magic() && h
                    == Self::dec(data@.subrange(at as int, at as int + 24)),
                None => data@.subrange(at as int, at as int + 8) != Self::magic(),
            },
    {
        let ghost m = data@.subrange(at as int, at as int + 8);
        if data[at] == 0x42 && data[at + 1] == 0x72 && data[at + 2] == 0x61 && data[at + 3] == 0x6e
            && data[at + 4] == 0x63 && data[at + 5] == 0x68 && data[at + 6] == 0x48 && data[at + 7]
            == 0x64 {
            assert(m =~= Self::magic()) by {
                reveal(BranchHeader::magic);
            }
            let ghost s = data@.subrange(at as int, at as int + 24);
            let prev_offset = read_be64(data, at + 8);
            let end_idx = read_be64(data, at + 16);
            proof {
                assert(data@.subrange(at as int + 8, at as int + 16) =~= s.subrange(8, 16));
                assert(data@.subrange(at as int + 16, at as int + 24) =~= s.subrange(16, 24));
            }
            Some(BranchHeader { prev_offset, end_idx })
        } else {
            proof {
                reveal(BranchHeader::magic);
                if m == Self::magic() {
                    assert(m[0] == 0x42 && m[1] == 0x72 && m[2] == 0x61 && m[3] == 0x6e && m[4]
                        == 0x63 && m[5] == 0x68 && m[6] == 0x48 && m[7] == 0x64);
                    assert(false);
                }
            }
            None
        }
    }
}

impl IndexEntry {
    /// On-disk bytes; index entries carry no magic.
    pub const LEN: usize = 16;

    pub const SIZE: u64 = 16;

    #[verifier::opaque]
    pub open spec fn enc(self) -> Seq<u8> {
        be64(self.offset) + be64(self.start_idx)
    }

    pub open spec fn dec(s: Seq<u8>) -> Self
        recommends
            s.len() == 16,
    {
        IndexEntry { offset: be64_val(s.subrange(0, 8)), start_idx: be64_val(s.subrange(8, 16)) }
    }

    pub proof fn lemma_enc(self)
        ensures
            self.enc().len() == 16,
            Self::dec(self.enc()) == self,
    {
        reveal(IndexEntry::enc);
        let e = self.enc();
        lemma_be64(self.offset, seq![0u8, 0, 0, 0, 0, 0, 0, 0]);
        lemma_be64(self.start_idx, seq![0u8, 0, 0, 0, 0, 0, 0, 0]);
        assert(e.subrange(0, 8) =~= be64(self.offset));
        assert(e.subrange(8, 16) =~= be64(self.start_idx));
    }

    /// Appends the record's on-disk bytes to `out`.
    pub fn write_into(&self, out: &mut Vec<u8>)
        ensures
            final(out)@ == old(out)@ + self.enc(),
    {
        push_be64(out, self.offset);
        push_be64(out, self.start_idx);
        assert(final(out)@ =~= old(out)@ + self.enc()) by {
            reveal(IndexEntry::enc);
            lemma_be64(self.offset, seq![0u8, 0, 0, 0, 0, 0, 0, 0]);
            lemma_be64(self.start_idx, seq![0u8, 0, 0, 0, 0, 0, 0, 0]);
        }
    }

    /// Reads the record stored at `at`; there is no magic to check.
    pub fn parse(data: &[u8], at: usize) -> (r: Self)
        requires
            at + 16 <= data@.len(),
        ensures
            r == Self::dec(data@.subrange(at as int, at as int + 16)),
    {
        let ghost s = data@.subrange(at as int, at as int + 16);
        let n = data.len();
        assert(at + 16 <= n);
        let offset = read_be64(data, at);
        let start_idx = read_be64(data, at + 8);
        proof {
            assert(data@.subrange(at as int, at as int + 8) =~= s.subrange(0, 8));
            assert(data@.subrange(at as int + 8, at as int + 16) =~= s.subrange(8, 16));
        }
        IndexEntry { offset, start_idx }
    }
}

impl StagingHeader {
    /// On-disk bytes including the magic: 32 in all.
    pub const LEN: usize = 32;

    pub const SIZE: u64 = 32;

    #[verifier::opaque]
    pub open spec fn magic() -> Seq<u8> {
        seq![0x53u8, 0x74, 0x61, 0x67, 0x69, 0x6e, 0x67, 0x21]
    }

    #[verifier::opaque]
    pub open spec fn enc(self) -> Seq<u8> {
        Self::magic() + be64(self.last_block) + be64(self.start_idx) + be32(self.count) + be32(
            self.capacity,
        )
    }

    pub open spec fn dec(s: Seq<u8>) -> Self
        recommends
            s.len() == 32,
    {
        StagingHeader {
            last_block: be64_val(s.subrange(8, 16)),
            start_idx: be64_val(s.subrange(16, 24)),
            count: be32_val(s.subrange(24, 28)),
            capacity: be32_val(s.subrange(28, 32)),
        }
    }

    pub proof fn lemma_enc(self)
        ensures
            self.enc().len() == 32,
            self.enc().subrange(0, 8) == Self::magic(),
            Self::dec(self.enc()) == self,
    {
        reveal(StagingHeader::magic);
        reveal(StagingHeader::enc);
        let e = self.enc();
        lemma_be64(self.last_block, seq![0u8, 0, 0, 0, 0, 0, 0, 0]);
        lemma_be64(self.start_idx, seq![0u8, 0, 0, 0, 0, 0, 0, 0]);
        lemma_be32(self.count, seq![0u8, 0, 0, 0]);
        lemma_be32(self.capacity, seq![0u8, 0, 0, 0]);
        assert(e.subrange(0, 8) =~= Self::magic());
        assert(e.subrange(8, 16) =~= be64(self.last_block));
        assert(e.subrange(16, 24) =~= be64(self.start_idx));
        assert(e.subrange(24, 28) =~= be32(self.count));
        assert(e.subrange(28, 32) =~= be32(self.capacity));
    }

    /// Appends the record's on-disk bytes to `out`.
    pub fn write_into(&self, out: &mut Vec<u8>)
        ensures
            final(out)@ == old(out)@ + self.enc(),
    {
        out.push(0x53);
        out.push(0x74);
        out.push(0x61);
        out.push(0x67);
        out.push(0x69);
        out.push(0x6e);
        out.push(0x67);
        out.push(0x21);
        push_be64(out, self.last_block);
        push_be64(out, self.start_idx);
        push_be32(out, self.count);
        push_be32(out, self.capacity);
        assert(final(out)@ =~= old(out)@ + self.enc()) by {
            reveal(StagingHeader::enc);
            reveal(StagingHeader::magic);
            lemma_be64(self.last_block, seq![0u8, 0, 0, 0, 0, 0, 0, 0]);
            lemma_be64(self.start_idx, seq![0u8, 0, 0, 0, 0, 0, 0, 0]);
            lemma_be32(self.count, seq![0u8, 0, 0, 0]);
            lemma_be32(self.capacity, seq![0u8, 0, 0, 0]);
        }
    }

    /// Reads the record stored at `at`, failing when the magic is absent.
    pub fn parse(data: &[u8], at: usize) -> (r: Option<Self>)
        requires
            at + 32 <= data@.len(),
        ensures
            match r {
                Some(h) => data@.subrange(at as int, at as int + 8) == Self::magic() && h
                    == Self::dec(data@.subrange(at as int, at as int + 32)),
                None => data@.subrange(at as int, at as int + 8) != Self::magic(),
            },
    {
        let ghost m = data@.subrange(at as int, at as int + 8);
        if data[at] == 0x53 && data[at + 1] == 0x74 && data[at + 2] == 0x61 && data[at + 3] == 0x67
            && data[at + 4] == 0x69 && data[at + 5] == 0x6e && data[at + 6] == 0x67 && data[at + 7]
            == 0x21 {
            assert(m =~= Self::magic()) by {
                reveal(StagingHeader::magic);
            }
            let ghost s = data@.subrange(at as int, at as int + 32);
            let last_block = read_be64(data, at + 8);
            let start_idx = read_be64(data, at + 16);
            let count = read_be32(data, at + 24);
            let capacity = read_be32(data, at + 28);
            proof {
                assert(data@.subrange(at as int + 8, at as int + 16) =~= s.subrange(8, 16));
                assert(data@.subrange(at as int + 16, at as int + 24) =~= s.subrange(16, 24));
                assert(data@.subrange(at as int + 24, at as int + 28) =~= s.subrange(24, 28));
                assert(data@.subrange(at as int + 28, at as int + 32) =~= s.subrange(28, 32));
            }
            Some(StagingHeader { last_block, start_idx, count, capacity })
        } else {
            proof {
                reveal(StagingHeader::magic);
                if m == Self::magic() {
                    assert(m[0] == 0x53 && m[1] == 0x74 && m[2] == 0x61 && m[3] == 0x67 && m[4]
                        == 0x69 && m[5] == 0x6e && m[6] == 0x67 && m[7] == 0x21);
                    assert(false);
                }
            }
            None
        }
    }
}


impl BlockHeader {
    /// Bytes that carry the magic and decode to `h` are its encoding.
    pub proof fn lemma_bytes_enc(s: Seq<u8>, h: Self)
        requires
            s.len() == 24,
            s.subrange(0, 8) == Self::magic(),
            h == Self::dec(s),
        ensures
            h.enc() == s,
    {
        reveal(BlockHeader::enc);
        lemma_be64(h.prev_block, s.subrange(8, 16));
        lemma_be32(h.level, s.subrange(16, 20));
        lemma_be32(h.length, s.subrange(20, 24));
        assert(h.enc() =~= s);
    }
}

impl LeafHeader {
    /// Bytes that carry the magic, decode to `h`, and end in the four
    /// padding zeros are its encoding.
    pub proof fn lemma_bytes_enc(s: Seq<u8>, h: Self)
        requires
            s.len() == 24,
            s.subrange(0, 8) == Self::magic(),
            h == Self::dec(s),
            s.subrange(20, 24) == seq![0u8, 0, 0, 0],
        ensures
            h.enc() == s,
    {
        reveal(LeafHeader::enc);
        lemma_be64(h.start_idx, s.subrange(8, 16));
        lemma_be32(h.count, s.subrange(16, 20));
        assert(h.enc() =~= s);
    }
}

impl BranchHeader {
    /// Bytes that carry the magic and decode to `h` are its encoding.
    pub proof fn lemma_bytes_enc(s: Seq<u8>, h: Self)
        requires
            s.len() == 24,
            s.subrange(0, 8) == Self::magic(),
            h == Self::dec(s),
        ensures
            h.enc() == s,
    {
        reveal(BranchHeader::enc);
        lemma_be64(h.prev_offset, s.subrange(8, 16));
        lemma_be64(h.end_idx, s.subrange(16, 24));
        assert(h.enc() =~= s);
    }
}

impl IndexEntry {
    /// Bytes that decode to `e` are its encoding.
    pub proof fn lemma_bytes_enc(s: Seq<u8>, e: Self)
        requires
            s.len() == 16,
            e == Self::dec(s),
        ensures
            e.enc() == s,
    {
        reveal(IndexEntry::enc);
        lemma_be64(e.offset, s.subrange(0, 8));
        lemma_be64(e.start_idx, s.subrange(8, 16));
        assert(e.enc() =~= s);
    }
}

impl StagingHeader {
    /// Bytes that carry the magic and decode to `h` are its encoding.
    pub proof fn lemma_bytes_enc(s: Seq<u8>, h: Self)
        requires
            s.len() == 32,
            s.subrange(0, 8) == Self::magic(),
            h == Self::dec(s),
        ensures
            h.enc() == s,
    {
        reveal(StagingHeader::enc);
        lemma_be64(h.last_block, s.subrange(8, 16));
        lemma_be64(h.start_idx, s.subrange(16, 24));
        lemma_be32(h.count, s.subrange(24, 28));
        lemma_be32(h.capacity, s.subrange(28, 32));
        assert(h.enc() =~= s);
    }
}
} // verus!
