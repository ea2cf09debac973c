//! Range retrieval: descending the reverse-linked index to the leaves that
//! cover a requested interval of event indices.

use vstd::prelude::*;
use crate::be::{be32, be32_val, lemma_be32, read_be32};
use crate::cache::Cache;
use crate::codec::zstd_decompress;
use crate::error::Error;
use crate::log::{slot_bytes, EventFile};
use crate::model::{
    blocks_wf, block_pos, branch_wf, concat_events, find_block, fin_events, kids,
    lemma_block_bytes, lemma_find_block_facts, lemma_kids_complete, lemma_kids_range,
    lemma_kids_sorted_le, lemma_kids_span_chain, lemma_leaf_events_at, lemma_offsum_monotone,
    lemma_prev_ge_facts, lemma_round8, lemma_span_nonempty, lemma_stream_enc_len, lemma_wf_all,
    lemma_wf_at, offsum, payload_events, payload_jump, payload_wf, prev_ge, stream_enc, walk_next,
    BlockBody, BlockM,
};
use crate::records::{BlockHeader, BranchHeader, IndexEntry, LeafHeader};

verus! {

/// One end of a requested event-index range.
#[derive(Debug, Clone, Copy, PartialEq, Eq)]
pub enum IdxBound {
    Included(u64),
    Excluded(u64),
    Unbounded,
}

/// What kind of node a block level denotes.
#[derive(Debug, Clone, Copy)]
pub enum NodeType {
    Branch,
    Leaf,
}

impl NodeType {
    /// Level 0 blocks are leaves; everything above is a branch.
    pub fn from_level(level: u32) -> (r: Self)
        ensures
            level == 0 ==> r is Leaf,
            level != 0 ==> r is Branch,
    {
        if level == 0 {
            NodeType::Leaf
        } else {
            NodeType::Branch
        }
    }
}

/// The inclusive bounds that a bound pair normalizes to; an empty range
/// becomes the marker pair `(1, 0)`.
pub open spec fn norm_lo(start: IdxBound, end: IdxBound) -> int {
    if start == IdxBound::Excluded(u64::MAX) || end == IdxBound::Excluded(0u64) {
        1
    } else {
        match start {
            IdxBound::Included(i) => i as int,
            IdxBound::Excluded(e) => e + 1,
            IdxBound::Unbounded => 0,
        }
    }
}

pub open spec fn norm_hi(start: IdxBound, end: IdxBound) -> int {
    if start == IdxBound::Excluded(u64::MAX) || end == IdxBound::Excluded(0u64) {
        0
    } else {
        match end {
            IdxBound::Included(i) => i as int,
            IdxBound::Excluded(e) => e - 1,
            IdxBound::Unbounded => u64::MAX as int,
        }
    }
}

/// A view into one decompressed leaf (or the staging area), restricted to
/// the event positions `start_idx ..= end_idx`.
pub struct LeafSlice {
    /// The decompressed payload: a jump table, then event bytes.
    pub bytes: Vec<u8>,
    /// First event position to deliver.
    pub start_idx: u32,
    /// Last event position to deliver.
    pub end_idx: u32,
    /// Where the event bytes start inside `bytes`.
    pub base: usize,
}

/// The jump-table value at slot `p` of a slice's bytes.
pub open spec fn slice_jump(b: Seq<u8>, p: int) -> int {
    be32_val(b.subrange(4 * p, 4 * p + 4)) as int
}

impl LeafSlice {
    /// The slice's positions and offsets all land inside its bytes.
    pub open spec fn wf(self) -> bool {
        &&& self.start_idx <= self.end_idx
        &&& 4 * (self.end_idx + 2) <= self.base <= self.bytes@.len()
        &&& (forall|p: int| self.start_idx <= p <= self.end_idx ==> #[trigger] slice_jump(
            self.bytes@,
            p,
        ) <= slice_jump(self.bytes@, p + 1))
        &&& self.base + slice_jump(self.bytes@, self.end_idx + 1) <= self.bytes@.len()
    }

    /// The events the slice delivers.
    pub open spec fn events_spec(self) -> Seq<Seq<u8>> {
        Seq::new(
            (self.end_idx - self.start_idx + 1) as nat,
            |k: int|
                self.bytes@.subrange(
                    self.base + slice_jump(self.bytes@, self.start_idx + k),
                    self.base + slice_jump(self.bytes@, self.start_idx + k + 1),
                ),
        )
    }

    /// Wraps decompressed bytes as a slice over `start_idx ..= end_idx`.
    pub fn new(bytes: Vec<u8>, start_idx: u64, end_idx: u64, base: usize) -> (r: Self)
        requires
            start_idx <= u32::MAX,
            end_idx <= u32::MAX,
        ensures
            r == (LeafSlice {
                bytes,
                start_idx: start_idx as u32,
                end_idx: end_idx as u32,
                base,
            }),
    {
        LeafSlice { bytes, start_idx: start_idx as u32, end_idx: end_idx as u32, base }
    }

    /// How many events the slice delivers.
    pub fn count(&self) -> (r: usize)
        requires
            self.wf(),
        ensures
            r == self.events_spec().len(),
    {
        (self.end_idx - self.start_idx) as usize + 1
    }

    /// Copies the delivered events out, in order.
    #[verifier::rlimit(100)]
    #[verifier::spinoff_prover]
    pub fn events(&self) -> (r: Vec<Vec<u8>>)
        requires
            self.wf(),
        ensures
            r@.len() == self.events_spec().len(),
            forall|k: int| 0 <= k < r@.len() ==> (#[trigger] r@[k])@ == self.events_spec()[k],
    {
        let mut r: Vec<Vec<u8>> = Vec::new();
        let n = (self.end_idx - self.start_idx) as usize + 1;
        let mut k: usize = 0;
        while k < n
            invariant
                self.wf(),
                0 <= k <= n,
                n == self.end_idx - self.start_idx + 1,
                r@.len() == k,
                forall|u: int| 0 <= u < k ==> (#[trigger] r@[u])@ == self.events_spec()[u],
            decreases n - k,
        {
            let p = self.start_idx as usize + k;
            proof {
                assert(slice_jump(self.bytes@, self.start_idx + k) <= slice_jump(
                    self.bytes@,
                    self.start_idx + k + 1,
                ));
                lemma_slice_jump_bound(self.bytes@, self.start_idx as int + k, self.end_idx + 1);
                lemma_slice_jump_bound(
                    self.bytes@,
                    self.start_idx as int + k + 1,
                    self.end_idx + 1,
                );
            }
            let from = read_be32(self.bytes.as_slice(), 4 * p);
            let to = read_be32(self.bytes.as_slice(), 4 * p + 4);
            proof {
                assert(self.bytes@.subrange(4 * p as int, 4 * p as int + 4) =~= self.bytes@.subrange(
                    4 * (self.start_idx + k),
                    4 * (self.start_idx + k) + 4,
                ));
                assert(self.bytes@.subrange(4 * p as int + 4, 4 * p as int + 8)
                    =~= self.bytes@.subrange(
                    4 * (self.start_idx + k + 1),
                    4 * (self.start_idx + k + 1) + 4,
                ));
            }
            let bl = self.bytes.len();
            proof {
                assert(self.base + to <= bl);
                assert(self.base + from <= bl);
            }
            let mut ev: Vec<u8> = Vec::new();
            ev.extend_from_slice(
                &self.bytes.as_slice()[self.base + from as usize..self.base + to as usize],
            );
            proof {
                assert(ev@ =~= self.events_spec()[k as int]);
            }
            r.push(ev);
            k += 1;
        }
        r
    }
}

/// Monotone jump values stay inside the slice bytes.
proof fn lemma_slice_jump_bound(b: Seq<u8>, p: int, top: int)
    requires
        p <= top,
        forall|q: int| p <= q < top ==> #[trigger] slice_jump(b, q) <= slice_jump(b, q + 1),
    ensures
        slice_jump(b, p) <= slice_jump(b, top),
    decreases top - p,
{
    if p < top {
        lemma_slice_jump_bound(b, p + 1, top);
    }
}


/// The events that a list of slices delivers, in order.
pub open spec fn flatten_slices(v: Seq<LeafSlice>) -> Seq<Seq<u8>>
    decreases v.len(),
{
    if v.len() == 0 {
        Seq::empty()
    } else {
        flatten_slices(v.drop_last()) + v.last().events_spec()
    }
}

impl<C: Cache> EventFile<C> {
    /// The events with indices in `[lo, hi]`, clipped to what the log holds.
    pub open spec fn range_events(self, lo: int, hi: int) -> Seq<Seq<u8>> {
        let n = self.events().len() as int;
        if lo > hi || lo >= n {
            Seq::empty()
        } else {
            self.events().subrange(
                lo,
                if hi + 1 <= n {
                    hi + 1
                } else {
                    n
                },
            )
        }
    }

    /// Every leaf whose span meets `[lo, hi]` decompresses cleanly.
    pub open spec fn leaves_ok(self, lo: int, hi: int) -> bool {
        forall|i: int|
            0 <= i < self.blocks@.len() && (#[trigger] self.blocks@[i]).is_leaf()
                && self.blocks@[i].span_lo() <= hi && lo < self.blocks@[i].span_hi()
                ==> self.blocks@[i].good()
    }

    /// Whether this log already put the leaf at `off` into the cache.
    fn cached_contains(&self, off: u64) -> (r: bool)
        ensures
            r == self.cached@.contains(off),
    {
        let n = self.cached.len();
        let mut k: usize = 0;
        while k < n
            invariant
                0 <= k <= n,
                n == self.cached@.len(),
                forall|u: int| 0 <= u < k ==> self.cached@[u] != off,
            decreases n - k,
        {
            if self.cached[k] == off {
                return true;
            }
            k += 1;
        }
        proof {
            assert(!self.cached@.contains(off));
        }
        false
    }

    /// Reads child pointer `t` of the branch block `i` at `off`.
    #[verifier::rlimit(100)]
    #[verifier::spinoff_prover]
    fn read_index_entry(&self, off: u64, t: usize, Ghost(i): Ghost<int>) -> (r: IndexEntry)
        requires
            self.stream_inv(),
            0 <= i < self.blocks@.len(),
            self.blocks@[i].pos == off,
            !self.blocks@[i].is_leaf(),
            t < 16,
        ensures
            self.blocks@[i].body matches BlockBody::Branch { entries, .. } && r == entries[
                t as int
            ],
    {
        let ghost bs = self.blocks@;
        proof {
            lemma_wf_all(bs);
            lemma_wf_at(bs, i);
            lemma_block_bytes(bs, i);
            crate::model::lemma_block_pos_align(bs, i);
            lemma_stream_enc_len(bs);
            lemma_round8(bs[i].length as int);
        }
        let s = match self.file.stream_read(off + 48, 280 - 24) {
            Ok(s) => s,
            Err(_) => {
                proof {
                    assert(false);
                }
                return IndexEntry { offset: 0, start_idx: 0 };
            },
        };
        let e = IndexEntry::parse(s, 16 * t);
        proof {
            match bs[i].body {
                BlockBody::Branch { entries, .. } => {
                    assert(s@.subrange(16 * t as int, 16 * t as int + 16)
                        =~= self.file.stream().subrange(
                        bs[i].pos + 48 + 16 * (t as int),
                        bs[i].pos + 48 + 16 * (t as int) + 16,
                    ));
                    entries[t as int].lemma_enc();
                },
                BlockBody::Leaf { .. } => {},
            }
        }
        e
    }

    /// Decompresses the leaf block `i` at `off`, consulting the cache first
    /// and filling it on a miss.  Fails exactly when the stored bytes are
    /// not a well-formed compressed payload.
    #[verifier::rlimit(100)]
    #[verifier::spinoff_prover]
    fn decompress_leaf(&mut self, off: u64, prio: bool, Ghost(i): Ghost<int>) -> (r: Result<
        Vec<u8>,
        Error,
    >)
        requires
            old(self).inv(),
            0 <= i < old(self).blocks@.len(),
            old(self).blocks@[i].pos == off,
            old(self).blocks@[i].is_leaf(),
        ensures
            final(self).inv(),
            final(self).blocks == old(self).blocks,
            final(self).staged == old(self).staged,
            final(self).file == old(self).file,
            final(self).id == old(self).id,
            final(self).block_event_limit == old(self).block_event_limit,
            final(self).compression_threshold == old(self).compression_threshold,
            match r {
                Ok(v) => old(self).blocks@[i].good() && v@ == old(self).blocks@[i].payload(),
                Err(e) => !old(self).blocks@[i].good() && (e == Error::Io("decompressing")
                    || e matches Error::DataCorruption { .. }),
            },
    {
        let ghost bs = self.blocks@;
        let hdr = self.read_block_header(off, Ghost(i));
        let lh = self.read_leaf_header(off, Ghost(i));
        proof {
            lemma_wf_all(bs);
            lemma_wf_at(bs, i);
        }
        let key = (self.id, off);
        if self.cached_contains(off) {
            let got = self.cache.get(key);
            proof {
                let k = choose|k: int| 0 <= k < self.cached@.len() && self.cached@[k] == off;
                assert(self.cached_pl@.contains_key(off));
                let f = find_block(bs, off);
                crate::model::lemma_find_block_complete(bs, i);
                lemma_find_block_facts(bs, off);
                lemma_wf_at(bs, f);
                lemma_wf_at(bs, i);
                if f != i {
                    if f < i {
                        crate::model::lemma_block_pos_mono(bs, f, i);
                        crate::model::lemma_enc_len(bs[f]);
                    } else {
                        crate::model::lemma_block_pos_mono(bs, i, f);
                        crate::model::lemma_enc_len(bs[i]);
                    }
                    assert(false);
                }
            }
            match got {
                Some(v) => {
                    return Ok(v);
                },
                None => {},
            }
        }
        // read the compressed bytes and decompress them
        proof {
            lemma_block_bytes(bs, i);
            crate::model::lemma_block_pos_align(bs, i);
            lemma_stream_enc_len(bs);
            lemma_round8(bs[i].length as int);
        }
        let clen = (hdr.length - 24) as u64;
        let cb = match self.file.stream_read(off + 48, clen) {
            Ok(cb) => cb,
            Err(_) => {
                proof {
                    assert(false);
                }
                return Err(Error::numeric_overflow("unreachable"));
            },
        };
        let ghost cbytes = match bs[i].body {
            BlockBody::Leaf { cbytes, .. } => cbytes,
            BlockBody::Branch { .. } => Seq::empty(),
        };
        proof {
            assert(cb@ == cbytes);
        }
        let v = match zstd_decompress(cb) {
            Ok(v) => v,
            Err(e) => {
                return Err(e);
            },
        };
        if !check_payload(&v, lh.count) {
            return Err(
                Error::data_corruption("decompressed leaf malformed", v.len() as u64, lh.count as u64),
            );
        }
        let copy = clone_bytes(&v);
        let ghost copyv = copy@;
        let ghost prec = self.cache.contents();
        proof {
            assert(copyv == v@);
            assert(forall|k: (u32, u64)| #[trigger] prec.dom().contains(k) ==> old(
                self,
            ).cache.contents().dom().contains(k) && prec[k] == old(self).cache.contents()[k]);
        }
        self.cache.put(key, copy, prio);
        self.cached.push(off);
        let ghost oldpl = self.cached_pl@;
        self.cached_pl = Ghost(self.cached_pl@.insert(off, v@));
        proof {
            let newpl = self.cached_pl@;
            assert forall|o2: u64| newpl.contains_key(o2) implies {
                let f = find_block(bs, o2);
                &&& 0 <= f < bs.len()
                &&& bs[f].is_leaf()
                &&& bs[f].good()
                &&& newpl[o2] == bs[f].payload()
            } by {
                if o2 == off {
                    let f = find_block(bs, off);
                    crate::model::lemma_find_block_complete(bs, i);
                    lemma_find_block_facts(bs, off);
                    lemma_wf_at(bs, f);
                    lemma_wf_at(bs, i);
                    if f != i {
                        lemma_wf_all(bs);
                        if f < i {
                            crate::model::lemma_block_pos_mono(bs, f, i);
                            crate::model::lemma_enc_len(bs[f]);
                        } else {
                            crate::model::lemma_block_pos_mono(bs, i, f);
                            crate::model::lemma_enc_len(bs[i]);
                        }
                        assert(false);
                    }
                }
            }
            assert forall|o2: u64| #[trigger] newpl.contains_key(o2) implies (
            self.cache.contents().contains_key((self.id, o2))
                ==> self.cache.contents()[(self.id, o2)] == newpl[o2]) by {
                let k2 = (self.id, o2);
                if self.cache.contents().contains_key(k2) {
                    assert(self.cache.contents().dom().contains(k2));
                    if o2 == off {
                        assert(self.cache.contents()[k2] == copyv);
                    } else {
                        assert(k2 != (self.id, off));
                        assert(prec.dom().contains(k2) && prec[k2] == self.cache.contents()[k2]);
                        assert(old(self).cache.contents().dom().contains(k2) && prec[k2] == old(
                            self,
                        ).cache.contents()[k2]);
                        assert(oldpl.contains_key(o2));
                        assert(old(self).cache.contents()[k2] == oldpl[o2]);
                    }
                }
            }
            assert(forall|k: int| 0 <= k < self.cached@.len() ==> newpl.contains_key(
                #[trigger] self.cached@[k],
            ));
            assert forall|o2: u64| #[trigger] newpl.contains_key(o2) implies self.cached@.contains(
                o2,
            ) by {
                if o2 == off {
                    assert(self.cached@[self.cached@.len() - 1] == off);
                } else {
                    let k = choose|k: int|
                        0 <= k < old(self).cached@.len() && old(self).cached@[k] == o2;
                    assert(self.cached@[k] == o2);
                }
            }
        }
        Ok(v)
    }
}

/// Copies a byte vector.
fn clone_bytes(v: &Vec<u8>) -> (r: Vec<u8>)
    ensures
        r@ == v@,
{
    let mut r: Vec<u8> = Vec::new();
    r.extend_from_slice(v.as_slice());
    proof {
        assert(r@ =~= v@);
    }
    r
}

/// Checks that decompressed bytes form a well-formed leaf payload for
/// `count` events: a zero-based monotone jump table whose last entry matches
/// the byte length.
fn check_payload(v: &Vec<u8>, count: u32) -> (r: bool)
    ensures
        r == payload_wf(v@, count as int),
{
    let n = v.len();
    if (n as u64) < 4 * (count as u64) + 4 {
        proof {
            assert(!payload_wf(v@, count as int)) by {
                if payload_wf(v@, count as int) {
                    assert(payload_jump(v@, count as int) >= 0);
                }
            }
        }
        return false;
    }
    let first = read_be32(v.as_slice(), 0);
    if first != 0 {
        return false;
    }
    proof {
        assert(4 * (count as int) + 4 <= v@.len());
    }
    let last = read_be32(v.as_slice(), 4 * (count as usize));
    if (n as u64) != 4 * (count as u64) + 4 + (last as u64) {
        proof {
            assert(v@.subrange(4 * (count as int), 4 * (count as int) + 4) == v@.subrange(
                4 * (count as int),
                4 * (count as int) + 4,
            ));
        }
        return false;
    }
    let mut k: u32 = 0;
    let mut prev: u32 = first;
    while k < count
        invariant
            0 <= k <= count,
            v@.len() == 4 * (count as int) + 4 + payload_jump(v@, count as int),
            v@.len() <= usize::MAX,
            prev == payload_jump(v@, k as int),
            forall|q: int| 0 <= q < k ==> #[trigger] payload_jump(v@, q) <= payload_jump(v@, q + 1),
        decreases count - k,
    {
        proof {
            assert(payload_jump(v@, count as int) >= 0);
            assert(4 * (k as int) + 8 <= v@.len());
        }
        let next = read_be32(v.as_slice(), 4 * (k as usize) + 4);
        if next < prev {
            proof {
                assert(payload_jump(v@, k as int) > payload_jump(v@, k as int + 1));
            }
            return false;
        }
        proof {
            assert(v@.subrange(4 * (k as int) + 4, 4 * (k as int) + 8) =~= v@.subrange(
                4 * (k as int + 1),
                4 * (k as int + 1) + 4,
            ));
        }
        prev = next;
        k += 1;
    }
    proof {
        assert(v@.subrange(0, 4) =~= v@.subrange(4 * 0int, 4 * 0int + 4));
        assert(payload_wf(v@, count as int));
    }
    true
}


impl<C: Cache> EventFile<C> {
    /// Reads one block's span and walk target: the covered index interval
    /// and the offset the reverse search continues at.
    #[verifier::rlimit(100)]
    #[verifier::spinoff_prover]
    fn read_block_info(&self, off: u64, Ghost(j): Ghost<int>) -> (r: (BlockHeader, u64, u64, u64))
        requires
            self.stream_inv(),
            0 <= j < self.blocks@.len(),
            self.blocks@[j].pos == off,
        ensures
            ({
                let bs = self.blocks@;
                let w = walk_next(bs, j);
                &&& r.0.level == bs[j].level
                &&& r.1 as int == bs[j].span_lo()
                &&& r.2 as int == bs[j].span_hi()
                &&& -1 <= w < j
                &&& (w >= 0 ==> r.3 == bs[w].pos && r.3 != u64::MAX)
                &&& (w == -1 ==> r.3 == u64::MAX)
            }),
    {
        let ghost bs = self.blocks@;
        let h = self.read_block_header(off, Ghost(j));
        proof {
            lemma_wf_at(bs, j);
            lemma_prev_ge_facts(bs, j, bs[j].level as int);
        }
        let r = if h.level == 0 {
            let lh = self.read_leaf_header(off, Ghost(j));
            (h, lh.start_idx, lh.start_idx + lh.count as u64, h.prev_block)
        } else {
            let (bh, e0) = self.read_branch_info(off, Ghost(j));
            proof {
                assert(branch_wf(bs, j));
            }
            (h, e0.start_idx, bh.end_idx, bh.prev_offset)
        };
        proof {
            let w = walk_next(bs, j);
            if w >= 0 {
                lemma_wf_all(bs);
                lemma_wf_at(bs, w);
                crate::model::lemma_block_pos_mono(bs, w, bs.len() as int);
                crate::model::lemma_enc_len(bs[w]);
                lemma_stream_enc_len(bs);
            }
        }
        r
    }

    /// Yields the events with indices in the requested range, as one slice
    /// per touched leaf (and one for the staging area).
    ///
    /// The search iterator walks the reverse chain to collect the top-level
    /// blocks whose spans meet the range; each is then descended through its
    /// child pointers down to the leaves, which are decompressed through the
    /// cache.  Fails exactly when a leaf in the range does not decompress to
    /// a well-formed payload.
    #[verifier::rlimit(100)]
    #[verifier::spinoff_prover]
    pub fn iter(&mut self, start: IdxBound, end: IdxBound) -> (r: Result<Vec<LeafSlice>, Error>)
        requires
            old(self).inv(),
        ensures
            final(self).inv(),
            final(self).blocks == old(self).blocks,
            final(self).staged == old(self).staged,
            final(self).file == old(self).file,
            final(self).id == old(self).id,
            final(self).block_event_limit == old(self).block_event_limit,
            final(self).compression_threshold == old(self).compression_threshold,
            match r {
                Ok(v) => (forall|k: int| 0 <= k < v@.len() ==> (#[trigger] v@[k]).wf())
                    && flatten_slices(v@) == old(self).range_events(
                    norm_lo(start, end),
                    norm_hi(start, end),
                ),
                Err(e) => norm_lo(start, end) <= norm_hi(start, end) && !old(self).leaves_ok(
                    norm_lo(start, end),
                    norm_hi(start, end),
                ) && (e == Error::Io("decompressing") || e matches Error::DataCorruption { .. }),
            },
            old(self).leaves_good() ==> r is Ok,
    {
        let ghost bs = self.blocks@;
        let ghost nb = bs.len() as int;
        let ghost fcnt = fin_events(bs).len() as int;
        let ghost nev = self.events().len() as int;
        // normalize the bounds to an inclusive pair
        let marker = match start {
            IdxBound::Excluded(e) => e == u64::MAX,
            _ => false,
        } || match end {
            IdxBound::Excluded(e) => e == 0,
            _ => false,
        };
        let lo: u64;
        let hi: u64;
        if marker {
            lo = 1;
            hi = 0;
        } else {
            lo = match start {
                IdxBound::Included(i) => i,
                IdxBound::Excluded(e) => e + 1,
                IdxBound::Unbounded => 0,
            };
            hi = match end {
                IdxBound::Included(i) => i,
                IdxBound::Excluded(e) => e - 1,
                IdxBound::Unbounded => u64::MAX,
            };
        }
        proof {
            assert(lo as int == norm_lo(start, end) && hi as int == norm_hi(start, end));
        }
        let mut out: Vec<LeafSlice> = Vec::new();
        if lo > hi {
            proof {
                assert(flatten_slices(out@) =~= old(self).range_events(lo as int, hi as int));
            }
            return Ok(out);
        }
        let sh = self.staging_header();
        // collect the top-level blocks whose spans meet the range
        let mut todo: Vec<u64> = Vec::new();
        let ghost mut tidx: Seq<int> = Seq::empty();
        let mut off = sh.last_block;
        let ghost mut j: int = nb - 1;
        proof {
            if nb > 0 {
                lemma_wf_at(bs, nb - 1);
            }
        }
        loop
            invariant
                self.inv(),
                *self == *old(self),
                bs == self.blocks@,
                nb == bs.len(),
                fcnt == fin_events(bs).len(),
                lo <= hi,
                -1 <= j < nb,
                j >= 0 ==> off == bs[j].pos,
                j == -1 ==> off == u64::MAX,
                todo@.len() == tidx.len(),
                forall|k: int| 0 <= k < tidx.len() ==> j < #[trigger] tidx[k] < nb
                    && bs[tidx[k]].pos == todo@[k] && bs[tidx[k]].span_lo() <= hi && lo < bs[
                    tidx[k]
                ].span_hi(),
                forall|k: int| 0 <= k < tidx.len() - 1 ==> bs[#[trigger] tidx[k + 1]].span_hi()
                    == bs[tidx[k]].span_lo(),
                tidx.len() > 0 ==> bs[tidx[0]].span_hi() >= (if hi + 1 <= fcnt {
                    hi + 1
                } else {
                    fcnt
                }),
                tidx.len() > 0 ==> bs[tidx[tidx.len() - 1]].span_lo() == (if j == -1 {
                    0int
                } else {
                    bs[j].span_hi()
                }),
                tidx.len() == 0 ==> ((j == -1 && nb == 0) || (j >= 0 && bs[j].span_hi() >= (
                if hi + 1 <= fcnt {
                    hi + 1
                } else {
                    fcnt
                }))),
            ensures
                self.inv(),
                *self == *old(self),
                todo@.len() == tidx.len(),
                forall|k: int| 0 <= k < tidx.len() ==> 0 <= #[trigger] tidx[k] < nb
                    && bs[tidx[k]].pos == todo@[k] && bs[tidx[k]].span_lo() <= hi && lo < bs[
                    tidx[k]
                ].span_hi(),
                forall|k: int| 0 <= k < tidx.len() - 1 ==> bs[#[trigger] tidx[k + 1]].span_hi()
                    == bs[tidx[k]].span_lo(),
                tidx.len() > 0 ==> bs[tidx[0]].span_hi() >= (if hi + 1 <= fcnt {
                    hi + 1
                } else {
                    fcnt
                }),
                tidx.len() > 0 ==> bs[tidx[tidx.len() - 1]].span_lo() <= lo,
                tidx.len() == 0 ==> fcnt <= lo,
            decreases j + 1,
        {
            if off == u64::MAX {
                proof {
                    if j >= 0 {
                        lemma_wf_all(bs);
                        lemma_wf_at(bs, j);
                        crate::model::lemma_block_pos_mono(bs, j, nb);
                        crate::model::lemma_enc_len(bs[j]);
                        lemma_stream_enc_len(bs);
                        assert(false);
                    }
                    if tidx.len() == 0 {
                        if nb > 0 {
                            assert(false);
                        }
                    }
                }
                break ;
            }
            proof {
                assert(j >= 0);
                lemma_span_nonempty(bs, j);
            }
            let info = self.read_block_info(off, Ghost(j));
            if info.2 <= lo {
                proof {
                    if tidx.len() == 0 {
                        assert(bs[j].span_hi() >= (if hi + 1 <= fcnt {
                            hi + 1
                        } else {
                            fcnt
                        }));
                        assert(fcnt <= lo);
                    }
                }
                break ;
            }
            let ghost jj = j;
            if info.1 <= hi {
                todo.push(off);
                proof {
                    tidx = tidx.push(jj);
                }
            } else {
                proof {
                    if tidx.len() > 0 {
                        assert(bs[tidx[tidx.len() - 1]].span_lo() == bs[jj].span_hi());
                        assert(bs[tidx[tidx.len() - 1]].span_lo() <= hi);
                        assert(false);
                    }
                }
            }
            proof {
                lemma_wf_at(bs, jj);
                j = walk_next(bs, jj);
                if j == -1 && info.1 > hi {
                    assert(bs[jj].span_lo() == 0);
                    assert(false);
                }
            }
            off = info.3;
        }
        // deliver, oldest root first, descending each to its leaves
        let mut cur: u64 = lo;
        loop
            invariant_except_break
                bs == self.blocks@,
                nb == bs.len(),
                fcnt == fin_events(bs).len(),
                nev == self.events().len(),
                sh == self.staging_header_spec(),
                lo as int == norm_lo(start, end),
                hi as int == norm_hi(start, end),
                lo <= hi,
                lo <= cur,
                todo@.len() == tidx.len(),
                forall|k: int| 0 <= k < tidx.len() ==> 0 <= #[trigger] tidx[k] < nb
                    && bs[tidx[k]].pos == todo@[k] && bs[tidx[k]].span_lo() <= hi && lo < bs[
                    tidx[k]
                ].span_hi(),
                forall|k: int| 0 <= k < tidx.len() - 1 ==> bs[#[trigger] tidx[k + 1]].span_hi()
                    == bs[tidx[k]].span_lo(),
                tidx.len() > 0 ==> bs[tidx[0]].span_hi() >= (if hi + 1 <= fcnt {
                    hi + 1
                } else {
                    fcnt
                }),
                tidx.len() > 0 ==> bs[tidx[tidx.len() - 1]].span_lo() <= cur && (cur <= bs[
                    tidx[tidx.len() - 1]
                ].span_hi() || cur > hi),
                tidx.len() == 0 ==> cur >= (if hi + 1 <= fcnt {
                    hi + 1
                } else {
                    fcnt
                }),
                flatten_slices(out@) == old(self).range_events(
                    lo as int,
                    iter_done(lo as int, hi as int, nev, cur as int) - 1,
                ),
            invariant
                self.inv(),
                self.blocks == old(self).blocks,
                self.staged == old(self).staged,
                self.file == old(self).file,
                self.id == old(self).id,
                self.block_event_limit == old(self).block_event_limit,
                self.compression_threshold == old(self).compression_threshold,
                forall|k: int| 0 <= k < out@.len() ==> (#[trigger] out@[k]).wf(),
            ensures
                self.inv(),
                self.blocks == old(self).blocks,
                self.staged == old(self).staged,
                self.file == old(self).file,
                self.id == old(self).id,
                self.block_event_limit == old(self).block_event_limit,
                self.compression_threshold == old(self).compression_threshold,
                lo as int == norm_lo(start, end),
                hi as int == norm_hi(start, end),
                forall|k: int| 0 <= k < out@.len() ==> (#[trigger] out@[k]).wf(),
                flatten_slices(out@) == old(self).range_events(lo as int, hi as int),
            decreases todo@.len(), (if tidx.len() == 0 {
                0int
            } else if cur <= bs[tidx[tidx.len() - 1]].span_hi() {
                bs[tidx[tidx.len() - 1]].span_hi() - cur
            } else {
                0int
            }),
        {
            let tlen = todo.len();
            if tlen == 0 {
                // the rest lies in the staging area
                if cur > hi {
                    proof {
                        lemma_iter_done_final(lo as int, hi as int, nev, cur as int);
                        lemma_range_events_end(*old(self), lo as int, hi as int);
                    }
                    break ;
                }
                let head_start = sh.start_idx;
                let head_count = sh.count as u64;
                proof {
                    assert(cur >= fcnt);
                    assert(head_start == fcnt);
                }
                let start_rel = cur - head_start;
                if start_rel >= head_count {
                    proof {
                        assert(cur >= nev);
                        lemma_iter_done_final(lo as int, hi as int, nev, cur as int);
                        lemma_range_events_end(*old(self), lo as int, hi as int);
                    }
                    break ;
                }
                let end_rel = if hi - head_start < head_count - 1 {
                    hi - head_start
                } else {
                    head_count - 1
                };
                let sl = self.file.staging_len();
                let sbytes = match self.file.staging_read(32, sl) {
                    Ok(sb) => sb,
                    Err(_) => {
                        proof {
                            crate::model::lemma_offsum_monotone(
                                self.staged@.events,
                                0,
                                self.staged@.events.len() as int,
                            );
                            assert(false);
                        }
                        return Err(Error::numeric_overflow("unreachable"));
                    },
                };
                let bytes = clone_slice(sbytes);
                let base = 4 * (self.block_event_limit as usize);
                let slice = LeafSlice::new(bytes, start_rel, end_rel, base);
                proof {
                    self.lemma_staging_slice(slice, lo as int, hi as int, cur as int);
                    lemma_flatten_push(out@, slice);
                    assert(iter_done(lo as int, hi as int, nev, cur as int) == cur);
                    assert(flatten_slices(out@.push(slice)) =~= old(self).events().subrange(
                        lo as int,
                        if hi + 1 <= nev {
                            hi + 1
                        } else {
                            nev
                        },
                    ));
                }
                out.push(slice);
                cur = if hi == u64::MAX {
                    u64::MAX
                } else {
                    hi + 1
                };
                proof {
                    lemma_iter_done_final(lo as int, hi as int, nev, cur as int);
                    lemma_range_events_end(*old(self), lo as int, hi as int);
                }
                break ;
            }
            let top_off = todo[tlen - 1];
            let ghost top_idx = tidx[tidx.len() - 1];
            // descend from the top of the stack to the leaf holding `cur`
            let mut offd = top_off;
            let ghost mut d: int = top_idx;
            proof {
                lemma_wf_at(bs, d);
                lemma_span_nonempty(bs, d);
            }
            let info = self.read_block_info(offd, Ghost(d));
            if cur >= info.2 || cur > hi {
                // this root is exhausted or past the range
                todo.pop();
                proof {
                    let popped = tidx[tidx.len() - 1];
                    if tidx.len() >= 2 {
                        let k0 = tidx.len() - 2;
                        assert(bs[tidx[k0 + 1]].span_hi() == bs[tidx[k0]].span_lo());
                        assert(0 <= tidx[k0] < nb && bs[tidx[k0]].span_lo() <= hi && lo < bs[
                            tidx[k0]
                        ].span_hi());
                        assert(bs[tidx[k0]].span_lo() <= cur) by {
                            if cur <= hi {
                                assert(cur >= bs[popped].span_hi());
                            }
                        }
                        if cur <= hi {
                            lemma_span_nonempty(bs, tidx[k0]);
                            assert(cur <= bs[popped].span_hi());
                            assert(cur <= bs[tidx[k0]].span_lo());
                        }
                    }
                    tidx = tidx.drop_last();
                }
                continue ;
            }
            let mut hd = info.0;
            proof {
                assert(bs[d].span_lo() <= cur < bs[d].span_hi());
                assert(cur <= hi);
            }
            while hd.level > 0
                invariant
                    self.inv(),
                    self.blocks == old(self).blocks,
                    self.staged == old(self).staged,
                    self.file == old(self).file,
                    bs == self.blocks@,
                    nb == bs.len(),
                    0 <= d < nb,
                    bs[d].pos == offd,
                    hd.level == bs[d].level,
                    bs[d].span_lo() <= cur < bs[d].span_hi(),
                    bs[d].span_hi() <= bs[top_idx].span_hi(),
                    cur <= hi,
                decreases hd.level,
            {
                let (bh, e0) = self.read_branch_info(offd, Ghost(d));
                let ghost lvl = bs[d].level as int;
                let ghost q = prev_ge(bs, d, lvl);
                let ghost ks = kids(bs, q + 1, d, lvl - 1);
                proof {
                    lemma_wf_at(bs, d);
                    assert(branch_wf(bs, d));
                    lemma_prev_ge_facts(bs, d, lvl);
                    lemma_kids_range(bs, q + 1, d, lvl - 1);
                    lemma_kids_span_chain(bs, q, d, lvl - 1);
                    // the last kid is the block just below the branch
                    lemma_kids_complete(bs, q + 1, d, lvl - 1);
                    assert(ks.contains(d - 1));
                    let u = choose|u: int| 0 <= u < ks.len() && ks[u] == d - 1;
                    if u < ks.len() - 1 {
                        lemma_kids_sorted_le(bs, q + 1, d, lvl - 1, u, ks.len() - 1);
                    }
                    assert(ks[15] == d - 1);
                    assert(bs[d - 1].span_hi() == bs[d].span_hi());
                }
                let mut t: usize = 0;
                let mut e = self.read_index_entry(offd, 0, Ghost(d));
                proof {
                    assert(e.start_idx as int == bs[ks[0]].span_lo());
                    assert(bs[ks[0]].span_lo() == bs[d].span_lo());
                    assert(kid_hi(bs, q, d, lvl, 0) == (if 0 < 15 {
                        bs[ks[1]].span_lo()
                    } else {
                        bs[d - 1].span_hi()
                    }));
                }
                while t + 1 < 16
                    invariant_except_break
                        self.inv(),
                        self.blocks == old(self).blocks,
                        self.file == old(self).file,
                        bs == self.blocks@,
                        nb == bs.len(),
                        0 <= d < nb,
                        bs[d].pos == offd,
                        !bs[d].is_leaf(),
                        branch_wf(bs, d),
                        bs[d].span_lo() <= cur < bs[d].span_hi(),
                        bs[d - 1].span_hi() == bs[d].span_hi(),
                        lvl == bs[d].level,
                        q == prev_ge(bs, d, lvl),
                        ks == kids(bs, q + 1, d, lvl - 1),
                        ks.len() == 16,
                        0 <= t < 16,
                        bs[d].body matches BlockBody::Branch { entries, .. } && e == entries[
                            t as int
                        ],
                        e.start_idx as int == bs[ks[t as int]].span_lo(),
                        bs[ks[t as int]].span_lo() <= cur,
                    ensures
                        0 <= t < 16,
                        bs[d].body matches BlockBody::Branch { entries, .. } && e == entries[
                            t as int
                        ],
                        bs[ks[t as int]].span_lo() <= cur < kid_hi(bs, q, d, lvl, t as int),
                    decreases 16 - t,
                {
                    let e2 = self.read_index_entry(offd, t + 1, Ghost(d));
                    proof {
                        assert(e2.start_idx as int == bs[ks[t + 1]].span_lo());
                        assert(kid_hi(bs, q, d, lvl, t as int) == bs[ks[t + 1]].span_lo());
                    }
                    if e2.start_idx > cur {
                        break ;
                    }
                    t = t + 1;
                    e = e2;
                    proof {
                        if t == 15 {
                            assert(kid_hi(bs, q, d, lvl, 15) == bs[d - 1].span_hi());
                            assert(bs[d - 1].span_hi() == bs[d].span_hi());
                            assert(cur < kid_hi(bs, q, d, lvl, 15));
                        }
                    }
                }
                let ghost c = ks[t as int];
                proof {
                    lemma_kid_hi_is_span(bs, q, d, lvl, t as int);
                    assert(kid_hi(bs, q, d, lvl, t as int) == bs[c].span_hi());
                    assert(bs[c].span_lo() <= cur < bs[c].span_hi());
                    lemma_kids_range(bs, q + 1, d, lvl - 1);
                    assert(bs[c].span_hi() <= bs[d].span_hi()) by {
                        if (t as int) < 15 {
                            lemma_kids_span_chain(bs, q, d, lvl - 1);
                            lemma_kid_chain_hi(bs, q, d, lvl, t as int);
                        }
                    }
                    d = c;
                }
                offd = e.offset;
                hd = self.read_block_header(offd, Ghost(d));
                proof {
                    assert(hd.level == lvl - 1);
                }
            }
            // offd is the leaf holding cur
            let lh = self.read_leaf_header(offd, Ghost(d));
            let ghost tidx_pre = tidx;
            let was_top = offd == top_off;
            proof {
                if was_top {
                    // the leaf is the root itself
                    lemma_wf_all(bs);
                    lemma_wf_at(bs, d);
                    lemma_wf_at(bs, top_idx);
                    if d != top_idx {
                        if d < top_idx {
                            crate::model::lemma_block_pos_mono(bs, d, top_idx);
                            crate::model::lemma_enc_len(bs[d]);
                        } else {
                            crate::model::lemma_block_pos_mono(bs, top_idx, d);
                            crate::model::lemma_enc_len(bs[top_idx]);
                        }
                        assert(false);
                    }
                }
            }
            if was_top {
                todo.pop();
                proof {
                    if tidx.len() >= 2 {
                        let k0 = tidx.len() - 2;
                        assert(bs[tidx[k0 + 1]].span_hi() == bs[tidx[k0]].span_lo());
                        assert(0 <= tidx[k0] < nb && bs[tidx[k0]].span_lo() <= hi && lo < bs[
                            tidx[k0]
                        ].span_hi());
                        lemma_span_nonempty(bs, tidx[k0]);
                    }
                    tidx = tidx.drop_last();
                }
            }
            let payload = match self.decompress_leaf(offd, false, Ghost(d)) {
                Ok(p) => p,
                Err(e) => {
                    proof {
                        assert(!old(self).leaves_ok(lo as int, hi as int)) by {
                            assert(bs[d].is_leaf() && bs[d].span_lo() <= hi && lo < bs[
                                d
                            ].span_hi() && !bs[d].good());
                        }
                        assert(!old(self).leaves_ok(norm_lo(start, end), norm_hi(start, end)));
                    }
                    return Err(e);
                },
            };
            let start_rel = cur - lh.start_idx;
            let end_rel = if hi - lh.start_idx < lh.count as u64 - 1 {
                hi - lh.start_idx
            } else {
                lh.count as u64 - 1
            };
            let plen = payload.len();
            proof {
                assert(payload_wf(payload@, lh.count as int));
                assert(payload_jump(payload@, lh.count as int) >= 0);
                assert(4 * (lh.count as int) + 4 <= plen);
            }
            let base = 4 * (lh.count as usize) + 4;
            let slice = LeafSlice::new(payload, start_rel, end_rel, base);
            let newcur = lh.start_idx + lh.count as u64;
            proof {
                self.lemma_leaf_slice(slice, d, lo as int, hi as int, cur as int);
                lemma_flatten_push(out@, slice);
                lemma_wf_at(bs, d);
                let shi = bs[d].span_hi();
                let upper: int = if hi + 1 <= shi {
                    hi + 1
                } else {
                    shi
                };
                assert(newcur as int == shi);
                lemma_leaf_events_at(bs, d);
                assert(shi <= fcnt);
                assert(fcnt <= nev);
                assert(iter_done(lo as int, hi as int, nev, cur as int) == cur);
                assert(iter_done(lo as int, hi as int, nev, newcur as int) == upper);
                assert(slice.events_spec() == old(self).events().subrange(cur as int, upper));
                if cur > lo {
                    assert(old(self).range_events(lo as int, cur - 1) == old(
                        self,
                    ).events().subrange(lo as int, cur as int));
                } else {
                    assert(old(self).range_events(lo as int, cur - 1) =~= Seq::<Seq<u8>>::empty());
                }
                assert(flatten_slices(out@.push(slice)) =~= old(self).events().subrange(
                    lo as int,
                    upper,
                ));
                assert(old(self).range_events(lo as int, upper - 1) =~= old(
                    self,
                ).events().subrange(lo as int, upper));
                // the remaining stack still brackets the new position
                if tidx.len() > 0 {
                    if was_top {
                        let k0 = tidx_pre.len() - 2;
                        assert(tidx[tidx.len() - 1] == tidx_pre[k0]);
                        assert(bs[tidx_pre[k0 + 1]].span_hi() == bs[tidx_pre[k0]].span_lo());
                        lemma_span_nonempty(bs, tidx_pre[k0]);
                        assert(bs[tidx[tidx.len() - 1]].span_lo() == shi);
                    } else {
                        assert(tidx[tidx.len() - 1] == top_idx);
                        assert(bs[d].span_hi() <= bs[top_idx].span_hi());
                    }
                }
            }
            out.push(slice);
            cur = newcur;
        }
        proof {
            assert(flatten_slices(out@) =~= old(self).range_events(lo as int, hi as int));
        }
        Ok(out)
    }
}

/// Where delivery has advanced to: the end index of the events handed out
/// so far, clipped to the range and the log size.
pub open spec fn iter_done(lo: int, hi: int, nev: int, cur: int) -> int {
    let m = if cur <= hi + 1 {
        cur
    } else {
        hi + 1
    };
    let m2 = if m <= nev {
        m
    } else {
        nev
    };
    if m2 <= lo {
        lo
    } else {
        m2
    }
}

/// The upper bound of child `t` of the branch at `i`: the next child's
/// start, or the branch's bound for the last child.
pub open spec fn kid_hi(bs: Seq<BlockM>, q: int, i: int, lvl: int, t: int) -> int {
    let ks = kids(bs, q + 1, i, lvl - 1);
    if t < 15 {
        bs[ks[t + 1]].span_lo()
    } else {
        bs[i - 1].span_hi()
    }
}

/// Copies a byte slice into a vector.
fn clone_slice(v: &[u8]) -> (r: Vec<u8>)
    ensures
        r@ == v@,
{
    let mut r: Vec<u8> = Vec::new();
    r.extend_from_slice(v);
    proof {
        assert(r@ =~= v@);
    }
    r
}

/// A pushed slice extends the flattened events.
pub proof fn lemma_flatten_push(v: Seq<LeafSlice>, s: LeafSlice)
    ensures
        flatten_slices(v.push(s)) == flatten_slices(v) + s.events_spec(),
{
    assert(v.push(s).drop_last() =~= v);
}


/// After the last delivery, the progress marker equals the range's end.
pub proof fn lemma_iter_done_final(lo: int, hi: int, nev: int, cur: int)
    requires
        0 <= lo <= hi,
        lo <= cur,
        0 <= nev,
        cur > hi || cur >= nev,
    ensures
        iter_done(lo, hi, nev, cur) == if lo >= nev {
            lo
        } else if hi + 1 <= nev {
            hi + 1
        } else {
            nev
        },
{
}

/// A child's upper bound really is the end of its span.
pub proof fn lemma_kid_hi_is_span(bs: Seq<BlockM>, q: int, i: int, lvl: int, t: int)
    requires
        blocks_wf(bs),
        0 <= i < bs.len(),
        !bs[i].is_leaf(),
        lvl == bs[i].level,
        q == prev_ge(bs, i, lvl),
        kids(bs, q + 1, i, lvl - 1).len() == 16,
        0 <= t < 16,
    ensures
        kid_hi(bs, q, i, lvl, t) == bs[kids(bs, q + 1, i, lvl - 1)[t]].span_hi(),
{
    let ks = kids(bs, q + 1, i, lvl - 1);
    lemma_wf_at(bs, i);
    assert(branch_wf(bs, i));
    lemma_prev_ge_facts(bs, i, lvl);
    lemma_kids_range(bs, q + 1, i, lvl - 1);
    lemma_kids_span_chain(bs, q, i, lvl - 1);
    if t < 15 {
        assert(bs[ks[t + 1]].span_lo() == bs[ks[t]].span_hi());
    } else {
        lemma_kids_complete(bs, q + 1, i, lvl - 1);
        assert(ks.contains(i - 1));
        let u = choose|u: int| 0 <= u < ks.len() && ks[u] == i - 1;
        if u < ks.len() - 1 {
            lemma_kids_sorted_le(bs, q + 1, i, lvl - 1, u, ks.len() - 1);
        }
        assert(ks[15] == i - 1);
    }
}

/// Child spans never reach past the last child.
pub proof fn lemma_kid_chain_hi(bs: Seq<BlockM>, q: int, i: int, lvl: int, t: int)
    requires
        blocks_wf(bs),
        0 <= i < bs.len(),
        !bs[i].is_leaf(),
        lvl == bs[i].level,
        q == prev_ge(bs, i, lvl),
        kids(bs, q + 1, i, lvl - 1).len() == 16,
        0 <= t < 16,
    ensures
        bs[kids(bs, q + 1, i, lvl - 1)[t]].span_hi() <= bs[kids(bs, q + 1, i, lvl - 1)[15]].span_hi(),
    decreases 16 - t,
{
    let ks = kids(bs, q + 1, i, lvl - 1);
    lemma_prev_ge_facts(bs, i, lvl);
    lemma_kids_range(bs, q + 1, i, lvl - 1);
    if t < 15 {
        lemma_kid_chain_hi(bs, q, i, lvl, t + 1);
        lemma_kids_span_chain(bs, q, i, lvl - 1);
        lemma_span_nonempty(bs, ks[t + 1]);
    }
}

impl<C: Cache> EventFile<C> {
    /// A slice cut from a good leaf delivers exactly the events of the
    /// range's overlap with the leaf.
    #[verifier::rlimit(100)]
    #[verifier::spinoff_prover]
    proof fn lemma_leaf_slice(self, slice: LeafSlice, d: int, lo: int, hi: int, cur: int)
        requires
            self.inv(),
            0 <= d < self.blocks@.len(),
            self.blocks@[d].is_leaf(),
            self.blocks@[d].good(),
            slice.bytes@ == self.blocks@[d].payload(),
            self.blocks@[d].span_lo() <= cur < self.blocks@[d].span_hi(),
            lo <= cur <= hi,
            slice.start_idx == cur - self.blocks@[d].span_lo(),
            slice.end_idx as int == (if hi - self.blocks@[d].span_lo() <= self.blocks@[d].span_hi()
                - self.blocks@[d].span_lo() - 1 {
                hi - self.blocks@[d].span_lo()
            } else {
                self.blocks@[d].span_hi() - self.blocks@[d].span_lo() - 1
            }),
            slice.base == 4 * (self.blocks@[d].span_hi() - self.blocks@[d].span_lo()) + 4,
        ensures
            slice.wf(),
            slice.events_spec() == self.events().subrange(
                cur,
                if hi + 1 <= self.blocks@[d].span_hi() {
                    hi + 1
                } else {
                    self.blocks@[d].span_hi()
                },
            ),
    {
        let bs = self.blocks@;
        lemma_wf_at(bs, d);
        let p = bs[d].payload();
        let slo = bs[d].span_lo();
        let shi = bs[d].span_hi();
        let count = shi - slo;
        assert(payload_wf(p, count));
        assert(forall|q: int| 0 <= q <= count ==> #[trigger] slice_jump(p, q) == payload_jump(
            p,
            q,
        ));
        assert(payload_jump(p, count) >= 0);
        assert(slice.wf()) by {
            assert forall|q2: int|
                slice.start_idx <= q2 <= slice.end_idx implies #[trigger] slice_jump(p, q2)
                <= slice_jump(p, q2 + 1) by {
                assert(payload_jump(p, q2) <= payload_jump(p, q2 + 1));
            }
            lemma_slice_jump_bound_wf(p, slice.end_idx + 1, count);
        }
        lemma_leaf_events_at(bs, d);
        let evs = bs[d].events();
        assert(evs == payload_events(p, count));
        let upper = if hi + 1 <= shi {
            hi + 1
        } else {
            shi
        };
        assert forall|k: int| 0 <= k < slice.events_spec().len() implies slice.events_spec()[k]
            == self.events().subrange(cur, upper)[k] by {
            let pp = slice.start_idx + k;
            assert(slice.events_spec()[k] == p.subrange(
                slice.base + slice_jump(p, pp),
                slice.base + slice_jump(p, pp + 1),
            ));
            assert(payload_events(p, count)[pp] == p.subrange(
                4 * (count + 1) + payload_jump(p, pp),
                4 * (count + 1) + payload_jump(p, pp + 1),
            ));
            assert(evs[pp] == fin_events(bs).subrange(slo, shi)[pp]);
            assert(self.events().subrange(cur, upper)[k] == self.events()[cur + k]);
            assert(self.events()[cur + k] == fin_events(bs)[cur + k]);
        }
        assert(slice.events_spec() =~= self.events().subrange(cur, upper));
    }

    /// A slice over the staging bytes delivers exactly the staged events of
    /// the range's overlap with the staging area.
    #[verifier::rlimit(100)]
    #[verifier::spinoff_prover]
    proof fn lemma_staging_slice(self, slice: LeafSlice, lo: int, hi: int, cur: int)
        requires
            self.inv(),
            slice.bytes@ == self.file.staging().subrange(32, self.file.staging().len() as int),
            self.staged@.start_idx <= cur < self.staged@.start_idx + self.staged@.events.len(),
            lo <= cur <= hi,
            slice.start_idx == cur - self.staged@.start_idx,
            slice.end_idx as int == (if hi - self.staged@.start_idx <= self.staged@.events.len()
                - 1 {
                hi - self.staged@.start_idx
            } else {
                self.staged@.events.len() - 1
            }),
            slice.base == 4 * (self.block_event_limit as int),
        ensures
            slice.wf(),
            slice.events_spec() == self.events().subrange(
                cur,
                if hi + 1 <= self.events().len() {
                    hi + 1
                } else {
                    self.events().len() as int
                },
            ),
    {
        let st = self.file.staging();
        let sm = self.staged@;
        let n = sm.events.len() as int;
        let cap = self.block_event_limit as int;
        let b = slice.bytes@;
        let fc = fin_events(self.blocks@).len() as int;
        crate::model::lemma_offsum_monotone(sm.events, 0, n);
        assert forall|q2: int| 0 <= q2 <= n implies #[trigger] slice_jump(b, q2) == offsum(
            sm.events,
            q2,
        ) by {
            crate::model::lemma_offsum_monotone(sm.events, 0, q2);
            crate::model::lemma_offsum_monotone(sm.events, q2, n);
            assert(slot_bytes(st, q2) == be32(offsum(sm.events, q2) as u32));
            assert(b.subrange(4 * q2, 4 * q2 + 4) =~= slot_bytes(st, q2));
            lemma_be32(offsum(sm.events, q2) as u32, seq![0u8, 0, 0, 0]);
        }
        assert(slice.wf()) by {
            assert forall|q2: int|
                slice.start_idx <= q2 <= slice.end_idx implies #[trigger] slice_jump(b, q2)
                <= slice_jump(b, q2 + 1) by {
                crate::model::lemma_offsum_monotone(sm.events, q2, q2 + 1);
            }
            crate::model::lemma_offsum_monotone(sm.events, slice.end_idx + 1, n);
        }
        crate::model::lemma_concat_events(sm.events);
        let upper = if hi + 1 <= fc + n {
            hi + 1
        } else {
            fc + n
        };
        assert forall|k: int| 0 <= k < slice.events_spec().len() implies slice.events_spec()[k]
            == self.events().subrange(cur, upper)[k] by {
            let pp = slice.start_idx + k;
            crate::model::lemma_offsum_monotone(sm.events, 0, pp);
            crate::model::lemma_offsum_monotone(sm.events, pp, pp + 1);
            crate::model::lemma_offsum_monotone(sm.events, pp + 1, n);
            assert(b.subrange(
                slice.base + offsum(sm.events, pp),
                slice.base + offsum(sm.events, pp + 1),
            ) =~= st.subrange(
                32 + 4 * cap + offsum(sm.events, pp),
                32 + 4 * cap + offsum(sm.events, pp + 1),
            ));
            assert(st.subrange(
                32 + 4 * cap + offsum(sm.events, pp),
                32 + 4 * cap + offsum(sm.events, pp + 1),
            ) =~= concat_events(sm.events).subrange(
                offsum(sm.events, pp),
                offsum(sm.events, pp + 1),
            ));
            assert(concat_events(sm.events).subrange(
                offsum(sm.events, pp),
                offsum(sm.events, pp + 1),
            ) == sm.events[pp]);
            assert(self.events()[fc + pp] == sm.events[pp]);
        }
        assert(slice.events_spec() =~= self.events().subrange(cur, upper));
    }
}

/// Monotone jump values from anywhere up to the table's end.
pub proof fn lemma_slice_jump_bound_wf(p: Seq<u8>, q: int, count: int)
    requires
        0 <= q <= count,
        payload_wf(p, count),
    ensures
        slice_jump(p, q) <= payload_jump(p, count),
    decreases count - q,
{
    if q < count {
        lemma_slice_jump_bound_wf(p, q + 1, count);
        assert(payload_jump(p, q) <= payload_jump(p, q + 1));
    }
}

/// What the range evaluates to once delivery has passed its end.
pub proof fn lemma_range_events_end<C: crate::cache::Cache>(ef: EventFile<C>, lo: int, hi: int)
    requires
        0 <= lo <= hi,
    ensures
        ef.range_events(lo, hi) == ef.range_events(
            lo,
            (if lo >= ef.events().len() {
                lo
            } else if hi + 1 <= ef.events().len() {
                hi + 1
            } else {
                ef.events().len() as int
            }) - 1,
        ),
{
    let n = ef.events().len() as int;
    if lo < n {
        if hi + 1 <= n {
        } else {
            assert(ef.range_events(lo, hi) =~= ef.range_events(lo, n - 1));
        }
    }
}
} // verus!
