//! The event log: staging append, compression into leaf blocks, and the
//! branch cascade.

use vstd::prelude::*;
use crate::be::{be32, be32_val, lemma_be32, push_be32, read_be32};
use crate::cache::Cache;
use crate::codec::{zstd_compress, zstd_inv, zstd_of};
use crate::error::Error;
use crate::image::{splice_seq, FileImage};
use crate::model::{
    blocks_wf, block_pos, lemma_wf_all, lemma_wf_at, wf_at, wf_trig, branch_wf, concat_events, find_block, fin_events, kids,
    lemma_block_bytes, lemma_block_pos_mono, lemma_block_pos_prefix, lemma_concat_events,
    lemma_enc_len, lemma_find_block_facts, lemma_find_block_push, lemma_fin_events_push,
    lemma_fin_events_take, lemma_kids_complete, lemma_kids_gap, lemma_kids_prefix,
    lemma_kids_range, lemma_kids_sorted_le, lemma_leaf_payload, lemma_offsum_monotone,
    lemma_offsum_prefix, lemma_prev_ge_facts, lemma_prev_ge_prefix, lemma_prev_gt_facts,
    lemma_prev_gt_prefix, lemma_round8, lemma_stream_enc_index, lemma_stream_enc_len,
    leaf_payload_of, offsum, payload_events, payload_wf, prev_ge, prev_gt, run, stream_enc,
    walk_next, BlockBody, BlockM, StagingM,
};
use crate::records::{BlockHeader, BranchHeader, IndexEntry, LeafHeader, StagingHeader};

verus! {

/// The four bytes of the `i`-th jump-table slot inside the staging bytes.
pub open spec fn slot_bytes(st: Seq<u8>, i: int) -> Seq<u8> {
    st.subrange(32 + 4 * i, 32 + 4 * i + 4)
}

/// The codec level used when staging is flushed into a leaf block.
pub const COMPRESSION_LEVEL: i32 = 21;

/// A prefix-forgettable append-only event log over an in-memory file image.
///
/// Events are opaque byte strings addressed by a contiguous 64-bit index.
/// New events accumulate in the staging region; once they outgrow the
/// compression threshold or the jump table, they are compressed into a leaf
/// block, and full runs of sixteen blocks are indexed by branch blocks.
pub struct EventFile<C: Cache> {
    pub file: FileImage,
    pub id: u32,
    pub compression_threshold: usize,
    pub block_event_limit: u32,
    pub cache: C,
    /// Offsets of the leaves this log has handed to the cache.
    pub cached: Vec<u64>,
    /// The model of the finalized blocks, in file order.
    pub blocks: Ghost<Seq<BlockM>>,
    /// The model of the staging area.
    pub staged: Ghost<StagingM>,
    /// What the cache holds for this log, by leaf offset.
    pub cached_pl: Ghost<Map<u64, Seq<u8>>>,
}

impl<C: Cache> EventFile<C> {
    /// All events in the log: the finalized ones, then the staged ones.
    pub open spec fn events(self) -> Seq<Seq<u8>> {
        fin_events(self.blocks@) + self.staged@.events
    }

    /// Every finalized leaf decompresses cleanly; logs built through this
    /// interface keep this, and it makes every range query succeed.
    pub open spec fn leaves_good(self) -> bool {
        forall|i: int| 0 <= i < self.blocks@.len() && (#[trigger] self.blocks@[i]).is_leaf()
            ==> self.blocks@[i].good()
    }

    /// The staging header that the staging bytes must encode.
    pub open spec fn staging_header_spec(self) -> StagingHeader {
        StagingHeader {
            last_block: self.staged@.last_block,
            start_idx: self.staged@.start_idx,
            count: self.staged@.events.len() as u32,
            capacity: self.block_event_limit,
        }
    }

    /// Start of the staged event bytes inside the staging region.
    pub open spec fn event_start_spec(self) -> int {
        32 + 4 * (self.block_event_limit as int)
    }

    /// The cache only holds true copies of decompressed leaf payloads.
    pub open spec fn cache_wf(self) -> bool {
        let bs = self.blocks@;
        &&& (forall|off: u64| self.cached_pl@.contains_key(off) ==> {
            let i = find_block(bs, off);
            &&& 0 <= i < bs.len()
            &&& bs[i].is_leaf()
            &&& bs[i].good()
            &&& self.cached_pl@[off] == bs[i].payload()
        })
        &&& (forall|off: u64| #[trigger] self.cached_pl@.contains_key(off)
            ==> (self.cache.contents().contains_key((self.id, off))
            ==> self.cache.contents()[(self.id, off)] == self.cached_pl@[off]))
        &&& (forall|k: int| 0 <= k < self.cached@.len() ==> self.cached_pl@.contains_key(
            #[trigger] self.cached@[k],
        ))
        &&& (forall|off: u64| #[trigger] self.cached_pl@.contains_key(off) ==> self.cached@.contains(
            off,
        ))
    }

    /// The core invariant: the image is laid out as the block model says.
    pub open spec fn inv_core(self) -> bool {
        let bs = self.blocks@;
        &&& self.file.wf()
        &&& self.file.start_offset == 0
        &&& self.file.stream() == stream_enc(bs)
        &&& blocks_wf(bs)
        &&& self.block_event_limit >= 2
        &&& 32 + 4 * (self.block_event_limit as int) + self.compression_threshold <= usize::MAX
        &&& self.cache_wf()
    }

    /// The staging region is laid out as the staging model says; `slack` is
    /// how much room the jump table still has.
    pub open spec fn staging_ok(self, slack: int) -> bool {
        let st = self.file.staging();
        let sm = self.staged@;
        let cap = self.block_event_limit as int;
        let n = sm.events.len() as int;
        let es = self.event_start_spec();
        &&& n + slack <= cap
        &&& offsum(sm.events, n) <= u32::MAX
        &&& sm.last_block == if self.blocks@.len() == 0 {
            u64::MAX
        } else {
            self.blocks@.last().pos
        }
        &&& sm.start_idx == fin_events(self.blocks@).len()
        &&& sm.start_idx + n <= u64::MAX
        &&& st.len() >= es + offsum(sm.events, n)
        &&& st.subrange(0, 32) == self.staging_header_spec().enc()
        &&& (forall|i: int| 0 <= i <= n ==> #[trigger] slot_bytes(st, i) == be32(
            offsum(sm.events, i) as u32,
        ))
        &&& st.subrange(es, es + offsum(sm.events, n)) == concat_events(sm.events)
    }

    /// Full well-formedness between operations.
    pub open spec fn inv(self) -> bool {
        &&& self.inv_core()
        &&& self.staging_ok(2)
        &&& crate::model::runs_bounded(self.blocks@)
    }

    /// The stream offset one past the last finalized byte.
    pub fn end_offset(&self) -> (r: u64)
        ensures
            r == self.file.end_offset,
    {
        self.file.end_offset()
    }

    /// A read-only view of the whole file image, for persisting it.
    pub fn image(&self) -> (r: &Vec<u8>)
        ensures
            r@ == self.file.data@,
    {
        self.file.bytes()
    }

    /// Flushing is the persistence hook; the image lives in memory, so there
    /// is nothing to write back here.
    pub fn flush(&self) -> (r: Result<(), Error>)
        ensures
            r is Ok,
    {
        Ok(())
    }

    /// Start of the staged event bytes inside the staging region.
    pub(crate) fn staging_event_start(&self) -> (r: usize)
        requires
            self.inv_core(),
        ensures
            r == self.event_start_spec(),
    {
        32 + 4 * (self.block_event_limit as usize)
    }

    /// Reads the staging header back out of the staging bytes.
    pub(crate) fn staging_header(&self) -> (h: StagingHeader)
        requires
            self.inv_core(),
            self.staging_ok(1),
        ensures
            h == self.staging_header_spec(),
    {
        let s = match self.file.staging_read(0, 32) {
            Ok(s) => s,
            Err(_) => {
                proof {
                    assert(self.file.staging().len() >= 32 + 4 * (
                    self.block_event_limit as int)) by {
                        lemma_offsum_monotone(
                            self.staged@.events,
                            0,
                            self.staged@.events.len() as int,
                        );
                    }
                    assert(false);
                }
                return StagingHeader { last_block: 0, start_idx: 0, count: 0, capacity: 0 };
            },
        };
        proof {
            self.staging_header_spec().lemma_enc();
        }
        match StagingHeader::parse(s, 0) {
            Some(h) => {
                proof {
                    assert(s@.subrange(0, 32) =~= s@);
                }
                h
            },
            None => {
                proof {
                    assert(s@.subrange(0, 8) =~= self.staging_header_spec().enc().subrange(0, 8));
                    assert(false);
                }
                StagingHeader { last_block: 0, start_idx: 0, count: 0, capacity: 0 }
            },
        }
    }

    /// Reads the `i`-th jump-table slot: the byte offset of the end of the
    /// first `i` staged events.
    #[verifier::rlimit(100)]
    #[verifier::spinoff_prover]
    fn staging_jump(&self, i: u32) -> (r: u32)
        requires
            self.inv_core(),
            self.staging_ok(1),
            i <= self.staged@.events.len(),
        ensures
            r == offsum(self.staged@.events, i as int),
    {
        proof {
            lemma_offsum_monotone(self.staged@.events, i as int, self.staged@.events.len() as int);
            lemma_offsum_monotone(self.staged@.events, 0, i as int);
        }
        let at = 32 + 4 * (i as usize);
        let ghost st = self.file.staging();
        let ghost v0 = offsum(self.staged@.events, i as int) as u32;
        proof {
            assert(slot_bytes(st, i as int) == be32(v0));
        }
        let s = match self.file.staging_read(at, at + 4) {
            Ok(s) => s,
            Err(_) => {
                proof {
                    assert(false);
                }
                return 0;
            },
        };
        let v = read_be32(s, 0);
        proof {
            assert(s@.subrange(0, 4) =~= s@);
            assert(s@ =~= slot_bytes(st, i as int));
            lemma_be32(v0, seq![0u8, 0, 0, 0]);
        }
        v
    }

    /// Clears the staging area and writes a fresh staging header: no staged
    /// events, `last_block` and `start_idx` as given.  Fails only when the
    /// image cannot grow to hold the compression threshold.
    #[verifier::rlimit(100)]
    #[verifier::spinoff_prover]
    fn prep_staging(&mut self, last_block: u64, start_idx: u64) -> (r: Result<(), Error>)
        requires
            old(self).inv_core(),
            crate::model::runs_bounded(old(self).blocks@),
            last_block == if old(self).blocks@.len() == 0 {
                u64::MAX
            } else {
                old(self).blocks@.last().pos
            },
            start_idx == fin_events(old(self).blocks@).len(),
        ensures
            final(self).id == old(self).id,
            final(self).compression_threshold == old(self).compression_threshold,
            final(self).block_event_limit == old(self).block_event_limit,
            final(self).blocks == old(self).blocks,
            final(self).cache == old(self).cache,
            final(self).cached == old(self).cached,
            final(self).cached_pl == old(self).cached_pl,
            final(self).file.end_offset == old(self).file.end_offset,
            final(self).file.user_version == old(self).file.user_version,
            match r {
                Ok(()) => final(self).inv() && final(self).staged@ == (StagingM {
                    last_block,
                    start_idx,
                    events: Seq::<Seq<u8>>::empty(),
                }),
                Err(e) => e matches Error::NumericOverflow(_) && final(self).inv_core(),
            },
            old(self).file.staging_start_spec() + old(self).event_start_spec() + old(
                self,
            ).compression_threshold <= usize::MAX ==> r is Ok,
    {
        let es = self.staging_event_start();
        let size = es + self.compression_threshold;
        self.file.clear_staging();
        match self.file.ensure_staging_len(size) {
            Ok(()) => {},
            Err(e) => {
                return Err(e);
            },
        }
        let h = StagingHeader { last_block, start_idx, count: 0, capacity: self.block_event_limit };
        let mut hb: Vec<u8> = Vec::new();
        h.write_into(&mut hb);
        proof {
            h.lemma_enc();
        }
        match self.file.staging_write(0, hb.as_slice()) {
            Ok(()) => {},
            Err(e) => {
                proof {
                    assert(false);
                }
                return Err(e);
            },
        }
        let ghost mid = self.file.staging();
        self.staged = Ghost(StagingM { last_block, start_idx, events: Seq::empty() });
        proof {
            let st = self.file.staging();
            let sm = self.staged@;
            crate::image::lemma_splice_parts(mid, 0, hb@);
            assert(forall|k: int| 32 <= k < mid.len() ==> #[trigger] mid[k] == 0u8);
            assert(st.len() == mid.len());
            assert(forall|k: int| 32 <= k < st.len() ==> #[trigger] st[k] == 0u8);
            assert(st.subrange(0, 32) == self.staging_header_spec().enc()) by {
                assert(st.subrange(0, 32) =~= hb@);
            }
            assert(fin_events(self.blocks@).len() <= u64::MAX);
            assert(slot_bytes(st, 0) == be32(offsum(sm.events, 0) as u32)) by {
                reveal(crate::be::be32);
                assert(((0u32 >> 24) & 0xff) == 0 && ((0u32 >> 16) & 0xff) == 0 && ((0u32 >> 8)
                    & 0xff) == 0 && (0u32 & 0xff) == 0) by (bit_vector);
                assert(be32(0u32) =~= seq![0u8, 0, 0, 0]);
                assert(slot_bytes(st, 0) =~= seq![0u8, 0, 0, 0]);
            }
            assert(st.subrange(
                self.event_start_spec(),
                self.event_start_spec() + offsum(sm.events, 0),
            ) =~= concat_events(sm.events));
            assert(self.staging_ok(2)) by {
                assert(offsum(sm.events, 0) == 0);
            }
            assert(self.inv_core()) by {
                assert(self.file.stream() == stream_enc(self.blocks@));
            }
        }
        Ok(())
    }
}


impl<C: Cache> EventFile<C> {
    /// Whether the staging trigger fires for an event of the given size:
    /// the jump table would have at most one free slot left, or the staged
    /// bytes reach the compression threshold.
    pub open spec fn trigger(self, elen: int) -> bool {
        let n = self.staged@.events.len() as int;
        ||| n + 2 >= self.block_event_limit
        ||| offsum(self.staged@.events, n) + elen >= self.compression_threshold
    }

    /// Whether a flush of the staged events plus one more is certain to
    /// succeed: the compressed leaf fits a `u32` length, and the grown file
    /// fits the offset and address spaces even after a full cascade.
    pub open spec fn compress_fits(self, ev: Seq<u8>) -> bool {
        let newev = self.staged@.events.push(ev);
        let clen = zstd_of(COMPRESSION_LEVEL as int, leaf_payload_of(newev)).len() as int;
        &&& 24 + clen <= u32::MAX
        &&& self.file.end_offset + 48 + crate::image::round8(clen) + 17 * 304 <= u64::MAX
        &&& 4096 + self.file.end_offset + 48 + crate::image::round8(clen) + 17 * 304
            + self.event_start_spec() + self.compression_threshold <= usize::MAX
    }

    /// Whether an append of `ev` is certain to succeed: the event fits the
    /// jump table and the index space, and the staging area or — when the
    /// trigger fires — the flushed file fits the address space.
    pub open spec fn append_ok_cond(self, ev: Seq<u8>) -> bool {
        let n = self.staged@.events.len() as int;
        let total = offsum(self.staged@.events, n) + ev.len();
        &&& total <= u32::MAX
        &&& self.staged@.start_idx + n + 1 <= u64::MAX
        &&& if self.trigger(ev.len() as int) {
            self.compress_fits(ev)
        } else {
            self.file.staging_start_spec() + self.event_start_spec() + total <= usize::MAX
        }
    }

    /// Appends one event to the log.
    ///
    /// When the trigger does not fire, the event goes into the staging
    /// area and nothing else changes: the blocks and `end_offset` stay as
    /// they were and the staged events grow by the event.  When it fires,
    /// the staged events together with the new one are compressed into one
    /// leaf block, the branch cascade runs, and staging is reset for the
    /// next batch.  On failure — always a `NumericOverflow`, from a size or
    /// offset computation that would exceed its type — the log is left
    /// exactly as it was.
    #[verifier::rlimit(100)]
    #[verifier::spinoff_prover]
    pub fn append(&mut self, event: &[u8]) -> (r: Result<(), Error>)
        requires
            old(self).inv(),
        ensures
            final(self).same_shape(*old(self)),
            final(self).file.user_version == old(self).file.user_version,
            final(self).file.end_offset >= old(self).file.end_offset,
            final(self).file.end_offset % 8 == 0,
            match r {
                Ok(()) => {
                    let oldst = old(self).staged@;
                    let n = oldst.events.len() as int;
                    let newev = oldst.events.push(event@);
                    &&& final(self).inv()
                    &&& final(self).events() == old(self).events().push(event@)
                    &&& if !old(self).trigger(event@.len() as int) {
                        &&& final(self).blocks == old(self).blocks
                        &&& final(self).file.end_offset == old(self).file.end_offset
                        &&& final(self).staged@ == (StagingM {
                            last_block: oldst.last_block,
                            start_idx: oldst.start_idx,
                            events: newev,
                        })
                    } else {
                        &&& final(self).blocks@.len() > old(self).blocks@.len()
                        &&& final(self).blocks@[old(self).blocks@.len() as int].body
                            == (BlockBody::Leaf {
                            start_idx: oldst.start_idx,
                            count: newev.len() as u32,
                            cbytes: zstd_of(
                                COMPRESSION_LEVEL as int,
                                leaf_payload_of(newev),
                            ),
                        })
                        &&& final(self).blocks@[old(self).blocks@.len() as int].events() == newev
                        &&& fin_events(final(self).blocks@) == fin_events(old(self).blocks@)
                            + newev
                        &&& final(self).staged@ == (StagingM {
                            last_block: final(self).blocks@.last().pos,
                            start_idx: (oldst.start_idx + n + 1) as u64,
                            events: Seq::<Seq<u8>>::empty(),
                        })
                        &&& final(self).file.end_offset > old(self).file.end_offset
                    }
                },
                Err(e) => e matches Error::NumericOverflow(_) && *final(self) == *old(self),
            },
            old(self).append_ok_cond(event@) ==> r is Ok,
            r is Ok && old(self).leaves_good() ==> final(self).leaves_good(),
    {
        let h = self.staging_header();
        let count = h.count;
        let ghost oldev = self.staged@.events;
        let ghost n = oldev.len() as int;
        let offset = self.staging_jump(count);
        let elen = event.len();
        if elen > (u32::MAX - offset) as usize {
            return Err(Error::numeric_overflow("event too large for the jump table"));
        }
        if u64::MAX - h.start_idx <= count as u64 {
            return Err(Error::numeric_overflow("event index space exhausted"));
        }
        let new_end = offset + elen as u32;
        if count + 2 >= self.block_event_limit || new_end as usize >= self.compression_threshold {
            proof {
                assert(old(self).trigger(event@.len() as int));
            }
            return self.compress(event);
        }
        proof {
            assert(!old(self).trigger(event@.len() as int));
        }
        let es = self.staging_event_start();
        if offset as usize > usize::MAX - es {
            return Err(Error::numeric_overflow("staging area exceeds the address space"));
        }
        let start = es + offset as usize;
        if elen > usize::MAX - start {
            return Err(Error::numeric_overflow("staging area exceeds the address space"));
        }
        match self.file.ensure_staging_len(start + elen) {
            Ok(()) => {},
            Err(e) => {
                return Err(e);
            },
        }
        let ghost st0 = self.file.staging();
        proof {
            assert(self.file.staging().len() >= start + elen);
        }
        match self.file.staging_write(start, event) {
            Ok(()) => {},
            Err(e) => {
                proof {
                    assert(false);
                }
                return Err(e);
            },
        }
        let ghost st1 = self.file.staging();
        let mut jb: Vec<u8> = Vec::new();
        push_be32(&mut jb, new_end);
        let jat = 32 + 4 * (count as usize) + 4;
        proof {
            lemma_be32(new_end, seq![0u8, 0, 0, 0]);
            lemma_offsum_monotone(oldev, 0, n);
            assert(jat + 4 <= self.event_start_spec());
            assert(self.file.staging().len() == st0.len());
            assert(st0.len() >= self.event_start_spec());
        }
        match self.file.staging_write(jat, jb.as_slice()) {
            Ok(()) => {},
            Err(e) => {
                proof {
                    assert(false);
                }
                return Err(e);
            },
        }
        let ghost st2 = self.file.staging();
        let h2 = StagingHeader {
            last_block: h.last_block,
            start_idx: h.start_idx,
            count: count + 1,
            capacity: h.capacity,
        };
        let mut hb: Vec<u8> = Vec::new();
        h2.write_into(&mut hb);
        proof {
            h2.lemma_enc();
            lemma_offsum_monotone(oldev, 0, n);
            assert(32 <= self.event_start_spec());
            assert(self.file.staging().len() >= self.event_start_spec());
        }
        match self.file.staging_write(0, hb.as_slice()) {
            Ok(()) => {},
            Err(e) => {
                proof {
                    assert(false);
                }
                return Err(e);
            },
        }
        let ghost newev = oldev.push(event@);
        self.staged = Ghost(
            StagingM {
                last_block: self.staged@.last_block,
                start_idx: self.staged@.start_idx,
                events: newev,
            },
        );
        proof {
            let stold = old(self).file.staging();
            let es0 = old(self).event_start_spec();
            assert(st0.subrange(0, 32) =~= stold.subrange(0, 32));
            assert forall|i: int| 0 <= i <= n implies #[trigger] slot_bytes(st0, i) == be32(
                offsum(oldev, i) as u32,
            ) by {
                assert(slot_bytes(st0, i) =~= slot_bytes(stold, i));
            }
            assert(st0.subrange(es0, es0 + offsum(oldev, n)) =~= stold.subrange(
                es0,
                es0 + offsum(oldev, n),
            ));
            self.lemma_append_staging(*old(self), st0, st1, st2, event@, hb@, jb@);
        }
        Ok(())
    }

    /// The three staging writes of an append re-establish the staging
    /// layout for the grown event list.
    #[verifier::rlimit(100)]
    #[verifier::spinoff_prover]
    proof fn lemma_append_staging(
        self,
        prev: Self,
        st0: Seq<u8>,
        st1: Seq<u8>,
        st2: Seq<u8>,
        ev: Seq<u8>,
        hb: Seq<u8>,
        jb: Seq<u8>,
    )
        requires
            prev.inv(),
            prev.staged@.events.len() + 3 <= prev.block_event_limit,
            self.blocks == prev.blocks,
            self.id == prev.id,
            self.cache == prev.cache,
            self.cached == prev.cached,
            self.cached_pl == prev.cached_pl,
            self.block_event_limit == prev.block_event_limit,
            self.compression_threshold == prev.compression_threshold,
            self.file.wf(),
            self.file.start_offset == prev.file.start_offset,
            self.file.end_offset == prev.file.end_offset,
            self.file.user_version == prev.file.user_version,
            self.file.stream() == prev.file.stream(),
            self.staged@.last_block == prev.staged@.last_block,
            self.staged@.start_idx == prev.staged@.start_idx,
            self.staged@.events == prev.staged@.events.push(ev),
            prev.staged@.start_idx + prev.staged@.events.len() + 1 <= u64::MAX,
            offsum(prev.staged@.events, prev.staged@.events.len() as int) + ev.len() <= u32::MAX,
            st0.len() >= prev.event_start_spec() + offsum(
                prev.staged@.events,
                prev.staged@.events.len() as int,
            ) + ev.len(),
            st0.subrange(0, 32) == prev.staging_header_spec().enc(),
            forall|i: int| 0 <= i <= prev.staged@.events.len() ==> #[trigger] slot_bytes(st0, i)
                == be32(offsum(prev.staged@.events, i) as u32),
            st0.subrange(
                prev.event_start_spec(),
                prev.event_start_spec() + offsum(
                    prev.staged@.events,
                    prev.staged@.events.len() as int,
                ),
            ) == concat_events(prev.staged@.events),
            st1 == splice_seq(
                st0,
                prev.event_start_spec() + offsum(
                    prev.staged@.events,
                    prev.staged@.events.len() as int,
                ),
                ev,
            ),
            jb == be32((offsum(prev.staged@.events, prev.staged@.events.len() as int)
                + ev.len()) as u32),
            st2 == splice_seq(st1, 32 + 4 * (prev.staged@.events.len() as int + 1), jb),
            hb == self.staging_header_spec().enc(),
            self.file.staging() == splice_seq(st2, 0, hb),
        ensures
            self.staging_ok(2),
    {
        let oldev = prev.staged@.events;
        let n = oldev.len() as int;
        let newev = self.staged@.events;
        let es = prev.event_start_spec();
        let os = offsum(oldev, n);
        let st = self.file.staging();
        lemma_offsum_monotone(oldev, 0, n);
        assert(n + 1 <= prev.block_event_limit - 2);
        assert(32 + 4 * (n + 1) + 4 <= es);
        assert(es + os + ev.len() <= st0.len());
        assert(newev.len() == n + 1);
        assert(forall|j: int| 0 <= j < n ==> newev[j] == oldev[j]);
        assert forall|i: int| 0 <= i <= n + 1 implies offsum(newev, i) == if i <= n {
            offsum(oldev, i)
        } else {
            os + ev.len()
        } by {
            if i <= n {
                lemma_offsum_prefix(newev, oldev, i);
            } else {
                lemma_offsum_prefix(newev, oldev, n);
            }
        }
        crate::be::lemma_be32((os + ev.len()) as u32, seq![0u8, 0, 0, 0]);
        self.staging_header_spec().lemma_enc();
        crate::image::lemma_splice_parts(st0, es + os, ev);
        crate::image::lemma_splice_parts(st1, 32 + 4 * (n + 1), jb);
        crate::image::lemma_splice_parts(st2, 0, hb);
        assert(st.len() == st0.len());
        // header
        assert(st.subrange(0, 32) =~= hb);
        // jump slots
        assert forall|i: int| 0 <= i <= n + 1 implies #[trigger] slot_bytes(st, i) == be32(
            offsum(newev, i) as u32,
        ) by {
            if i <= n {
                assert(slot_bytes(st0, i) == be32(offsum(oldev, i) as u32));
                assert(slot_bytes(st, i) =~= slot_bytes(st0, i));
            } else {
                assert(slot_bytes(st, i) =~= jb);
            }
        }
        // event bytes
        assert(concat_events(newev) == concat_events(oldev) + ev) by {
            assert(newev.drop_last() =~= oldev);
            assert(newev.last() == ev);
        }
        assert(st.subrange(es, es + offsum(newev, n + 1)) =~= concat_events(oldev) + ev) by {
            assert(st0.subrange(es, es + os) == concat_events(oldev));
            assert(forall|k: int| es <= k < es + os ==> #[trigger] st[k] == st0[k]);
            assert(forall|k: int| 0 <= k < os ==> #[trigger] st[es + k] == concat_events(
                oldev,
            )[k]);
            assert(forall|k: int| 0 <= k < ev.len() ==> #[trigger] st[es + os + k] == ev[k]);
        }
    }
}

impl<C: Cache> EventFile<C> {
    /// The stream region matches the block model.
    pub open spec fn stream_inv(self) -> bool {
        &&& self.file.wf()
        &&& self.file.start_offset == 0
        &&& self.file.stream() == stream_enc(self.blocks@)
        &&& blocks_wf(self.blocks@)
    }

    /// Reads the header of the block at `off`, which the model knows as
    /// block `i`.
    #[verifier::rlimit(100)]
    #[verifier::spinoff_prover]
    pub(crate) fn read_block_header(&self, off: u64, Ghost(i): Ghost<int>) -> (h: BlockHeader)
        requires
            self.stream_inv(),
            0 <= i < self.blocks@.len(),
            self.blocks@[i].pos == off,
        ensures
            h.prev_block == self.blocks@[i].prev,
            h.level == self.blocks@[i].level,
            h.length == self.blocks@[i].length,
    {
        let ghost bs = self.blocks@;
        let ghost hdr = BlockHeader {
            prev_block: bs[i].prev,
            level: bs[i].level,
            length: bs[i].length,
        };
        proof {
            lemma_wf_all(bs);
            lemma_wf_at(bs, i);
            lemma_block_bytes(bs, i);
            crate::model::lemma_block_pos_align(bs, i);
            lemma_stream_enc_len(bs);
            hdr.lemma_enc();
        }
        let s = match self.file.stream_read(off, 24) {
            Ok(s) => s,
            Err(_) => {
                proof {
                    assert(false);
                }
                return BlockHeader { prev_block: 0, level: 0, length: 0 };
            },
        };
        proof {
            assert(s@ == hdr.enc());
        }
        match BlockHeader::parse(s, 0) {
            Some(h) => {
                proof {
                    assert(s@.subrange(0, 24) =~= s@);
                }
                h
            },
            None => {
                proof {
                    assert(s@.subrange(0, 8) =~= hdr.enc().subrange(0, 8));
                    assert(false);
                }
                BlockHeader { prev_block: 0, level: 0, length: 0 }
            },
        }
    }

    /// Reads the leaf header of leaf block `i` at `off`.
    #[verifier::rlimit(100)]
    #[verifier::spinoff_prover]
    pub(crate) fn read_leaf_header(&self, off: u64, Ghost(i): Ghost<int>) -> (h: LeafHeader)
        requires
            self.stream_inv(),
            0 <= i < self.blocks@.len(),
            self.blocks@[i].pos == off,
            self.blocks@[i].is_leaf(),
        ensures
            self.blocks@[i].body matches BlockBody::Leaf { start_idx, count, .. } && h.start_idx
                == start_idx && h.count == count,
    {
        let ghost bs = self.blocks@;
        let ghost hdr = match bs[i].body {
            BlockBody::Leaf { start_idx, count, .. } => LeafHeader { start_idx, count },
            BlockBody::Branch { .. } => LeafHeader { start_idx: 0, count: 0 },
        };
        proof {
            lemma_wf_all(bs);
            lemma_wf_at(bs, i);
            lemma_block_bytes(bs, i);
            crate::model::lemma_block_pos_align(bs, i);
            lemma_stream_enc_len(bs);
            hdr.lemma_enc();
            lemma_round8(bs[i].length as int);
        }
        let s = match self.file.stream_read(off + 24, 24) {
            Ok(s) => s,
            Err(_) => {
                proof {
                    assert(false);
                }
                return LeafHeader { start_idx: 0, count: 0 };
            },
        };
        proof {
            assert(s@ == hdr.enc());
        }
        match LeafHeader::parse(s, 0) {
            Some(h) => {
                proof {
                    assert(s@.subrange(0, 24) =~= s@);
                }
                h
            },
            None => {
                proof {
                    assert(s@.subrange(0, 8) =~= hdr.enc().subrange(0, 8));
                    assert(false);
                }
                LeafHeader { start_idx: 0, count: 0 }
            },
        }
    }

    /// Reads the branch header and the first child pointer of branch block
    /// `i` at `off`.
    #[verifier::rlimit(100)]
    #[verifier::spinoff_prover]
    pub(crate) fn read_branch_info(&self, off: u64, Ghost(i): Ghost<int>) -> (r: (BranchHeader, IndexEntry))
        requires
            self.stream_inv(),
            0 <= i < self.blocks@.len(),
            self.blocks@[i].pos == off,
            !self.blocks@[i].is_leaf(),
        ensures
            self.blocks@[i].body matches BlockBody::Branch { prev_offset, end_idx, entries }
                && r.0.prev_offset == prev_offset && r.0.end_idx == end_idx && entries.len() == 16
                && r.1 == entries[0],
    {
        let ghost bs = self.blocks@;
        let ghost hdr = match bs[i].body {
            BlockBody::Branch { prev_offset, end_idx, .. } => BranchHeader {
                prev_offset,
                end_idx,
            },
            BlockBody::Leaf { .. } => BranchHeader { prev_offset: 0, end_idx: 0 },
        };
        proof {
            lemma_wf_all(bs);
            lemma_wf_at(bs, i);
            lemma_block_bytes(bs, i);
            crate::model::lemma_block_pos_align(bs, i);
            lemma_stream_enc_len(bs);
            hdr.lemma_enc();
            lemma_round8(bs[i].length as int);
            assert(branch_wf(bs, i));
        }
        let s = match self.file.stream_read(off + 24, 24) {
            Ok(s) => s,
            Err(_) => {
                proof {
                    assert(false);
                }
                return (BranchHeader { prev_offset: 0, end_idx: 0 }, IndexEntry {
                    offset: 0,
                    start_idx: 0,
                });
            },
        };
        proof {
            assert(s@ == hdr.enc());
        }
        let bh = match BranchHeader::parse(s, 0) {
            Some(h) => {
                proof {
                    assert(s@.subrange(0, 24) =~= s@);
                }
                h
            },
            None => {
                proof {
                    assert(s@.subrange(0, 8) =~= hdr.enc().subrange(0, 8));
                    assert(false);
                }
                BranchHeader { prev_offset: 0, end_idx: 0 }
            },
        };
        let s2 = match self.file.stream_read(off + 48, 16) {
            Ok(s2) => s2,
            Err(_) => {
                proof {
                    assert(false);
                }
                return (bh, IndexEntry { offset: 0, start_idx: 0 });
            },
        };
        let e0 = IndexEntry::parse(s2, 0);
        proof {
            match bs[i].body {
                BlockBody::Branch { entries, .. } => {
                    assert(s2@ == entries[0].enc()) by {
                        assert(16 * 0 == 0);
                    }
                    assert(s2@.subrange(0, 16) =~= s2@);
                    entries[0].lemma_enc();
                },
                BlockBody::Leaf { .. } => {},
            }
        }
        (bh, e0)
    }

    /// Walks the reverse block chain from the newest block, collecting one
    /// child pointer for every block below `lvl`, newest first, until a
    /// block of level at least `lvl` (whose offset is returned second) or
    /// the chain end.  The third result is the covered upper bound of the
    /// newest block.
    #[verifier::rlimit(100)]
    #[verifier::spinoff_prover]
    fn collect_run(&self, from: u64, lvl: u32) -> (r: (Vec<IndexEntry>, u64, u64))
        requires
            self.stream_inv(),
            self.blocks@.len() >= 1,
            self.blocks@.last().pos == from,
            self.blocks@.last().level + 1 == lvl,
        ensures
            ({
                let bs = self.blocks@;
                let hi = bs.len() as int;
                let q = prev_ge(bs, hi, lvl as int);
                let ks = kids(bs, q + 1, hi, lvl as int - 1);
                &&& r.0@.len() == ks.len()
                &&& (forall|t: int| 0 <= t < ks.len() ==> (#[trigger] r.0@[t]).offset == bs[ks[ks.len() - 1 - t]].pos
                    && r.0@[t].start_idx as int == bs[ks[ks.len() - 1 - t]].span_lo())
                &&& r.1 == if q == -1 {
                    u64::MAX
                } else {
                    bs[q].pos
                }
                &&& r.2 as int == bs[hi - 1].span_hi()
            }),
    {
        let ghost bs = self.blocks@;
        let ghost hi = bs.len() as int;
        let ghost c = lvl as int - 1;
        let ghost q = prev_ge(bs, hi, lvl as int);
        let ghost ks = kids(bs, q + 1, hi, c);
        proof {
            lemma_wf_all(bs);
            lemma_prev_ge_facts(bs, hi, lvl as int);
            lemma_kids_range(bs, q + 1, hi, c);
            lemma_kids_complete(bs, q + 1, hi, c);
            assert(bs[hi - 1].level == c);
            assert(ks.contains(hi - 1));
            let u = choose|u: int| 0 <= u < ks.len() && ks[u] == hi - 1;
            if u < ks.len() - 1 {
                lemma_kids_sorted_le(bs, q + 1, hi, c, u, ks.len() - 1);
            }
            assert(ks[ks.len() - 1] == hi - 1);
        }
        let mut entries: Vec<IndexEntry> = Vec::new();
        let mut off = from;
        let mut end_idx: u64 = 0;
        let mut t: usize = 0;
        loop
            invariant
                self.stream_inv(),
                bs == self.blocks@,
                hi == bs.len() as int,
                c == lvl as int - 1,
                0 <= c,
                q == prev_ge(bs, hi, lvl as int),
                ks == kids(bs, q + 1, hi, c),
                ks.len() >= 1,
                ks[ks.len() - 1] == hi - 1,
                t == entries@.len(),
                0 <= t <= ks.len(),
                forall|u: int| 0 <= u < t ==> (#[trigger] entries@[u]).offset == bs[ks[ks.len() - 1
                    - u]].pos && entries@[u].start_idx as int == bs[ks[ks.len() - 1 - u]].span_lo(),
                t < ks.len() ==> off == bs[ks[ks.len() - 1 - t]].pos,
                t == ks.len() ==> off == (if q == -1 {
                    u64::MAX
                } else {
                    bs[q].pos
                }),
                t >= 1 ==> end_idx as int == bs[hi - 1].span_hi(),
            decreases ks.len() - t,
        {
            proof {
                lemma_wf_all(bs);
                lemma_prev_ge_facts(bs, hi, lvl as int);
                lemma_kids_range(bs, q + 1, hi, c);
                if t < ks.len() {
                    lemma_wf_at(bs, ks[ks.len() - 1 - t]);
                    crate::model::lemma_block_pos_mono(bs, ks[ks.len() - 1 - t], hi);
                    lemma_stream_enc_len(bs);
                    lemma_enc_len(bs[ks[ks.len() - 1 - t]]);
                }
            }
            if off == u64::MAX {
                proof {
                    if t < ks.len() {
                        let j = ks[ks.len() - 1 - t];
                        assert(bs[j].pos as int == block_pos(bs, j));
                        assert(bs[j].pos as int + 48 <= self.file.stream().len());
                        assert(false);
                    } else if q >= 0 {
                        lemma_wf_at(bs, q);
                        crate::model::lemma_block_pos_mono(bs, q, hi);
                        lemma_stream_enc_len(bs);
                        lemma_enc_len(bs[q]);
                        assert(bs[q].pos as int + 48 <= self.file.stream().len());
                        assert(false);
                    }
                    assert(q == -1);
                }
                return (entries, u64::MAX, end_idx);
            }
            let ghost j = if t < ks.len() {
                ks[ks.len() - 1 - t]
            } else {
                q
            };
            let h = self.read_block_header(off, Ghost(j));
            if h.level >= lvl {
                proof {
                    if t < ks.len() {
                        assert(bs[j].level == c);
                        assert(false);
                    }
                }
                return (entries, off, end_idx);
            }
            proof {
                if t == ks.len() {
                    assert(bs[q].level >= lvl as int);
                    assert(false);
                }
            }
            let res: ((u64, u64), u64) = if h.level == 0 {
                let lh = self.read_leaf_header(off, Ghost(j));
                proof {
                    assert(bs[j].local_wf());
                }
                ((lh.start_idx, lh.start_idx + lh.count as u64), h.prev_block)
            } else {
                let (bh, e0) = self.read_branch_info(off, Ghost(j));
                ((e0.start_idx, bh.end_idx), bh.prev_offset)
            };
            let lo_hi = res.0;
            let next = res.1;
            if t == 0 {
                end_idx = lo_hi.1;
            }
            entries.push(IndexEntry { offset: off, start_idx: lo_hi.0 });
            proof {
                lemma_wf_at(bs, j);
                crate::model::lemma_run_step_walk(bs, q, hi, c, ks.len() - 1 - t);
                let w = walk_next(bs, j);
                if bs[j].level == 0 {
                    assert(next == bs[j].prev);
                    assert(bs[j].prev == if j == 0 {
                        u64::MAX
                    } else {
                        bs[j - 1].pos
                    });
                    assert(w == j - 1);
                } else {
                    assert(branch_wf(bs, j));
                    assert(next == if prev_ge(bs, j, bs[j].level as int) == -1 {
                        u64::MAX
                    } else {
                        bs[prev_ge(bs, j, bs[j].level as int)].pos
                    });
                }
                if t + 1 < ks.len() {
                    assert(w == ks[ks.len() - 1 - (t + 1)]);
                    assert(w >= 0);
                    lemma_wf_at(bs, w);
                    assert(next == bs[w].pos);
                } else {
                    assert(w == q);
                    if q == -1 {
                        assert(next == u64::MAX);
                    } else {
                        assert(next == bs[q].pos);
                    }
                }
            }
            off = next;
            t = entries.len();
        }
    }
}

impl<C: Cache> EventFile<C> {
    /// Snapshot clauses that every step of `compress` preserves.
    pub open spec fn same_shape(self, other: Self) -> bool {
        &&& self.id == other.id
        &&& self.compression_threshold == other.compression_threshold
        &&& self.block_event_limit == other.block_event_limit
        &&& self.file.user_version == other.file.user_version
        &&& self.cache == other.cache
        &&& self.cached == other.cached
        &&& self.cached_pl == other.cached_pl
    }

    /// The cache stays consistent when a block is appended.
    #[verifier::rlimit(100)]
    #[verifier::spinoff_prover]
    proof fn lemma_cache_push(self, prev: Self, b: BlockM)
        requires
            prev.cache_wf(),
            blocks_wf(prev.blocks@),
            b.local_wf(),
            b.pos as int == block_pos(prev.blocks@, prev.blocks@.len() as int),
            self.blocks@ == prev.blocks@.push(b),
            self.id == prev.id,
            self.cache == prev.cache,
            self.cached == prev.cached,
            self.cached_pl == prev.cached_pl,
        ensures
            self.cache_wf(),
    {
        let bs = prev.blocks@;
        let bs2 = self.blocks@;
        assert forall|off: u64| self.cached_pl@.contains_key(off) implies {
            let i = find_block(bs2, off);
            &&& 0 <= i < bs2.len()
            &&& bs2[i].is_leaf()
            &&& bs2[i].good()
            &&& self.cached_pl@[off] == bs2[i].payload()
        } by {
            let i = find_block(bs, off);
            assert(0 <= i < bs.len());
            lemma_find_block_facts(bs, off);
            assert(bs[i].pos == off);
            lemma_wf_all(bs);
            lemma_wf_at(bs, i);
            lemma_block_pos_mono(bs, i, bs.len() as int);
            lemma_enc_len(bs[i]);
            assert(b.pos != off);
            lemma_find_block_push(bs, b, off);
        }
    }

    /// Compresses the staged events together with one more into a new leaf
    /// block, runs the branch cascade, and resets the staging area for the
    /// batch that follows.  On failure the log is left exactly as it was.
    #[verifier::rlimit(100)]
    #[verifier::spinoff_prover]
    fn compress(&mut self, event: &[u8]) -> (r: Result<(), Error>)
        requires
            old(self).inv(),
            offsum(old(self).staged@.events, old(self).staged@.events.len() as int)
                + event@.len() <= u32::MAX,
            old(self).staged@.start_idx + old(self).staged@.events.len() + 1 <= u64::MAX,
        ensures
            final(self).same_shape(*old(self)),
            final(self).file.user_version == old(self).file.user_version,
            final(self).file.end_offset >= old(self).file.end_offset,
            final(self).file.end_offset % 8 == 0,
            match r {
                Ok(()) => {
                    let oldst = old(self).staged@;
                    let n = oldst.events.len() as int;
                    let newev = oldst.events.push(event@);
                    &&& final(self).inv()
                    &&& final(self).events() == old(self).events().push(event@)
                    &&& final(self).blocks@.len() > old(self).blocks@.len()
                    &&& final(self).blocks@[old(self).blocks@.len() as int].body
                        == (BlockBody::Leaf {
                        start_idx: oldst.start_idx,
                        count: newev.len() as u32,
                        cbytes: zstd_of(COMPRESSION_LEVEL as int, leaf_payload_of(newev)),
                    })
                    &&& final(self).blocks@[old(self).blocks@.len() as int].events() == newev
                    &&& fin_events(final(self).blocks@) == fin_events(old(self).blocks@) + newev
                    &&& final(self).staged@ == (StagingM {
                        last_block: final(self).blocks@.last().pos,
                        start_idx: (oldst.start_idx + n + 1) as u64,
                        events: Seq::<Seq<u8>>::empty(),
                    })
                    &&& final(self).file.end_offset > old(self).file.end_offset
                },
                Err(e) => e matches Error::NumericOverflow(_) && *final(self) == *old(self),
            },
            old(self).compress_fits(event@) ==> r is Ok,
            r is Ok && old(self).leaves_good() ==> final(self).leaves_good(),
    {
        let h = self.staging_header();
        let count = h.count;
        let ghost oldev = self.staged@.events;
        let ghost n = oldev.len() as int;
        let total = self.staging_jump(count);
        let elen = event.len();
        let new_end = total + elen as u32;
        let ghost newev = oldev.push(event@);
        proof {
            lemma_offsum_monotone(oldev, 0, n);
            assert(newev.drop_last() =~= oldev);
            assert forall|i: int| 0 <= i <= n + 1 implies offsum(newev, i) == if i <= n {
                offsum(oldev, i)
            } else {
                offsum(oldev, n) + event@.len()
            } by {
                if i <= n {
                    lemma_offsum_prefix(newev, oldev, i);
                } else {
                    lemma_offsum_prefix(newev, oldev, n);
                }
            }
        }
        // assemble the uncompressed payload: the jump table grown by the
        // new end position, then the event bytes, then the new event
        let sl = self.file.staging_len();
        proof {
            assert(32 + 4 * (self.block_event_limit as int) <= sl);
        }
        let jlen = 4 * (count as usize) + 4;
        let mut payload: Vec<u8> = Vec::new();
        let js = match self.file.staging_read(32, 32 + jlen) {
            Ok(js) => js,
            Err(_) => {
                proof {
                    assert(false);
                }
                return Err(Error::numeric_overflow("unreachable"));
            },
        };
        payload.extend_from_slice(js);
        push_be32(&mut payload, new_end);
        proof {
            let st = self.file.staging();
            lemma_be32(new_end, seq![0u8, 0, 0, 0]);
            reveal(crate::model::jump_enc);
            assert forall|k: int| 0 <= k < 4 * (n + 2) implies payload@[k]
                == crate::model::jump_enc(newev)[k] by {
                let i = k / 4;
                assert(0 <= i <= n + 1);
                if i <= n {
                    assert(slot_bytes(st, i) == be32(offsum(oldev, i) as u32));
                    assert(payload@[k] == st[32 + k]);
                    assert(st[32 + k] == slot_bytes(st, i)[k % 4]);
                } else {
                    assert(payload@[k] == be32(new_end)[k % 4]);
                }
            }
            assert(payload@.len() == 4 * (n + 2));
            assert(payload@ =~= crate::model::jump_enc(newev));
        }
        let es = self.staging_event_start();
        proof {
            assert(es + total <= sl);
        }
        let evb = match self.file.staging_read(es, es + total as usize) {
            Ok(evb) => evb,
            Err(_) => {
                proof {
                    assert(false);
                }
                return Err(Error::numeric_overflow("unreachable"));
            },
        };
        payload.extend_from_slice(evb);
        payload.extend_from_slice(event);
        proof {
            assert(concat_events(newev) == concat_events(oldev) + event@) by {
                assert(newev.last() == event@);
            }
            assert(payload@ =~= leaf_payload_of(newev));
            lemma_leaf_payload(newev);
        }
        let compressed = zstd_compress(payload.as_slice(), COMPRESSION_LEVEL);
        if compressed.len() > (u32::MAX - 24) as usize {
            return Err(Error::numeric_overflow("compression result too large"));
        }
        let length = compressed.len() as u32 + 24;
        // make sure the grown file fits the offset and address spaces, so
        // that nothing written from here on can fail
        let clen = compressed.len();
        let pad8 = (8 - clen % 8) % 8;
        let leaf_total: u64 = 48 + clen as u64 + pad8 as u64;
        let end0 = self.file.end_offset();
        if (end0 as u128) + (leaf_total as u128) + 17 * 304 > u64::MAX as u128 {
            return Err(Error::numeric_overflow("stream offset space exhausted"));
        }
        if 4096u128 + (end0 as u128) + (leaf_total as u128) + 17 * 304 + (es as u128) + (
        self.compression_threshold as u128) > usize::MAX as u128 {
            return Err(Error::numeric_overflow("file image exceeds the address space"));
        }
        proof {
            lemma_round8(clen as int);
            assert(leaf_total as int == 48 + crate::image::round8(clen as int));
        }
        let mut current = end0;
        // the new leaf block's bytes
        let bhdr = BlockHeader { prev_block: h.last_block, level: 0, length };
        let lhdr = LeafHeader { start_idx: h.start_idx, count: count + 1 };
        let mut bb: Vec<u8> = Vec::new();
        bhdr.write_into(&mut bb);
        lhdr.write_into(&mut bb);
        bb.extend_from_slice(compressed.as_slice());
        let ghost leaf = BlockM {
            pos: current,
            prev: h.last_block,
            level: 0,
            length,
            body: BlockBody::Leaf {
                start_idx: h.start_idx,
                count: (count + 1) as u32,
                cbytes: compressed@,
            },
        };
        proof {
            lemma_wf_all(self.blocks@);
            lemma_stream_enc_len(self.blocks@);
            assert(leaf.local_wf());
            assert(current as int == block_pos(self.blocks@, self.blocks@.len() as int));
            bhdr.lemma_enc();
            lhdr.lemma_enc();
            lemma_round8(bb@.len() as int);
            assert(bb@.len() == 48 + clen);
            assert((48 + clen as int) % 8 == (clen as int) % 8);
            assert(crate::image::round8(bb@.len() as int) == leaf_total);
        }
        match self.file.stream_append(bb.as_slice()) {
            Ok(()) => {},
            Err(e) => {
                proof {
                    assert(false);
                }
                return Err(e);
            },
        }
        let ghost prev_state = *old(self);
        let ghost bs0 = self.blocks@;
        let ghost old_len = bs0.len() as int;
        self.blocks = Ghost(self.blocks@.push(leaf));
        proof {
            lemma_enc_len(leaf);
            crate::model::lemma_blocks_wf_push(bs0, leaf);
            assert(self.file.stream() == stream_enc(self.blocks@)) by {
                reveal(crate::model::BlockM::enc);
                let pad = (crate::image::round8(bb@.len() as int) - bb@.len()) as nat;
                assert(leaf.enc() =~= bb@ + Seq::new(pad, |i: int| 0u8));
                assert(stream_enc(self.blocks@) == stream_enc(bs0) + leaf.enc()) by {
                    assert(self.blocks@.drop_last() =~= bs0);
                }
                assert(stream_enc(bs0) + (bb@ + Seq::new(pad, |i: int| 0u8)) =~= stream_enc(bs0)
                    + bb@ + Seq::new(pad, |i: int| 0u8));
            }
            self.lemma_cache_push(prev_state, leaf);
            crate::model::lemma_run_push(bs0, leaf, 0);
            assert forall|l: int| 0 <= l && l != 0 implies run(self.blocks@, l).len() <= 15 by {
                crate::model::lemma_run_push(bs0, leaf, l);
            }
            assert(fin_events(self.blocks@) == fin_events(bs0) + newev) by {
                assert(leaf.events() == payload_events(leaf.payload(), n + 1));
                assert(leaf.payload() == leaf_payload_of(newev));
                assert(payload_events(leaf_payload_of(newev), n + 1) == newev);
            }
            assert(leaf.good());
            if old(self).leaves_good() {
                assert forall|i2: int|
                    0 <= i2 < self.blocks@.len() && (#[trigger] self.blocks@[i2]).is_leaf() implies
                    self.blocks@[i2].good() by {
                    if i2 < bs0.len() {
                        assert(self.blocks@[i2] == bs0[i2]);
                    }
                }
            }
        }
        // the branch cascade
        let mut level: u32 = 1;
        loop
            invariant
                self.inv_core(),
                self.same_shape(*old(self)),
                self.staged == old(self).staged,
                self.blocks@.len() >= 1,
                1 <= level <= 17,
                current == self.blocks@.last().pos,
                self.blocks@.last().level as int == level as int - 1,
                forall|l: int| 0 <= l && l != level as int - 1 ==> #[trigger] run(
                    self.blocks@,
                    l,
                ).len() <= 15,
                run(self.blocks@, level as int - 1).len() <= 16,
                fin_events(self.blocks@) == fin_events(old(self).blocks@) + newev,
                old(self).leaves_good() ==> (forall|i2: int|
                    0 <= i2 < self.blocks@.len() && (#[trigger] self.blocks@[i2]).is_leaf()
                        ==> self.blocks@[i2].good()),
                newev == old(self).staged@.events.push(event@),
                old(self).staged@.start_idx + newev.len() <= u64::MAX,
                old(self).staged@.start_idx == fin_events(old(self).blocks@).len(),
                0 <= old_len < self.blocks@.len(),
                self.blocks@[old_len] == leaf,
                leaf.body == (BlockBody::Leaf {
                    start_idx: old(self).staged@.start_idx,
                    count: newev.len() as u32,
                    cbytes: zstd_of(COMPRESSION_LEVEL as int, leaf_payload_of(newev)),
                }),
                leaf.events() == newev,
                end0 == old(self).file.end_offset,
                (end0 as int) + leaf_total + 17 * 304 <= u64::MAX,
                4096 + (end0 as int) + leaf_total + 17 * 304 + self.event_start_spec()
                    + self.compression_threshold <= usize::MAX,
                (end0 as int) + leaf_total <= self.file.end_offset,
                self.file.end_offset as int <= (end0 as int) + leaf_total + 304 * (level as int
                    - 1),
            ensures
                self.inv_core(),
                self.same_shape(*old(self)),
                self.staged == old(self).staged,
                crate::model::runs_bounded(self.blocks@),
                self.blocks@.len() >= 1,
                current == self.blocks@.last().pos,
                fin_events(self.blocks@) == fin_events(old(self).blocks@) + newev,
                0 <= old_len < self.blocks@.len(),
                self.blocks@[old_len] == leaf,
                (end0 as int) + leaf_total <= self.file.end_offset,
                self.file.end_offset as int + self.event_start_spec()
                    + self.compression_threshold + 4096 <= usize::MAX,
            decreases crate::model::count_ge_range(
                self.blocks@,
                0,
                self.blocks@.len() as int,
                level as int - 1,
            ),
        {
            let ghost bs = self.blocks@;
            let ghost hi = bs.len() as int;
            let ghost q = prev_ge(bs, hi, level as int);
            let ghost ks = kids(bs, q + 1, hi, level as int - 1);
            proof {
                crate::model::lemma_count_ge_range_level(bs, 0, hi, level as int - 1);
                crate::model::lemma_prev_gt_ge(bs, hi, level as int - 1);
                assert(run(bs, level as int - 1) == ks);
            }
            let cr = self.collect_run(current, level);
            let entries = cr.0;
            let prev_idx = cr.1;
            let end_idx = cr.2;
            if entries.len() < 16 {
                proof {
                    assert(crate::model::runs_bounded(self.blocks@)) by {
                        assert(run(bs, level as int - 1).len() <= 15);
                        assert forall|l: int| 0 <= l implies #[trigger] run(bs, l).len()
                            <= 15 by {
                            if l != level as int - 1 {
                                assert(run(bs, l).len() <= 15);
                            }
                        }
                    }
                }
                break ;
            }
            // a full run of sixteen blocks covers at least the sixteenth
            // power of the fan-out, so the level stays small
            proof {
                lemma_prev_ge_facts(bs, hi, level as int);
                crate::model::lemma_kids_span_sum(bs, q, hi, level as int - 1, 15);
                crate::model::lemma_kids_range(bs, q + 1, hi, level as int - 1);
                lemma_kids_complete(bs, q + 1, hi, level as int - 1);
                assert(ks.contains(hi - 1));
                let u = choose|u: int| 0 <= u < ks.len() && ks[u] == hi - 1;
                if u < ks.len() - 1 {
                    lemma_kids_sorted_le(bs, q + 1, hi, level as int - 1, u, ks.len() - 1);
                }
                assert(ks[15] == hi - 1);
                crate::model::lemma_span_hi_le_fin(bs, hi - 1);
                crate::model::lemma_span_nonempty(bs, ks[0]);
                assert(bs[hi - 1].span_hi() - bs[ks[0]].span_lo() >= 16 * crate::model::pow16(
                    level as int - 1,
                ));
                assert(crate::model::pow16(level as int) <= u64::MAX) by {
                    assert(16 * crate::model::pow16(level as int - 1) == crate::model::pow16(
                        level as int,
                    ));
                    assert(fin_events(bs).len() <= u64::MAX);
                }
                assert(level < 17) by {
                    if level >= 17 {
                        crate::model::lemma_pow16_17();
                        crate::model::lemma_pow16_mono(17, level as int);
                        assert(false);
                    }
                }
            }
            // children are stored oldest first
            let mut rev: Vec<IndexEntry> = Vec::new();
            let mut k: usize = entries.len();
            while k > 0
                invariant
                    0 <= k <= entries@.len() == 16,
                    rev@.len() == 16 - k,
                    forall|u: int| 0 <= u < rev@.len() ==> #[trigger] rev@[u] == entries@[15 - u],
                decreases k,
            {
                k = k - 1;
                rev.push(entries[k]);
            }
            let next_current = self.file.end_offset();
            let bhdr2 = BlockHeader { prev_block: current, level, length: 280 };
            let brh = BranchHeader { prev_offset: prev_idx, end_idx };
            let mut bb2: Vec<u8> = Vec::new();
            bhdr2.write_into(&mut bb2);
            brh.write_into(&mut bb2);
            proof {
                bhdr2.lemma_enc();
                brh.lemma_enc();
                reveal(crate::model::entries_enc);
                assert(crate::model::entries_enc(rev@.take(0)) =~= Seq::<u8>::empty());
                assert(bb2@ =~= bhdr2.enc() + brh.enc() + crate::model::entries_enc(rev@.take(
                    0,
                )));
            }
            let mut u: usize = 0;
            while u < 16
                invariant
                    0 <= u <= 16,
                    rev@.len() == 16,
                    bb2@.len() == 48 + 16 * u,
                    bb2@ == bhdr2.enc() + brh.enc() + crate::model::entries_enc(rev@.take(
                        u as int,
                    )),
                decreases 16 - u,
            {
                let e = rev[u];
                proof {
                    e.lemma_enc();
                    bhdr2.lemma_enc();
                    brh.lemma_enc();
                }
                e.write_into(&mut bb2);
                proof {
                    assert(bb2@ =~= bhdr2.enc() + brh.enc() + crate::model::entries_enc(
                        rev@.take(u as int + 1),
                    )) by {
                        reveal(crate::model::entries_enc);
                        assert(crate::model::entries_enc(rev@.take(u as int + 1))
                            =~= crate::model::entries_enc(rev@.take(u as int)) + rev@[u as int].enc());
                    }
                }
                u = u + 1;
            }
            let ghost branch = BlockM {
                pos: next_current,
                prev: current,
                level,
                length: 280,
                body: BlockBody::Branch { prev_offset: prev_idx, end_idx, entries: rev@ },
            };
            proof {
                lemma_wf_all(bs);
                lemma_wf_at(bs, hi - 1);
                lemma_stream_enc_len(bs);
                assert(branch.local_wf());
                assert(next_current as int == block_pos(bs, hi));
                assert(crate::model::push_ok(bs, branch)) by {
                    assert forall|t: int| 0 <= t < 16 implies (#[trigger] rev@[t]).offset
                        == bs[ks[t]].pos && rev@[t].start_idx as int == bs[ks[t]].span_lo() by {
                        assert(rev@[t] == entries@[15 - t]);
                        assert(ks.len() - 1 - (15 - t) == t);
                    }
                    assert(end_idx as int == bs.last().span_hi());
                }
                lemma_round8(bb2@.len() as int);
            }
            match self.file.stream_append(bb2.as_slice()) {
                Ok(()) => {},
                Err(e) => {
                    proof {
                        assert(false);
                    }
                    return Err(e);
                },
            }
            let ghost prev_state2 = Self {
                file: prev_state.file,
                ..*self
            };
            let ghost bs1 = self.blocks@;
            self.blocks = Ghost(self.blocks@.push(branch));
            proof {
                lemma_enc_len(branch);
                crate::model::lemma_blocks_wf_push(bs1, branch);
                assert(self.file.stream() == stream_enc(self.blocks@)) by {
                    reveal(crate::model::BlockM::enc);
                    assert(bb2@.len() == 304);
                    assert(branch.enc() =~= bb2@);
                    assert(stream_enc(self.blocks@) == stream_enc(bs1) + branch.enc()) by {
                        assert(self.blocks@.drop_last() =~= bs1);
                    }
                    assert(stream_enc(bs1) + bb2@ + Seq::new(0nat, |i: int| 0u8) =~= stream_enc(
                        bs1,
                    ) + branch.enc());
                }
                self.lemma_cache_push(prev_state2, branch);
                assert forall|l: int| 0 <= l && l != level as int implies #[trigger] run(
                    self.blocks@,
                    l,
                ).len() <= 15 by {
                    crate::model::lemma_run_push(bs1, branch, l);
                    if l < level as int {
                        assert(run(self.blocks@, l) =~= Seq::<int>::empty());
                    } else {
                        assert(run(self.blocks@, l) == run(bs1, l));
                    }
                }
                assert(run(self.blocks@, level as int).len() <= 16) by {
                    crate::model::lemma_run_push(bs1, branch, level as int);
                }
                assert(fin_events(self.blocks@) == fin_events(bs1)) by {
                    crate::model::lemma_fin_events_push(bs1, branch);
                    assert(fin_events(bs1) + branch.events() =~= fin_events(bs1));
                }
                if old(self).leaves_good() {
                    assert forall|i2: int|
                        0 <= i2 < self.blocks@.len() && (#[trigger] self.blocks@[i2]).is_leaf()
                            implies self.blocks@[i2].good() by {
                        if i2 < bs1.len() {
                            assert(self.blocks@[i2] == bs1[i2]);
                        }
                    }
                }
                assert(self.blocks@ == bs1.push(branch));
                assert(0 <= old_len < bs1.len());
                assert(self.blocks@[old_len] == bs1[old_len]);
                // the measure shrinks
                lemma_prev_ge_facts(bs1, hi, level as int);
                crate::model::lemma_count_ge_range_push(bs1, branch, level as int);
                crate::model::lemma_count_ge_range_kids(bs1, q + 1, hi, level as int - 1);
                crate::model::lemma_count_ge_range_split(bs1, 0, q + 1, hi, level as int - 1);
                crate::model::lemma_count_ge_range_split(bs1, 0, q + 1, hi, level as int);
                crate::model::lemma_count_ge_range_level(bs1, 0, q + 1, level as int - 1);
                crate::model::lemma_count_ge_range_level(bs1, q + 1, hi, level as int - 1);
                crate::model::lemma_count_ge_range_level(bs1, 0, q + 1, level as int);
                crate::model::lemma_count_ge_range_level(
                    self.blocks@,
                    0,
                    hi + 1,
                    level as int,
                );
                assert(crate::model::count_ge_range(self.blocks@, 0, hi + 1, level as int)
                    < crate::model::count_ge_range(bs1, 0, hi, level as int - 1));
            }
            current = next_current;
            level = level + 1;
        }
        // reset staging for the events after the flushed batch
        let new_start = h.start_idx + (count as u64 + 1);
        let ghost bs_end = self.blocks@;
        match self.prep_staging(current, new_start) {
            Ok(()) => {
                proof {
                    assert(final(self).events() =~= old(self).events().push(event@));
                    assert(final(self).blocks@[old(self).blocks@.len() as int].events()
                        == newev);
                }
                Ok(())
            },
            Err(e) => {
                proof {
                    assert(false);
                }
                Err(e)
            },
        }
    }
}

impl<C: Cache> EventFile<C> {
    /// Opens a log over the given file image bytes.
    ///
    /// Bytes shorter than the header region create a fresh, empty log.
    /// Otherwise the header is validated — a bad magic fails with
    /// `DataCorruption`, a stream version other than 1 with
    /// `WrongStreamVersion`, a different user version with
    /// `WrongUserVersion` — the stream region is scanned back into the
    /// block model, and the staging area is re-read as-is.  An image that
    /// this log family could not have written is refused with
    /// `DataCorruption`; an image it did write always reopens to the same
    /// events.
    #[verifier::rlimit(100)]
    #[verifier::spinoff_prover]
    pub fn new(
        id: u32,
        bytes: Vec<u8>,
        user_version: u32,
        compression_threshold: usize,
        block_event_limit: u32,
        cache: C,
    ) -> (r: Result<Self, Error>)
        ensures
            match r {
                Ok(ef) => {
                    &&& ef.inv()
                    &&& ef.id == id
                    &&& ef.block_event_limit == block_event_limit
                    &&& ef.compression_threshold == compression_threshold
                    &&& ef.file.user_version == user_version
                    &&& ef.cache == cache
                    &&& (bytes@.len() < 4096 ==> ef.events() == Seq::<Seq<u8>>::empty()
                        && ef.blocks@ == Seq::<BlockM>::empty() && ef.file.end_offset == 0)
                    &&& (forall|mbs: Seq<BlockM>, msm: StagingM| #[trigger] image_matches(
                        bytes@,
                        user_version,
                        block_event_limit,
                        mbs,
                        msm,
                    ) ==> ef.blocks@ == mbs && ef.staged@ == msm && ef.file.data@ == bytes@
                        && ef.events() == fin_events(mbs) + msm.events)
                },
                Err(e) => e matches Error::DataCorruption { .. } || e matches
                    Error::WrongStreamVersion(_) || e matches Error::WrongUserVersion { .. }
                    || e matches Error::NumericOverflow(_),
            },
            bytes@.len() >= 4096 && bytes@.subrange(0, 8)
                == crate::records::MmapFileHeader::magic() && crate::records::MmapFileHeader::dec(
                bytes@.subrange(0, 32),
            ).stream_version == 1 && crate::records::MmapFileHeader::dec(
                bytes@.subrange(0, 32),
            ).user_version != user_version && crate::image::valid_header_bounds(bytes@)
                && block_event_limit >= 2 && 4096 + 32 + 4 * (block_event_limit as int)
                + compression_threshold <= usize::MAX ==> r == Result::<Self, Error>::Err(
                Error::WrongUserVersion {
                    expected: user_version,
                    found: crate::records::MmapFileHeader::dec(
                        bytes@.subrange(0, 32),
                    ).user_version,
                },
            ),
            (bytes@.len() < 4096 || (exists|mbs: Seq<BlockM>, msm: StagingM| image_matches(
                bytes@,
                user_version,
                block_event_limit,
                mbs,
                msm,
            ))) && block_event_limit >= 2 && 4096 + 32 + 4 * (block_event_limit as int)
                + compression_threshold <= usize::MAX ==> r is Ok,
    {
        if block_event_limit < 2 {
            return Err(Error::numeric_overflow("block event limit must be at least 2"));
        }
        if (4096u128 + 32 + 4 * (block_event_limit as u128) + compression_threshold as u128)
            > usize::MAX as u128 {
            return Err(Error::numeric_overflow("staging layout exceeds the address space"));
        }
        let ghost had_match = exists|mbs: Seq<BlockM>, msm: StagingM|
            image_matches(bytes@, user_version, block_event_limit, mbs, msm);
        let img = match FileImage::from_bytes(bytes, user_version) {
            Ok(img) => img,
            Err(e) => {
                proof {
                    if had_match {
                        let (mbs, msm) = choose|mbs: Seq<BlockM>, msm: StagingM|
                            image_matches(bytes@, user_version, block_event_limit, mbs, msm);
                        assert(crate::image::valid_header_bounds(bytes@));
                        assert(false);
                    }
                }
                return Err(e);
            },
        };
        if img.end_offset() > 0 && img.start_offset != 0 {
            proof {
                if had_match {
                    let (mbs, msm) = choose|mbs: Seq<BlockM>, msm: StagingM|
                        image_matches(bytes@, user_version, block_event_limit, mbs, msm);
                    assert(img.header_spec() == crate::records::MmapFileHeader::dec(
                        bytes@.subrange(0, 32),
                    )) by {
                        img.header_spec().lemma_enc();
                    }
                    assert(false);
                }
            }
            return Err(
                Error::data_corruption(
                    "a forgotten prefix is not supported",
                    img.start_offset,
                    0,
                ),
            );
        }
        if img.start_offset != 0 {
            // an empty stream with a nonzero start has no stored bytes at all
            proof {
                if had_match {
                    let (mbs, msm) = choose|mbs: Seq<BlockM>, msm: StagingM|
                        image_matches(bytes@, user_version, block_event_limit, mbs, msm);
                    assert(img.header_spec() == crate::records::MmapFileHeader::dec(
                        bytes@.subrange(0, 32),
                    )) by {
                        img.header_spec().lemma_enc();
                    }
                    assert(false);
                }
                assert(bytes@.len() >= 4096);
            }
            return Err(
                Error::data_corruption(
                    "a forgotten prefix is not supported",
                    img.start_offset,
                    0,
                ),
            );
        }
        proof {
            if had_match && bytes@.len() >= 4096 {
                let (mbs, msm) = choose|mbs: Seq<BlockM>, msm: StagingM|
                    image_matches(bytes@, user_version, block_event_limit, mbs, msm);
                assert(image_matches(
                    img.data@,
                    img.user_version,
                    block_event_limit,
                    mbs,
                    msm,
                ));
            }
            if bytes@.len() < 4096 {
                assert(!had_match);
            }
        }
        let scanned = match scan_stream(&img, block_event_limit) {
            Ok(scanned) => scanned,
            Err(e) => {
                proof {
                    if had_match {
                        let (mbs, msm) = choose|mbs: Seq<BlockM>, msm: StagingM|
                            image_matches(bytes@, user_version, block_event_limit, mbs, msm);
                        assert(false);
                    }
                    if bytes@.len() < 4096 {
                        assert(false);
                    }
                }
                return Err(e);
            },
        };
        let fin = scanned.0;
        let lastp = scanned.1;
        let ghost gbs = scanned.2@;
        let mut ef = EventFile {
            file: img,
            id,
            compression_threshold,
            block_event_limit,
            cache,
            cached: Vec::new(),
            blocks: Ghost(gbs),
            staged: Ghost(StagingM { last_block: lastp, start_idx: fin, events: Seq::empty() }),
            cached_pl: Ghost(Map::empty()),
        };
        proof {
            assert(ef.cache_wf());
            assert(ef.inv_core());
        }
        let sl = ef.file.staging_len();
        if sl == 0 {
            // no staging bytes: initialize a fresh staging area
            proof {
                assert forall|mbs: Seq<BlockM>, msm: StagingM|
                    !image_matches(bytes@, user_version, block_event_limit, mbs, msm) by {
                    if image_matches(bytes@, user_version, block_event_limit, mbs, msm) {
                        let n = msm.events.len() as int;
                        lemma_offsum_monotone(msm.events, 0, n);
                        assert(bytes@.len() >= 4096);
                        assert(ef.file.data@ == bytes@);
                        assert(ef.file.end_offset as int == crate::records::MmapFileHeader::dec(
                            bytes@.subrange(0, 32),
                        ).end_offset) by {
                            ef.file.header_spec().lemma_enc();
                        }
                        assert(ef.file.staging() =~= bytes@.subrange(
                            4096 + ef.file.end_offset as int,
                            bytes@.len() as int,
                        ));
                        assert(false);
                    }
                }
            }
            match ef.prep_staging(lastp, fin) {
                Ok(()) => {},
                Err(e) => {
                    proof {
                        if bytes@.len() < 4096 {
                            assert(false);
                        }
                    }
                    return Err(e);
                },
            }
            proof {
                if bytes@.len() < 4096 {
                    assert(ef.blocks@ =~= Seq::<BlockM>::empty()) by {
                        if ef.blocks@.len() > 0 {
                            crate::model::lemma_wf_all(ef.blocks@);
                            lemma_stream_enc_len(ef.blocks@);
                            crate::model::lemma_enc_len(ef.blocks@[0]);
                            crate::model::lemma_block_pos_mono_weak(
                                ef.blocks@,
                                1,
                                ef.blocks@.len() as int,
                            );
                            assert(crate::model::block_pos(ef.blocks@, 0) == 0);
                            assert(crate::model::block_pos(ef.blocks@, 1)
                                == ef.blocks@[0].total_len());
                            assert(false);
                        }
                    }
                    assert(ef.events() =~= Seq::<Seq<u8>>::empty());
                }
            }
            Ok(ef)
        } else {
            let gsm = match scan_staging(
                &ef.file,
                block_event_limit,
                fin,
                lastp,
                Ghost(ef.blocks@),
            ) {
                Ok(gsm) => gsm,
                Err(e) => {
                    proof {
                        if had_match {
                            let (mbs, msm) = choose|mbs: Seq<BlockM>, msm: StagingM|
                                image_matches(bytes@, user_version, block_event_limit, mbs, msm);
                            assert(mbs == gbs);
                            assert(false);
                        }
                    }
                    return Err(e);
                },
            };
            ef.staged = Ghost(gsm@);
            proof {
                assert(ef.staging_ok(2)) by {
                    assert(staging_matches(
                        ef.file.staging(),
                        block_event_limit,
                        ef.blocks@,
                        ef.staged@,
                    ));
                }
                assert(ef.inv());
                assert(bytes@.len() >= 4096 ==> ef.file.data@ == bytes@);
                assert forall|mbs: Seq<BlockM>, msm: StagingM| #[trigger] image_matches(
                    bytes@,
                    user_version,
                    block_event_limit,
                    mbs,
                    msm,
                ) implies ef.blocks@ == mbs && ef.staged@ == msm && ef.file.data@ == bytes@
                    && ef.events() == fin_events(mbs) + msm.events by {
                    assert(bytes@.len() >= 4096);
                    assert(image_matches(
                        ef.file.data@,
                        ef.file.user_version,
                        block_event_limit,
                        mbs,
                        msm,
                    ));
                }
                if bytes@.len() < 4096 {
                    assert(ef.file.data@.len() == 4096);
                    assert(false) by {
                        assert(ef.file.staging().len() == 0);
                    }
                }
            }
            Ok(ef)
        }
    }
}

/// What it means for a byte image to store a given block model and staging
/// model under a given user version and jump-table capacity.
pub open spec fn staging_matches(st: Seq<u8>, cap: u32, bs: Seq<BlockM>, sm: StagingM) -> bool {
    let n = sm.events.len() as int;
    let es = 32 + 4 * (cap as int);
    &&& cap >= 2
    &&& n + 2 <= cap
    &&& offsum(sm.events, n) <= u32::MAX
    &&& sm.last_block == if bs.len() == 0 {
        u64::MAX
    } else {
        bs.last().pos
    }
    &&& sm.start_idx == fin_events(bs).len()
    &&& sm.start_idx + n <= u64::MAX
    &&& st.len() >= es + offsum(sm.events, n)
    &&& st.subrange(0, 32) == (StagingHeader {
        last_block: sm.last_block,
        start_idx: sm.start_idx,
        count: n as u32,
        capacity: cap,
    }).enc()
    &&& (forall|i: int| 0 <= i <= n ==> #[trigger] slot_bytes(st, i) == be32(
        offsum(sm.events, i) as u32,
    ))
    &&& st.subrange(es, es + offsum(sm.events, n)) == concat_events(sm.events)
}

/// A byte image stores exactly the given models: a valid header for the
/// version, the stream region as the encoded blocks, and the staging region
/// as the staged events.
pub open spec fn image_matches(
    data: Seq<u8>,
    user_version: u32,
    cap: u32,
    bs: Seq<BlockM>,
    sm: StagingM,
) -> bool {
    let h = crate::records::MmapFileHeader::dec(data.subrange(0, 32));
    &&& data.len() >= 4096
    &&& data.subrange(0, 8) == crate::records::MmapFileHeader::magic()
    &&& h.stream_version == 1
    &&& h.user_version == user_version
    &&& h.start_offset == 0
    &&& h.end_offset <= data.len() - 4096
    &&& h.end_offset % 8 == 0
    &&& data.subrange(4096, 4096 + h.end_offset) == stream_enc(bs)
    &&& blocks_wf(bs)
    &&& crate::model::runs_bounded(bs)
    &&& staging_matches(data.subrange(4096 + h.end_offset, data.len() as int), cap, bs, sm)
}

/// A matching model's next block agrees with the bytes at the scan front.
#[verifier::rlimit(100)]
#[verifier::spinoff_prover]
proof fn lemma_model_block(
    img: FileImage,
    cap: u32,
    mbs: Seq<BlockM>,
    msm: StagingM,
    bs: Seq<BlockM>,
)
    requires
        img.wf(),
        img.start_offset == 0,
        image_matches(img.data@, img.user_version, cap, mbs, msm),
        mbs.len() >= bs.len(),
        mbs.take(bs.len() as int) == bs,
        stream_enc(bs).len() < img.stream().len(),
        forall|j: int| 0 <= j < bs.len() ==> (#[trigger] bs[j]).local_wf(),
    ensures
        ({
            let k = bs.len() as int;
            let pos = stream_enc(bs).len() as int;
            &&& k < mbs.len()
            &&& mbs[k].pos as int == pos
            &&& wf_at(mbs, k)
            &&& mbs[k].local_wf()
            &&& mbs[k].level < 17
            &&& pos + mbs[k].total_len() <= img.stream().len()
            &&& img.stream().subrange(pos, pos + 24) == (BlockHeader {
                prev_block: mbs[k].prev,
                level: mbs[k].level,
                length: mbs[k].length,
            }).enc()
            &&& mbs[k].prev == if k == 0 {
                u64::MAX
            } else {
                bs[k - 1].pos
            }
            &&& (mbs[k].body matches BlockBody::Leaf { start_idx, count, cbytes } ==> {
                &&& img.stream().subrange(pos + 24, pos + 48) == (LeafHeader {
                    start_idx,
                    count,
                }).enc()
                &&& cbytes == img.stream().subrange(pos + 48, pos + 24 + mbs[k].length)
                &&& img.stream().subrange(pos + 24 + mbs[k].length, pos + mbs[k].total_len())
                    == Seq::new(
                    (crate::image::round8(cbytes.len() as int) - cbytes.len()) as nat,
                    |j: int| 0u8,
                )
                &&& start_idx == fin_events(bs).len()
                &&& count >= 1
                &&& start_idx + count <= u64::MAX
            })
            &&& (mbs[k].body matches BlockBody::Branch { prev_offset, end_idx, entries } ==> {
                let lvl = mbs[k].level as int;
                let q = prev_ge(bs, k, lvl);
                let ks = kids(bs, q + 1, k, lvl - 1);
                &&& img.stream().subrange(pos + 24, pos + 48) == (BranchHeader {
                    prev_offset,
                    end_idx,
                }).enc()
                &&& (forall|t: int| 0 <= t < 16 ==> img.stream().subrange(
                    pos + 48 + 16 * t,
                    pos + 48 + 16 * t + 16,
                ) == (#[trigger] entries[t]).enc())
                &&& k >= 1
                &&& bs[k - 1].level as int == lvl - 1
                &&& mbs[k].length == 280
                &&& entries.len() == 16
                &&& ks.len() == 16
                &&& prev_offset == if q == -1 {
                    u64::MAX
                } else {
                    bs[q].pos
                }
                &&& (forall|t: int| 0 <= t < 16 ==> (#[trigger] entries[t]).offset == bs[
                    ks[t]
                ].pos && entries[t].start_idx as int == bs[ks[t]].span_lo())
                &&& end_idx as int == fin_events(bs).len()
            })
        }),
{
    let k = bs.len() as int;
    let hdr = crate::records::MmapFileHeader::dec(img.data@.subrange(0, 32));
    assert(hdr == img.header_spec()) by {
        img.header_spec().lemma_enc();
    }
    assert(img.stream() == stream_enc(mbs)) by {
        assert(img.stream() =~= img.data@.subrange(4096, 4096 + img.end_offset as int));
    }
    crate::model::lemma_wf_all(mbs);
    crate::model::lemma_stream_enc_len(bs);
    crate::model::lemma_stream_enc_len(mbs);
    if k >= mbs.len() {
        assert(mbs.take(k) =~= mbs);
        assert(false);
    }
    crate::model::lemma_block_pos_prefix(mbs, bs, k);
    assert(block_pos(mbs, k) == stream_enc(bs).len());
    lemma_wf_at(mbs, k);
    crate::model::lemma_block_bytes(mbs, k);
    crate::model::lemma_block_pos_mono(mbs, k, mbs.len() as int);
    lemma_enc_len(mbs[k]);
    // the level is bounded by the index space
    assert(mbs[k].level < 17) by {
        crate::model::lemma_span_pow(mbs, k);
        crate::model::lemma_span_hi_le_fin(mbs, k);
        crate::model::lemma_span_nonempty(mbs, k);
        assert(fin_events(mbs).len() <= u64::MAX);
        if mbs[k].level >= 17 {
            crate::model::lemma_pow16_17();
            crate::model::lemma_pow16_mono(17, mbs[k].level as int);
            assert(false);
        }
    }
    match mbs[k].body {
        BlockBody::Leaf { start_idx, count, cbytes } => {
            crate::model::lemma_fin_events_take(mbs, bs, k);
            assert(bs.take(k) =~= bs);
            assert(fin_events(bs.take(k)) == fin_events(bs));
        },
        BlockBody::Branch { prev_offset, end_idx, entries } => {
            assert(branch_wf(mbs, k));
            let lvl = mbs[k].level as int;
            lemma_prev_ge_facts(mbs, k, lvl);
            crate::model::lemma_prev_ge_prefix(mbs, bs, k, lvl);
            crate::model::lemma_kids_prefix(mbs, bs, prev_ge(bs, k, lvl) + 1, k, lvl - 1);
            lemma_kids_range(bs, prev_ge(bs, k, lvl) + 1, k, lvl - 1);
            crate::model::lemma_prefix_fin(mbs, k);
            crate::model::lemma_fin_events_take(mbs, bs, k);
            assert(bs.take(k) =~= bs);
        },
    }
}

/// A matching model's next block agrees with the scan state: it sits at
/// the scan front, is well formed, and its records are the bytes there.
pub open spec fn scan_agrees(
    img: FileImage,
    cap: u32,
    mbs: Seq<BlockM>,
    msm: StagingM,
    bs: Seq<BlockM>,
) -> bool {
    let k = bs.len() as int;
    let pos = stream_enc(bs).len() as int;
    &&& k < mbs.len()
    &&& mbs[k].pos as int == pos
    &&& wf_at(mbs, k)
    &&& mbs[k].local_wf()
    &&& mbs[k].level < 17
    &&& pos + mbs[k].total_len() <= img.stream().len()
    &&& img.stream().subrange(pos, pos + 24) == (BlockHeader {
        prev_block: mbs[k].prev,
        level: mbs[k].level,
        length: mbs[k].length,
    }).enc()
    &&& mbs[k].prev == if k == 0 {
        u64::MAX
    } else {
        bs[k - 1].pos
    }
    &&& (mbs[k].body matches BlockBody::Leaf { start_idx, count, cbytes } ==> {
        &&& img.stream().subrange(pos + 24, pos + 48) == (LeafHeader { start_idx, count }).enc()
        &&& cbytes == img.stream().subrange(pos + 48, pos + 24 + mbs[k].length)
        &&& img.stream().subrange(pos + 24 + mbs[k].length, pos + mbs[k].total_len())
            == Seq::new(
            (crate::image::round8(cbytes.len() as int) - cbytes.len()) as nat,
            |j: int| 0u8,
        )
        &&& start_idx == fin_events(bs).len()
        &&& count >= 1
        &&& start_idx + count <= u64::MAX
    })
    &&& (mbs[k].body matches BlockBody::Branch { prev_offset, end_idx, entries } ==> {
        let lvl = mbs[k].level as int;
        let q = prev_ge(bs, k, lvl);
        let ks = kids(bs, q + 1, k, lvl - 1);
        &&& img.stream().subrange(pos + 24, pos + 48) == (BranchHeader {
            prev_offset,
            end_idx,
        }).enc()
        &&& (forall|t: int| 0 <= t < 16 ==> img.stream().subrange(
            pos + 48 + 16 * t,
            pos + 48 + 16 * t + 16,
        ) == (#[trigger] entries[t]).enc())
        &&& k >= 1
        &&& bs[k - 1].level as int == lvl - 1
        &&& mbs[k].length == 280
        &&& entries.len() == 16
        &&& ks.len() == 16
        &&& prev_offset == if q == -1 {
            u64::MAX
        } else {
            bs[q].pos
        }
        &&& (forall|t: int| 0 <= t < 16 ==> (#[trigger] entries[t]).offset == bs[ks[t]].pos
            && entries[t].start_idx as int == bs[ks[t]].span_lo())
        &&& end_idx as int == fin_events(bs).len()
    })
}

/// Walks the stream region from the front, rebuilding and validating the
/// block model: every header parses, links to its predecessor, numbers its
/// events contiguously, and every branch indexes exactly the run of sixteen
/// blocks one level below it.  Returns the finalized event count, the last
/// block's offset, and the model; rejecting means no model matches the
/// image at all.
#[verifier::rlimit(100)]
#[verifier::spinoff_prover]
fn scan_stream(img: &FileImage, cap: u32) -> (r: Result<(u64, u64, Ghost<Seq<BlockM>>), Error>)
    requires
        img.wf(),
        img.start_offset == 0,
    ensures
        match r {
            Ok((fin, lastp, gbs)) => {
                &&& img.stream() == stream_enc(gbs@)
                &&& blocks_wf(gbs@)
                &&& crate::model::runs_bounded(gbs@)
                &&& fin == fin_events(gbs@).len()
                &&& lastp == (if gbs@.len() == 0 {
                    u64::MAX
                } else {
                    gbs@.last().pos
                })
                &&& forall|mbs: Seq<BlockM>, msm: StagingM| #[trigger] image_matches(
                    img.data@,
                    img.user_version,
                    cap,
                    mbs,
                    msm,
                ) ==> mbs == gbs@
            },
            Err(e) => e matches Error::DataCorruption { .. } && (forall|
                mbs: Seq<BlockM>,
                msm: StagingM,
            |
                !image_matches(img.data@, img.user_version, cap, mbs, msm)),
        },
        img.end_offset == 0 ==> r is Ok,
{
    let end = img.end_offset();
    let mut off: u64 = 0;
    let mut fin: u64 = 0;
    let mut lastp: u64 = u64::MAX;
    let mut last_level: u32 = 0;
    let mut lastpos: Vec<u64> = Vec::new();
    let mut runs: Vec<Vec<IndexEntry>> = Vec::new();
    let mut li: usize = 0;
    while li < 64
        invariant
            0 <= li <= 64,
            lastpos@.len() == li,
            runs@.len() == li,
            forall|l: int| 0 <= l < li ==> lastpos@[l] == u64::MAX,
            forall|l: int| 0 <= l < li ==> (#[trigger] runs@[l])@.len() == 0,
        decreases 64 - li,
    {
        lastpos.push(u64::MAX);
        runs.push(Vec::new());
        li += 1;
    }
    let ghost mut bs: Seq<BlockM> = Seq::empty();
    proof {
        assert(stream_enc(bs).len() == 0);
        assert(img.stream().subrange(0, 0) =~= stream_enc(bs));
    }
    loop
        invariant_except_break
            off <= end,
        invariant
            img.wf(),
            img.start_offset == 0,
            end == img.end_offset,
            off == stream_enc(bs).len(),
            img.stream().subrange(0, off as int) == stream_enc(bs),
            blocks_wf(bs),
            forall|i: int| 0 <= i < bs.len() ==> (#[trigger] bs[i]).level < 64,
            fin == fin_events(bs).len(),
            bs.len() == 0 ==> lastp == u64::MAX && fin == 0 && off == 0,
            bs.len() > 0 ==> bs.last().pos == lastp && bs.last().level == last_level
                && bs.last().span_hi() == fin && off > 0,
            lastpos@.len() == 64,
            runs@.len() == 64,
            forall|l: int| 0 <= l < 64 ==> #[trigger] lastpos@[l] == (if prev_ge(
                bs,
                bs.len() as int,
                l,
            ) == -1 {
                u64::MAX
            } else {
                bs[prev_ge(bs, bs.len() as int, l)].pos
            }),
            forall|l: int| l >= 64 ==> #[trigger] prev_ge(bs, bs.len() as int, l) == -1,
            forall|l: int| 0 <= l < 64 ==> (#[trigger] runs@[l])@.len() == run(bs, l).len(),
            forall|l: int, t: int|
                #![trigger runs@[l]@[t]]
                0 <= l < 64 && 0 <= t < run(bs, l).len() ==> runs@[l]@[t].offset == bs[run(
                    bs,
                    l,
                )[t]].pos && runs@[l]@[t].start_idx as int == bs[run(bs, l)[t]].span_lo(),
            forall|mbs: Seq<BlockM>, msm: StagingM| #[trigger] image_matches(
                img.data@,
                img.user_version,
                cap,
                mbs,
                msm,
            ) ==> mbs.len() >= bs.len() && mbs.take(bs.len() as int) == bs,
        ensures
            off == end,
        decreases end - off,
    {
        if off >= end {
            break ;
        }
        let ghost k = bs.len() as int;
        proof {
            crate::model::lemma_wf_all(bs);
            lemma_stream_enc_len(bs);
            crate::model::lemma_block_pos_align(bs, k);
            assert forall|mbs: Seq<BlockM>, msm: StagingM| #[trigger] image_matches(
                img.data@,
                img.user_version,
                cap,
                mbs,
                msm,
            ) implies scan_agrees(*img, cap, mbs, msm, bs) by {
                lemma_model_block(*img, cap, mbs, msm, bs);
            }
        }
        if end - off < 48 {
            proof {
                assert forall|mbs: Seq<BlockM>, msm: StagingM|
                    !image_matches(img.data@, img.user_version, cap, mbs, msm) by {
                    if image_matches(img.data@, img.user_version, cap, mbs, msm) {
                        assert(scan_agrees(*img, cap, mbs, msm, bs));
                        lemma_enc_len(mbs[k]);
                        assert(false);
                    }
                }
            }
            return Err(Error::data_corruption("truncated block", off, end));
        }
        let s = match img.stream_read(off, 24) {
            Ok(s) => s,
            Err(_) => {
                proof {
                    assert(false);
                }
                return Err(Error::numeric_overflow("unreachable"));
            },
        };
        let h = match BlockHeader::parse(s, 0) {
            Some(h) => h,
            None => {
                proof {
                    assert forall|mbs: Seq<BlockM>, msm: StagingM|
                        !image_matches(img.data@, img.user_version, cap, mbs, msm) by {
                        if image_matches(img.data@, img.user_version, cap, mbs, msm) {
                            assert(scan_agrees(*img, cap, mbs, msm, bs));
                            let bh = BlockHeader {
                                prev_block: mbs[k].prev,
                                level: mbs[k].level,
                                length: mbs[k].length,
                            };
                            bh.lemma_enc();
                            assert(s@.subrange(0, 8) =~= bh.enc().subrange(0, 8));
                            assert(false);
                        }
                    }
                }
                return Err(Error::data_corruption("magic value not found", off, 0));
            },
        };
        proof {
            assert(s@.subrange(0, 24) =~= s@);
            assert forall|mbs: Seq<BlockM>, msm: StagingM| #[trigger] image_matches(
                img.data@,
                img.user_version,
                cap,
                mbs,
                msm,
            ) implies mbs[k].prev == h.prev_block && mbs[k].level == h.level && mbs[k].length
                == h.length by {
                assert(scan_agrees(*img, cap, mbs, msm, bs));
                let bh = BlockHeader {
                    prev_block: mbs[k].prev,
                    level: mbs[k].level,
                    length: mbs[k].length,
                };
                bh.lemma_enc();
            }
        }
        proof {
            BlockHeader::lemma_bytes_enc(
                s@,
                BlockHeader { prev_block: h.prev_block, level: h.level, length: h.length },
            );
        }
        if h.prev_block != lastp {
            proof {
                assert forall|mbs: Seq<BlockM>, msm: StagingM|
                    !image_matches(img.data@, img.user_version, cap, mbs, msm) by {
                    if image_matches(img.data@, img.user_version, cap, mbs, msm) {
                        assert(scan_agrees(*img, cap, mbs, msm, bs));
                        assert(false);
                    }
                }
            }
            return Err(Error::data_corruption("previous block pointer mismatch", off, lastp));
        }
        if h.level >= 64 {
            proof {
                assert forall|mbs: Seq<BlockM>, msm: StagingM|
                    !image_matches(img.data@, img.user_version, cap, mbs, msm) by {
                    if image_matches(img.data@, img.user_version, cap, mbs, msm) {
                        assert(scan_agrees(*img, cap, mbs, msm, bs));
                        assert(false);
                    }
                }
            }
            return Err(Error::data_corruption("block level out of range", h.level as u64, 64));
        }
        if h.length < 24 {
            proof {
                assert forall|mbs: Seq<BlockM>, msm: StagingM|
                    !image_matches(img.data@, img.user_version, cap, mbs, msm) by {
                    if image_matches(img.data@, img.user_version, cap, mbs, msm) {
                        assert(scan_agrees(*img, cap, mbs, msm, bs));
                        match mbs[k].body {
                            BlockBody::Leaf { start_idx, count, cbytes } => {},
                            BlockBody::Branch { prev_offset, end_idx, entries } => {},
                        }
                        assert(false);
                    }
                }
            }
            return Err(Error::data_corruption("block too short", h.length as u64, 24));
        }
        let pad = (8 - h.length % 8) % 8;
        let r8: u64 = h.length as u64 + pad as u64;
        proof {
            lemma_round8(h.length as int);
            assert(r8 == crate::image::round8(h.length as int));
        }
        if r8 > end - off - 24 {
            proof {
                assert forall|mbs: Seq<BlockM>, msm: StagingM|
                    !image_matches(img.data@, img.user_version, cap, mbs, msm) by {
                    if image_matches(img.data@, img.user_version, cap, mbs, msm) {
                        assert(scan_agrees(*img, cap, mbs, msm, bs));
                        lemma_enc_len(mbs[k]);
                        assert(mbs[k].total_len() == 24 + crate::image::round8(
                            mbs[k].length as int,
                        ));
                        assert(img.stream().len() == end);
                        assert(false);
                    }
                }
            }
            return Err(Error::data_corruption("block past stream end", off, end));
        }
        let next = off + 24 + r8;
        if h.level == 0 {
            match scan_leaf(
                img,
                cap,
                Ghost(bs),
                off,
                end,
                h,
                r8,
                fin,
                lastp,
            ) {
                Ok((count, gb)) => {
                    let ghost newb = gb@;
                    let ghost pre = bs;
                    proof {
                        bs = pre.push(newb);
                    }
                    let ent = IndexEntry { offset: off, start_idx: fin };
                    let mut r0: Vec<IndexEntry> = Vec::new();
                    std::mem::swap(&mut r0, &mut runs[0]);
                    r0.push(ent);
                    std::mem::swap(&mut r0, &mut runs[0]);
                    lastpos[0] = off;
                    proof {
                        assert(bs == pre.push(newb));
                        assert(bs[pre.len() as int] == newb);
                        crate::model::lemma_run_push(pre, newb, 0);
                        assert forall|l: int| 0 <= l < 64 implies (#[trigger] runs@[l])@.len()
                            == run(bs, l).len() by {
                            crate::model::lemma_run_push(pre, newb, l);
                        }
                        assert forall|l: int, t: int|
                            #![trigger runs@[l]@[t]]
                            0 <= l < 64 && 0 <= t < run(bs, l).len() implies runs@[l]@[t].offset
                            == bs[run(bs, l)[t]].pos && runs@[l]@[t].start_idx as int == bs[
                            run(bs, l)[t]
                        ].span_lo() by {
                            crate::model::lemma_run_push(pre, newb, l);
                            crate::model::lemma_prev_gt_facts(pre, pre.len() as int, l);
                            crate::model::lemma_kids_range(
                                pre,
                                crate::model::prev_gt(pre, pre.len() as int, l) + 1,
                                pre.len() as int,
                                l,
                            );
                        }
                        assert forall|l: int| 0 <= l < 64 implies #[trigger] lastpos@[l] == (
                        if prev_ge(bs, bs.len() as int, l) == -1 {
                            u64::MAX
                        } else {
                            bs[prev_ge(bs, bs.len() as int, l)].pos
                        }) by {
                            if l == 0 {
                                assert(prev_ge(bs, bs.len() as int, 0) == bs.len() - 1);
                            } else {
                                assert(prev_ge(bs, bs.len() as int, l) == prev_ge(
                                    bs,
                                    pre.len() as int,
                                    l,
                                ));
                                crate::model::lemma_prev_ge_prefix(bs, pre, pre.len() as int, l);
                                crate::model::lemma_prev_ge_facts(pre, pre.len() as int, l);
                            }
                        }
                        assert forall|l: int| l >= 64 implies #[trigger] prev_ge(
                            bs,
                            bs.len() as int,
                            l,
                        ) == -1 by {
                            crate::model::lemma_prev_ge_prefix(bs, pre, pre.len() as int, l);
                            assert(bs[pre.len() as int].level < l);
                            assert(prev_ge(bs, bs.len() as int, l) == prev_ge(
                                bs,
                                pre.len() as int,
                                l,
                            ));
                        }
                    }
                    fin = fin + count as u64;
                    lastp = off;
                    last_level = 0;
                    off = next;
                },
                Err(e) => {
                    return Err(e);
                },
            }
        } else {
            match scan_branch(
                img,
                cap,
                Ghost(bs),
                off,
                end,
                h,
                fin,
                lastp,
                last_level,
                &lastpos,
                &runs,
            ) {
                Ok((e0, gb)) => {
                    let ghost newb = gb@;
                    let ghost pre = bs;
                    proof {
                        bs = pre.push(newb);
                    }
                    let lvl_us = h.level as usize;
                    let mut cl: usize = 0;
                    let ghost runs0 = runs@;
                    while cl < lvl_us
                        invariant
                            0 <= cl <= lvl_us,
                            lvl_us < 64,
                            runs@.len() == 64,
                            forall|l: int| 0 <= l < cl ==> (#[trigger] runs@[l])@.len() == 0,
                            forall|l: int| cl <= l < 64 ==> #[trigger] runs@[l] == runs0[l],
                        decreases lvl_us - cl,
                    {
                        runs[cl] = Vec::new();
                        cl += 1;
                    }
                    let mut rb: Vec<IndexEntry> = Vec::new();
                    std::mem::swap(&mut rb, &mut runs[lvl_us]);
                    rb.push(IndexEntry { offset: off, start_idx: e0.start_idx });
                    std::mem::swap(&mut rb, &mut runs[lvl_us]);
                    let ghost lastpos0 = lastpos@;
                    let mut ul: usize = 0;
                    while ul <= lvl_us
                        invariant
                            0 <= ul <= lvl_us + 1,
                            lvl_us < 64,
                            lastpos@.len() == 64,
                            forall|l: int| 0 <= l < ul ==> #[trigger] lastpos@[l] == off,
                            forall|l: int| ul <= l < 64 ==> #[trigger] lastpos@[l] == lastpos0[l],
                        decreases lvl_us + 1 - ul,
                    {
                        lastpos[ul] = off;
                        ul += 1;
                    }
                    proof {
                        assert(bs == pre.push(newb));
                        assert(bs[pre.len() as int] == newb);
                        assert forall|l: int| 0 <= l < 64 implies (#[trigger] runs@[l])@.len()
                            == run(bs, l).len() by {
                            crate::model::lemma_run_push(pre, newb, l);
                        }
                        assert forall|l: int, t: int|
                            #![trigger runs@[l]@[t]]
                            0 <= l < 64 && 0 <= t < run(bs, l).len() implies runs@[l]@[t].offset
                            == bs[run(bs, l)[t]].pos && runs@[l]@[t].start_idx as int == bs[
                            run(bs, l)[t]
                        ].span_lo() by {
                            crate::model::lemma_run_push(pre, newb, l);
                            crate::model::lemma_prev_gt_facts(pre, pre.len() as int, l);
                            crate::model::lemma_kids_range(
                                pre,
                                crate::model::prev_gt(pre, pre.len() as int, l) + 1,
                                pre.len() as int,
                                l,
                            );
                        }
                        assert forall|l: int| 0 <= l < 64 implies #[trigger] lastpos@[l] == (
                        if prev_ge(bs, bs.len() as int, l) == -1 {
                            u64::MAX
                        } else {
                            bs[prev_ge(bs, bs.len() as int, l)].pos
                        }) by {
                            if l <= h.level {
                                assert(prev_ge(bs, bs.len() as int, l) == bs.len() - 1);
                            } else {
                                assert(prev_ge(bs, bs.len() as int, l) == prev_ge(
                                    bs,
                                    pre.len() as int,
                                    l,
                                ));
                                crate::model::lemma_prev_ge_prefix(bs, pre, pre.len() as int, l);
                                crate::model::lemma_prev_ge_facts(pre, pre.len() as int, l);
                            }
                        }
                        assert forall|l: int| l >= 64 implies #[trigger] prev_ge(
                            bs,
                            bs.len() as int,
                            l,
                        ) == -1 by {
                            crate::model::lemma_prev_ge_prefix(bs, pre, pre.len() as int, l);
                            assert(bs[pre.len() as int].level < l);
                            assert(prev_ge(bs, bs.len() as int, l) == prev_ge(
                                bs,
                                pre.len() as int,
                                l,
                            ));
                        }
                    }
                    lastp = off;
                    last_level = h.level;
                    off = next;
                },
                Err(e) => {
                    return Err(e);
                },
            }
        }
    }
    // no trailing run may have reached the fan-out
    proof {
        crate::model::lemma_wf_all(bs);
        lemma_stream_enc_len(bs);
        assert(img.stream() =~= stream_enc(bs));
        assert forall|mbs: Seq<BlockM>, msm: StagingM| #[trigger] image_matches(
            img.data@,
            img.user_version,
            cap,
            mbs,
            msm,
        ) implies mbs == bs by {
            if mbs.len() > bs.len() {
                let hdr = crate::records::MmapFileHeader::dec(img.data@.subrange(0, 32));
                assert(hdr == img.header_spec()) by {
                    img.header_spec().lemma_enc();
                }
                assert(img.stream() == stream_enc(mbs)) by {
                    assert(img.stream() =~= img.data@.subrange(4096, 4096 + img.end_offset as int));
                }
                crate::model::lemma_wf_all(mbs);
                crate::model::lemma_block_pos_prefix(mbs, bs, bs.len() as int);
                lemma_stream_enc_len(mbs);
                crate::model::lemma_block_pos_mono(mbs, bs.len() as int, mbs.len() as int);
                crate::model::lemma_enc_len(mbs[bs.len() as int]);
                assert(false);
            }
            assert(mbs.take(bs.len() as int) =~= mbs);
        }
    }
    proof {
        if img.end_offset == 0 {
            assert(bs =~= Seq::<BlockM>::empty()) by {
                if bs.len() > 0 {
                    crate::model::lemma_wf_all(bs);
                    lemma_stream_enc_len(bs);
                    crate::model::lemma_enc_len(bs[0]);
                    crate::model::lemma_block_pos_mono_weak(bs, 1, bs.len() as int);
                    assert(crate::model::block_pos(bs, 0) == 0);
                    assert(crate::model::block_pos(bs, 1) == bs[0].total_len());
                    assert(false);
                }
            }
        }
    }
    let mut rc: usize = 0;
    while rc < 64
        invariant
            0 <= rc <= 64,
            runs@.len() == 64,
            forall|l: int| 0 <= l < rc ==> (#[trigger] runs@[l])@.len() <= 15,
            forall|l: int| 0 <= l < 64 ==> (#[trigger] runs@[l])@.len() == run(bs, l).len(),
            img.end_offset == 0 ==> bs == Seq::<BlockM>::empty(),
            forall|mbs: Seq<BlockM>, msm: StagingM| #[trigger] image_matches(
                img.data@,
                img.user_version,
                cap,
                mbs,
                msm,
            ) ==> mbs == bs,
        decreases 64 - rc,
    {
        if runs[rc].len() > 15 {
            proof {
                if img.end_offset == 0 {
                    assert(run(bs, rc as int).len() == 0) by {
                        crate::model::lemma_prev_gt_facts(bs, 0, rc as int);
                        assert(kids(bs, crate::model::prev_gt(bs, 0, rc as int) + 1, 0, rc as int)
                            =~= Seq::<int>::empty());
                    }
                    assert(false);
                }
                assert forall|mbs: Seq<BlockM>, msm: StagingM|
                    !image_matches(img.data@, img.user_version, cap, mbs, msm) by {
                    if image_matches(img.data@, img.user_version, cap, mbs, msm) {
                        assert(mbs == bs);
                        assert(run(bs, rc as int).len() <= 15);
                        assert(false);
                    }
                }
            }
            return Err(Error::data_corruption("unreduced fan-in run", rc as u64, 15));
        }
        rc += 1;
    }
    proof {
        assert(crate::model::runs_bounded(bs)) by {
            assert forall|l: int| 0 <= l implies #[trigger] run(bs, l).len() <= 15 by {
                if l < 64 {
                    assert(runs@[l]@.len() <= 15);
                } else {
                    assert(run(bs, l).len() == 0) by {
                        crate::model::lemma_prev_gt_facts(bs, bs.len() as int, l);
                        crate::model::lemma_kids_range(
                            bs,
                            crate::model::prev_gt(bs, bs.len() as int, l) + 1,
                            bs.len() as int,
                            l,
                        );
                        if run(bs, l).len() > 0 {
                            assert(bs[run(bs, l)[0]].level == l);
                            assert(bs[run(bs, l)[0]].level < 64);
                            assert(false);
                        }
                    }
                }
            }
        }
    }
    Ok((fin, lastp, Ghost(bs)))
}


/// Validates one leaf block at the scan front and returns its model.
#[verifier::rlimit(100)]
#[verifier::spinoff_prover]
fn scan_leaf(
    img: &FileImage,
    cap: u32,
    Ghost(bs): Ghost<Seq<BlockM>>,
    off: u64,
    end: u64,
    h: BlockHeader,
    r8: u64,
    fin: u64,
    lastp: u64,
) -> (r: Result<(u32, Ghost<BlockM>), Error>)
    requires
        img.wf(),
        img.start_offset == 0,
        end == img.end_offset,
        off == stream_enc(bs).len(),
        img.stream().subrange(0, off as int) == stream_enc(bs),
        blocks_wf(bs),
        fin == fin_events(bs).len(),
        bs.len() == 0 ==> lastp == u64::MAX,
        bs.len() > 0 ==> bs.last().pos == lastp,
        h.level == 0,
        h.length >= 24,
        h.prev_block == lastp,
        r8 == crate::image::round8(h.length as int),
        off + 24 + r8 <= end,
        img.stream().subrange(off as int, off as int + 24) == (BlockHeader {
            prev_block: h.prev_block,
            level: h.level,
            length: h.length,
        }).enc(),
        forall|mbs: Seq<BlockM>, msm: StagingM| #[trigger] image_matches(
            img.data@,
            img.user_version,
            cap,
            mbs,
            msm,
        ) ==> scan_agrees(*img, cap, mbs, msm, bs) && mbs[bs.len() as int].prev == h.prev_block
            && mbs[bs.len() as int].level == h.level && mbs[bs.len() as int].length == h.length
            && mbs.len() >= bs.len() && mbs.take(bs.len() as int) == bs,
    ensures
        match r {
            Ok((count, gb)) => {
                &&& gb@ == (BlockM {
                    pos: off,
                    prev: h.prev_block,
                    level: 0,
                    length: h.length,
                    body: BlockBody::Leaf {
                        start_idx: fin,
                        count,
                        cbytes: img.stream().subrange(off + 48, off + 24 + h.length),
                    },
                })
                &&& count >= 1
                &&& fin + count <= u64::MAX
                &&& blocks_wf(bs.push(gb@))
                &&& stream_enc(bs.push(gb@)) == img.stream().subrange(0, off + 24 + r8)
                &&& fin_events(bs.push(gb@)).len() == fin + count
                &&& bs.push(gb@).last().span_hi() == fin + count
                &&& forall|mbs: Seq<BlockM>, msm: StagingM| #[trigger] image_matches(
                    img.data@,
                    img.user_version,
                    cap,
                    mbs,
                    msm,
                ) ==> mbs.len() >= bs.len() + 1 && mbs.take(bs.len() as int + 1) == bs.push(gb@)
            },
            Err(e) => e matches Error::DataCorruption { .. } && (forall|
                mbs: Seq<BlockM>,
                msm: StagingM,
            |
                !image_matches(img.data@, img.user_version, cap, mbs, msm)),
        },
{
    let ghost k = bs.len() as int;
    let ps = match img.stream_read(off + 24, r8) {
        Ok(ps) => ps,
        Err(_) => {
            proof {
                crate::model::lemma_wf_all(bs);
                lemma_stream_enc_len(bs);
                crate::model::lemma_block_pos_align(bs, k);
                assert(false);
            }
            return Err(Error::data_corruption("unreachable", 0, 0));
        },
    };
    let lh = match LeafHeader::parse(ps, 0) {
        Some(lh) => lh,
        None => {
            proof {
                assert forall|mbs: Seq<BlockM>, msm: StagingM|
                    !image_matches(img.data@, img.user_version, cap, mbs, msm) by {
                    if image_matches(img.data@, img.user_version, cap, mbs, msm) {
                        assert(scan_agrees(*img, cap, mbs, msm, bs));
                        match mbs[k].body {
                            BlockBody::Leaf { start_idx, count, cbytes } => {
                                let lhm = LeafHeader { start_idx, count };
                                lhm.lemma_enc();
                                assert(ps@.subrange(0, 24) =~= img.stream().subrange(
                                    off + 24,
                                    off + 48,
                                ));
                                assert(ps@.subrange(0, 8) =~= lhm.enc().subrange(0, 8));
                            },
                            BlockBody::Branch { .. } => {},
                        }
                        assert(false);
                    }
                }
            }
            return Err(Error::data_corruption("magic value not found", off + 24, 0));
        },
    };
    proof {
        assert forall|mbs: Seq<BlockM>, msm: StagingM| #[trigger] image_matches(
            img.data@,
            img.user_version,
            cap,
            mbs,
            msm,
        ) implies (mbs[k].body matches BlockBody::Leaf { start_idx, count, cbytes } && start_idx
            == lh.start_idx && count == lh.count) by {
            assert(scan_agrees(*img, cap, mbs, msm, bs));
            match mbs[k].body {
                BlockBody::Leaf { start_idx, count, cbytes } => {
                    let lhm = LeafHeader { start_idx, count };
                    lhm.lemma_enc();
                    assert(ps@.subrange(0, 24) =~= img.stream().subrange(off + 24, off + 48));
                    assert(lh == LeafHeader::dec(lhm.enc()));
                },
                BlockBody::Branch { .. } => {},
            }
        }
    }
    if lh.count == 0 {
        proof {
            assert forall|mbs: Seq<BlockM>, msm: StagingM|
                !image_matches(img.data@, img.user_version, cap, mbs, msm) by {
                if image_matches(img.data@, img.user_version, cap, mbs, msm) {
                    assert(scan_agrees(*img, cap, mbs, msm, bs));
                    assert(false);
                }
            }
        }
        return Err(Error::data_corruption("empty leaf", off, 0));
    }
    if lh.start_idx != fin {
        proof {
            assert forall|mbs: Seq<BlockM>, msm: StagingM|
                !image_matches(img.data@, img.user_version, cap, mbs, msm) by {
                if image_matches(img.data@, img.user_version, cap, mbs, msm) {
                    assert(scan_agrees(*img, cap, mbs, msm, bs));
                    assert(false);
                }
            }
        }
        return Err(Error::data_corruption("leaf start index mismatch", lh.start_idx, fin));
    }
    if lh.count as u64 > u64::MAX - lh.start_idx {
        proof {
            assert forall|mbs: Seq<BlockM>, msm: StagingM|
                !image_matches(img.data@, img.user_version, cap, mbs, msm) by {
                if image_matches(img.data@, img.user_version, cap, mbs, msm) {
                    assert(scan_agrees(*img, cap, mbs, msm, bs));
                    assert(false);
                }
            }
        }
        return Err(Error::data_corruption("event index overflow", lh.start_idx, 0));
    }
    if ps[20] != 0 || ps[21] != 0 || ps[22] != 0 || ps[23] != 0 {
        proof {
            assert forall|mbs: Seq<BlockM>, msm: StagingM|
                !image_matches(img.data@, img.user_version, cap, mbs, msm) by {
                if image_matches(img.data@, img.user_version, cap, mbs, msm) {
                    assert(scan_agrees(*img, cap, mbs, msm, bs));
                    match mbs[k].body {
                        BlockBody::Leaf { start_idx, count, cbytes } => {
                            let lhm = LeafHeader { start_idx, count };
                            lhm.lemma_enc();
                            assert(ps@.subrange(0, 24) =~= img.stream().subrange(
                                off + 24,
                                off + 48,
                            ));
                            assert(ps@.subrange(0, 24) == lhm.enc());
                            assert(ps@[20] == lhm.enc()[20] && ps@[21] == lhm.enc()[21] && ps@[22]
                                == lhm.enc()[22] && ps@[23] == lhm.enc()[23]);
                            assert(lhm.enc()[20] == 0 && lhm.enc()[21] == 0 && lhm.enc()[22] == 0
                                && lhm.enc()[23] == 0) by {
                                reveal(LeafHeader::enc);
                                crate::be::lemma_be64(
                                    start_idx,
                                    seq![0u8, 0, 0, 0, 0, 0, 0, 0],
                                );
                                crate::be::lemma_be32(count, seq![0u8, 0, 0, 0]);
                            }
                        },
                        BlockBody::Branch { .. } => {},
                    }
                    assert(false);
                }
            }
        }
        return Err(Error::data_corruption("nonzero padding", off + 24, 0));
    }
    let pe = ps.len();
    let mut pi = h.length as usize;
    while pi < pe
        invariant
            h.length <= pi <= pe,
            pe == ps@.len(),
            pe == r8,
            r8 == crate::image::round8(h.length as int),
            img.wf(),
            img.start_offset == 0,
            end == img.end_offset,
            off == stream_enc(bs).len(),
            off + 24 + r8 <= end,
            ps@ == img.stream().subrange(off + 24, off + 24 + r8 as int),
            forall|j: int| h.length <= j < pi ==> ps@[j] == 0u8,
            forall|mbs: Seq<BlockM>, msm: StagingM| #[trigger] image_matches(
                img.data@,
                img.user_version,
                cap,
                mbs,
                msm,
            ) ==> scan_agrees(*img, cap, mbs, msm, bs) && mbs[bs.len() as int].length == h.length,
        decreases pe - pi,
    {
        if ps[pi] != 0 {
            proof {
                let kk = bs.len() as int;
                assert forall|mbs: Seq<BlockM>, msm: StagingM|
                    !image_matches(img.data@, img.user_version, cap, mbs, msm) by {
                    if image_matches(img.data@, img.user_version, cap, mbs, msm) {
                        assert(scan_agrees(*img, cap, mbs, msm, bs));
                        match mbs[kk].body {
                            BlockBody::Leaf { start_idx, count, cbytes } => {
                                crate::model::lemma_round8(cbytes.len() as int);
                                assert(img.stream().subrange(
                                    off + 24 + h.length,
                                    off + mbs[kk].total_len(),
                                )[pi - h.length] == 0u8);
                                assert(ps@[pi as int] == img.stream()[off + 24 + pi]);
                            },
                            BlockBody::Branch { .. } => {},
                        }
                        assert(false);
                    }
                }
            }
            return Err(Error::data_corruption("nonzero padding", off + 24 + pi as u64, 0));
        }
        pi += 1;
    }
    let ghost cb = img.stream().subrange(off + 48, off + 24 + h.length);
    let ghost newb = BlockM {
        pos: off,
        prev: h.prev_block,
        level: 0,
        length: h.length,
        body: BlockBody::Leaf { start_idx: lh.start_idx, count: lh.count, cbytes: cb },
    };
    proof {
        crate::model::lemma_wf_all(bs);
        lemma_stream_enc_len(bs);
        assert(newb.local_wf());
        assert(crate::model::push_ok(bs, newb));
        crate::model::lemma_blocks_wf_push(bs, newb);
        // the block's bytes are exactly its encoding
        assert(ps@.subrange(0, 24) =~= img.stream().subrange(off + 24, off + 48));
        assert(ps@.subrange(0, 8) =~= ps@.subrange(0, 24).subrange(0, 8));
        assert(ps@.subrange(20, 24) =~= seq![0u8, 0, 0, 0]);
        assert(ps@.subrange(0, 24).subrange(20, 24) =~= seq![0u8, 0, 0, 0]);
        assert(ps@.subrange(0, 24).subrange(0, 8) =~= ps@.subrange(0, 8));
        LeafHeader::lemma_bytes_enc(
            ps@.subrange(0, 24),
            LeafHeader { start_idx: lh.start_idx, count: lh.count },
        );
        lemma_enc_len(newb);
        lemma_round8(h.length as int);
        assert(newb.enc() =~= img.stream().subrange(off as int, off + 24 + r8 as int)) by {
            reveal(crate::model::BlockM::enc);
            let head = BlockHeader { prev_block: h.prev_block, level: h.level, length: h.length };
            let lfh = LeafHeader { start_idx: lh.start_idx, count: lh.count };
            head.lemma_enc();
            lfh.lemma_enc();
            crate::model::lemma_round8(cb.len() as int);
            assert((h.length - 24) as int % 8 == h.length as int % 8);
            assert(crate::image::round8(cb.len() as int) == r8 - 24);
            let target = img.stream().subrange(off as int, off + 24 + r8 as int);
            assert(newb.enc().len() == 24 + r8);
            assert forall|x: int| 0 <= x < 24 + r8 implies newb.enc()[x] == target[x] by {
                assert(target[x] == img.stream()[off + x]);
                if x < 24 {
                    assert(newb.enc()[x] == head.enc()[x]);
                    assert(img.stream().subrange(off as int, off as int + 24)[x]
                        == img.stream()[off + x]);
                } else if x < 48 {
                    assert(newb.enc()[x] == lfh.enc()[x - 24]);
                    assert(ps@[x - 24] == img.stream()[off + x]);
                    assert(ps@.subrange(0, 24)[x - 24] == ps@[x - 24]);
                } else if x < 24 + h.length {
                    assert(newb.enc()[x] == cb[x - 48]);
                    assert(cb[x - 48] == img.stream()[off + x]);
                } else {
                    assert(newb.enc()[x] == 0u8);
                    assert(ps@[x - 24] == 0u8);
                    assert(ps@[x - 24] == img.stream()[off + x]);
                }
            }
        }
        assert(stream_enc(bs.push(newb)) == stream_enc(bs) + newb.enc()) by {
            assert(bs.push(newb).drop_last() =~= bs);
        }
        assert(stream_enc(bs.push(newb)) =~= img.stream().subrange(0, off + 24 + r8 as int));
        assert(fin_events(bs.push(newb)).len() == fin + lh.count) by {
            assert(newb.events().len() == lh.count);
        }
        assert(bs.push(newb).last().span_hi() == fin + lh.count);
        // every matching model has exactly this block here
        assert forall|mbs: Seq<BlockM>, msm: StagingM| #[trigger] image_matches(
            img.data@,
            img.user_version,
            cap,
            mbs,
            msm,
        ) implies mbs.len() >= bs.len() + 1 && mbs.take(bs.len() as int + 1) == bs.push(
            newb,
        ) by {
            assert(scan_agrees(*img, cap, mbs, msm, bs));
            match mbs[k].body {
                BlockBody::Leaf { start_idx, count, cbytes } => {
                    assert(cbytes == cb);
                    assert(mbs[k] == newb);
                },
                BlockBody::Branch { .. } => {},
            }
            assert(mbs.take(k + 1) =~= bs.push(newb));
        }
    }
    Ok((lh.count, Ghost(newb)))
}

/// Validates one branch block at the scan front against the pending run one
/// level below it, and returns its first child pointer and its model.
#[verifier::rlimit(100)]
#[verifier::spinoff_prover]
fn scan_branch(
    img: &FileImage,
    cap: u32,
    Ghost(bs): Ghost<Seq<BlockM>>,
    off: u64,
    end: u64,
    h: BlockHeader,
    fin: u64,
    lastp: u64,
    last_level: u32,
    lastpos: &Vec<u64>,
    runs: &Vec<Vec<IndexEntry>>,
) -> (r: Result<(IndexEntry, Ghost<BlockM>), Error>)
    requires
        img.wf(),
        img.start_offset == 0,
        end == img.end_offset,
        off == stream_enc(bs).len(),
        img.stream().subrange(0, off as int) == stream_enc(bs),
        blocks_wf(bs),
        fin == fin_events(bs).len(),
        bs.len() == 0 ==> lastp == u64::MAX,
        bs.len() > 0 ==> bs.last().pos == lastp && bs.last().level == last_level
            && bs.last().span_hi() == fin,
        1 <= h.level < 64,
        h.prev_block == lastp,
        off + 24 + crate::image::round8(h.length as int) <= end,
        img.stream().subrange(off as int, off as int + 24) == (BlockHeader {
            prev_block: h.prev_block,
            level: h.level,
            length: h.length,
        }).enc(),
        lastpos@.len() == 64,
        runs@.len() == 64,
        forall|l: int| 0 <= l < 64 ==> #[trigger] lastpos@[l] == (if prev_ge(
            bs,
            bs.len() as int,
            l,
        ) == -1 {
            u64::MAX
        } else {
            bs[prev_ge(bs, bs.len() as int, l)].pos
        }),
        forall|l: int| 0 <= l < 64 ==> (#[trigger] runs@[l])@.len() == run(bs, l).len(),
        forall|l: int, t: int|
            #![trigger runs@[l]@[t]]
            0 <= l < 64 && 0 <= t < run(bs, l).len() ==> runs@[l]@[t].offset == bs[run(
                bs,
                l,
            )[t]].pos && runs@[l]@[t].start_idx as int == bs[run(bs, l)[t]].span_lo(),
        forall|mbs: Seq<BlockM>, msm: StagingM| #[trigger] image_matches(
            img.data@,
            img.user_version,
            cap,
            mbs,
            msm,
        ) ==> scan_agrees(*img, cap, mbs, msm, bs) && mbs[bs.len() as int].prev == h.prev_block
            && mbs[bs.len() as int].level == h.level && mbs[bs.len() as int].length == h.length
            && mbs.len() >= bs.len() && mbs.take(bs.len() as int) == bs,
    ensures
        match r {
            Ok((e0, gb)) => {
                &&& gb@.pos == off
                &&& gb@.prev == h.prev_block
                &&& gb@.level == h.level
                &&& gb@.length == 280
                &&& gb@.is_leaf() == false
                &&& gb@.span_lo() == e0.start_idx
                &&& gb@.span_hi() == fin
                &&& h.length == 280
                &&& blocks_wf(bs.push(gb@))
                &&& stream_enc(bs.push(gb@)) == img.stream().subrange(0, off + 24 + 280)
                &&& fin_events(bs.push(gb@)) == fin_events(bs)
                &&& bs.push(gb@).last().span_hi() == fin
                &&& forall|mbs: Seq<BlockM>, msm: StagingM| #[trigger] image_matches(
                    img.data@,
                    img.user_version,
                    cap,
                    mbs,
                    msm,
                ) ==> mbs.len() >= bs.len() + 1 && mbs.take(bs.len() as int + 1) == bs.push(gb@)
            },
            Err(e) => e matches Error::DataCorruption { .. } && (forall|
                mbs: Seq<BlockM>,
                msm: StagingM,
            |
                !image_matches(img.data@, img.user_version, cap, mbs, msm)),
        },
{
    let ghost k = bs.len() as int;
    if h.length != 280 {
        proof {
            assert forall|mbs: Seq<BlockM>, msm: StagingM|
                !image_matches(img.data@, img.user_version, cap, mbs, msm) by {
                if image_matches(img.data@, img.user_version, cap, mbs, msm) {
                    assert(scan_agrees(*img, cap, mbs, msm, bs));
                    match mbs[k].body {
                        BlockBody::Leaf { .. } => {},
                        BlockBody::Branch { .. } => {},
                    }
                    assert(false);
                }
            }
        }
        return Err(Error::data_corruption("branch length mismatch", h.length as u64, 280));
    }
    if off == 0 || h.level - 1 != last_level {
        proof {
            assert forall|mbs: Seq<BlockM>, msm: StagingM|
                !image_matches(img.data@, img.user_version, cap, mbs, msm) by {
                if image_matches(img.data@, img.user_version, cap, mbs, msm) {
                    assert(scan_agrees(*img, cap, mbs, msm, bs));
                    match mbs[k].body {
                        BlockBody::Leaf { .. } => {},
                        BlockBody::Branch { .. } => {
                            crate::model::lemma_wf_all(bs);
                            lemma_stream_enc_len(bs);
                            assert(bs.len() >= 1);
                            crate::model::lemma_enc_len(bs[0]);
                            crate::model::lemma_block_pos_mono_weak(bs, 1, bs.len() as int);
                            assert(block_pos(bs, 0) == 0);
                            assert(block_pos(bs, 1) == bs[0].total_len());
                            assert(off > 0);
                            assert(bs[k - 1].level as int == h.level - 1);
                        },
                    }
                    assert(false);
                }
            }
        }
        return Err(
            Error::data_corruption("branch child level mismatch", last_level as u64, h.level as u64),
        );
    }
    proof {
        crate::model::lemma_wf_all(bs);
        lemma_stream_enc_len(bs);
        crate::model::lemma_block_pos_align(bs, k);
    }
    let bhs = match img.stream_read(off + 24, 24) {
        Ok(bhs) => bhs,
        Err(_) => {
            proof {
                assert(false);
            }
            return Err(Error::data_corruption("unreachable", 0, 0));
        },
    };
    let bh = match BranchHeader::parse(bhs, 0) {
        Some(bh) => bh,
        None => {
            proof {
                assert forall|mbs: Seq<BlockM>, msm: StagingM|
                    !image_matches(img.data@, img.user_version, cap, mbs, msm) by {
                    if image_matches(img.data@, img.user_version, cap, mbs, msm) {
                        assert(scan_agrees(*img, cap, mbs, msm, bs));
                        match mbs[k].body {
                            BlockBody::Branch { prev_offset, end_idx, entries } => {
                                let bhm = BranchHeader { prev_offset, end_idx };
                                bhm.lemma_enc();
                                assert(bhs@.subrange(0, 8) =~= bhm.enc().subrange(0, 8));
                            },
                            BlockBody::Leaf { .. } => {},
                        }
                        assert(false);
                    }
                }
            }
            return Err(Error::data_corruption("magic value not found", off + 24, 0));
        },
    };
    proof {
        assert(bhs@.subrange(0, 24) =~= bhs@);
        assert forall|mbs: Seq<BlockM>, msm: StagingM| #[trigger] image_matches(
            img.data@,
            img.user_version,
            cap,
            mbs,
            msm,
        ) implies (mbs[k].body matches BlockBody::Branch { prev_offset, end_idx, entries }
            && prev_offset == bh.prev_offset && end_idx == bh.end_idx) by {
            assert(scan_agrees(*img, cap, mbs, msm, bs));
            match mbs[k].body {
                BlockBody::Branch { prev_offset, end_idx, entries } => {
                    let bhm = BranchHeader { prev_offset, end_idx };
                    bhm.lemma_enc();
                    assert(bh == BranchHeader::dec(bhm.enc()));
                },
                BlockBody::Leaf { .. } => {},
            }
        }
    }
    if bh.end_idx != fin {
        proof {
            assert forall|mbs: Seq<BlockM>, msm: StagingM|
                !image_matches(img.data@, img.user_version, cap, mbs, msm) by {
                if image_matches(img.data@, img.user_version, cap, mbs, msm) {
                    assert(scan_agrees(*img, cap, mbs, msm, bs));
                    assert(false);
                }
            }
        }
        return Err(Error::data_corruption("branch bound mismatch", bh.end_idx, fin));
    }
    let q_pos = lastpos[h.level as usize];
    if bh.prev_offset != q_pos {
        proof {
            assert forall|mbs: Seq<BlockM>, msm: StagingM|
                !image_matches(img.data@, img.user_version, cap, mbs, msm) by {
                if image_matches(img.data@, img.user_version, cap, mbs, msm) {
                    assert(scan_agrees(*img, cap, mbs, msm, bs));
                    assert(false);
                }
            }
        }
        return Err(Error::data_corruption("branch skip mismatch", bh.prev_offset, q_pos));
    }
    proof {
        crate::model::lemma_prev_gt_ge(bs, bs.len() as int, h.level as int - 1);
    }
    let rl = runs[(h.level - 1) as usize].len();
    if rl != 16 {
        proof {
            assert forall|mbs: Seq<BlockM>, msm: StagingM|
                !image_matches(img.data@, img.user_version, cap, mbs, msm) by {
                if image_matches(img.data@, img.user_version, cap, mbs, msm) {
                    assert(scan_agrees(*img, cap, mbs, msm, bs));
                    assert(false);
                }
            }
        }
        return Err(Error::data_corruption("branch fan-in mismatch", rl as u64, 16));
    }
    let ents = match img.stream_read(off + 48, 256) {
        Ok(ents) => ents,
        Err(_) => {
            proof {
                assert(false);
            }
            return Err(Error::data_corruption("unreachable", 0, 0));
        },
    };
    let mut ent: Vec<IndexEntry> = Vec::new();
    let mut t: usize = 0;
    while t < 16
        invariant
            0 <= t <= 16,
            ent@.len() == t,
            img.wf(),
            img.start_offset == 0,
            end == img.end_offset,
            off == stream_enc(bs).len(),
            off + 48 + 256 <= end,
            ents@ == img.stream().subrange(off + 48, off + 48 + 256),
            runs@.len() == 64,
            1 <= h.level < 64,
            (runs@[h.level - 1])@.len() == 16,
            run(bs, h.level as int - 1).len() == 16,
            run(bs, h.level as int - 1) == kids(
                bs,
                prev_ge(bs, bs.len() as int, h.level as int) + 1,
                bs.len() as int,
                h.level as int - 1,
            ),
            forall|u: int| 0 <= u < t ==> #[trigger] ent@[u] == (runs@[h.level - 1])@[u],
            forall|u: int| 0 <= u < t ==> (#[trigger] ent@[u]).enc() == img.stream().subrange(
                off + 48 + 16 * u,
                off + 48 + 16 * u + 16,
            ),
            forall|l: int, t2: int|
                #![trigger runs@[l]@[t2]]
                0 <= l < 64 && 0 <= t2 < run(bs, l).len() ==> runs@[l]@[t2].offset == bs[run(
                    bs,
                    l,
                )[t2]].pos && runs@[l]@[t2].start_idx as int == bs[run(bs, l)[t2]].span_lo(),
            forall|mbs: Seq<BlockM>, msm: StagingM| #[trigger] image_matches(
                img.data@,
                img.user_version,
                cap,
                mbs,
                msm,
            ) ==> scan_agrees(*img, cap, mbs, msm, bs) && mbs[bs.len() as int].level == h.level
                && mbs.len() >= bs.len() && mbs.take(bs.len() as int) == bs,
        decreases 16 - t,
    {
        let e = IndexEntry::parse(ents, 16 * t);
        proof {
            assert(ents@.subrange(16 * t as int, 16 * t as int + 16) =~= img.stream().subrange(
                off + 48 + 16 * (t as int),
                off + 48 + 16 * (t as int) + 16,
            ));
        }
        let re = runs[(h.level - 1) as usize][t];
        if e.offset != re.offset || e.start_idx != re.start_idx {
            proof {
                let kk = bs.len() as int;
                assert forall|mbs: Seq<BlockM>, msm: StagingM|
                    !image_matches(img.data@, img.user_version, cap, mbs, msm) by {
                    if image_matches(img.data@, img.user_version, cap, mbs, msm) {
                        assert(scan_agrees(*img, cap, mbs, msm, bs));
                        match mbs[kk].body {
                            BlockBody::Branch { prev_offset, end_idx, entries } => {
                                entries[t as int].lemma_enc();
                                assert(img.stream().subrange(
                                    off + 48 + 16 * (t as int),
                                    off + 48 + 16 * (t as int) + 16,
                                ) == entries[t as int].enc());
                                assert(ents@.subrange(16 * (t as int), 16 * (t as int) + 16)
                                    =~= img.stream().subrange(
                                    off + 48 + 16 * (t as int),
                                    off + 48 + 16 * (t as int) + 16,
                                ));
                                IndexEntry::lemma_bytes_enc(
                                    ents@.subrange(16 * (t as int), 16 * (t as int) + 16),
                                    e,
                                );
                                assert(e.enc() == entries[t as int].enc());
                                assert(IndexEntry::dec(e.enc()) == IndexEntry::dec(
                                    entries[t as int].enc(),
                                ));
                                e.lemma_enc();
                                assert(e == entries[t as int]);
                                let rn = run(bs, h.level as int - 1);
                                assert(mbs[kk].level == h.level);
                                assert(rn == kids(
                                    bs,
                                    prev_ge(bs, kk, mbs[kk].level as int) + 1,
                                    kk,
                                    mbs[kk].level as int - 1,
                                ));
                                assert(re == (runs@[h.level - 1])@[t as int]);
                                assert(re.offset == bs[rn[t as int]].pos
                                    && re.start_idx as int == bs[rn[t as int]].span_lo());
                                assert(entries[t as int].offset == bs[rn[t as int]].pos
                                    && entries[t as int].start_idx as int == bs[
                                    rn[t as int]
                                ].span_lo());
                            },
                            BlockBody::Leaf { .. } => {},
                        }
                        assert(false);
                    }
                }
            }
            return Err(Error::data_corruption("branch index mismatch", e.offset, re.offset));
        }
        proof {
            IndexEntry::lemma_bytes_enc(
                img.stream().subrange(off + 48 + 16 * (t as int), off + 48 + 16 * (t as int) + 16),
                e,
            );
        }
        ent.push(e);
        t += 1;
    }
    let ghost newb = BlockM {
        pos: off,
        prev: h.prev_block,
        level: h.level,
        length: 280,
        body: BlockBody::Branch {
            prev_offset: bh.prev_offset,
            end_idx: bh.end_idx,
            entries: ent@,
        },
    };
    proof {
        crate::model::lemma_wf_all(bs);
        lemma_stream_enc_len(bs);
        assert(newb.local_wf());
        assert(crate::model::push_ok(bs, newb)) by {
            let lvl = h.level as int;
            let q = prev_ge(bs, bs.len() as int, lvl);
            let ks = kids(bs, q + 1, bs.len() as int, lvl - 1);
            lemma_prev_ge_facts(bs, bs.len() as int, lvl);
            assert(ks == run(bs, lvl - 1));
            assert forall|t2: int| 0 <= t2 < 16 implies (#[trigger] ent@[t2]).offset == bs[
                ks[t2]
            ].pos && ent@[t2].start_idx as int == bs[ks[t2]].span_lo() by {
                assert(ent@[t2] == (runs@[h.level - 1])@[t2]);
            }
        }
        crate::model::lemma_blocks_wf_push(bs, newb);
        // the block's bytes are exactly its encoding
        BranchHeader::lemma_bytes_enc(
            bhs@,
            BranchHeader { prev_offset: bh.prev_offset, end_idx: bh.end_idx },
        );
        lemma_enc_len(newb);
        assert(newb.enc() =~= img.stream().subrange(off as int, off + 24 + 280)) by {
            reveal(crate::model::BlockM::enc);
            reveal(crate::model::entries_enc);
            assert forall|t2: int| 0 <= t2 < 16 implies img.stream().subrange(
                off + 48 + 16 * t2,
                off + 48 + 16 * t2 + 16,
            ) == (#[trigger] ent@[t2]).enc() by {
                assert(ent@[t2].enc() == img.stream().subrange(
                    off + 48 + 16 * t2,
                    off + 48 + 16 * t2 + 16,
                ));
            }
        }
        assert(stream_enc(bs.push(newb)) == stream_enc(bs) + newb.enc()) by {
            assert(bs.push(newb).drop_last() =~= bs);
        }
        assert(stream_enc(bs.push(newb)) =~= img.stream().subrange(0, off + 24 + 280));
        assert(fin_events(bs.push(newb)) =~= fin_events(bs)) by {
            crate::model::lemma_fin_events_push(bs, newb);
            assert(fin_events(bs) + newb.events() =~= fin_events(bs));
        }
        // every matching model has exactly this block here
        assert forall|mbs: Seq<BlockM>, msm: StagingM| #[trigger] image_matches(
            img.data@,
            img.user_version,
            cap,
            mbs,
            msm,
        ) implies mbs.len() >= bs.len() + 1 && mbs.take(bs.len() as int + 1) == bs.push(
            newb,
        ) by {
            assert(scan_agrees(*img, cap, mbs, msm, bs));
            match mbs[k].body {
                BlockBody::Branch { prev_offset, end_idx, entries } => {
                    assert forall|t2: int| 0 <= t2 < 16 implies #[trigger] entries[t2]
                        == ent@[t2] by {
                        entries[t2].lemma_enc();
                        ent@[t2].lemma_enc();
                        assert(entries[t2].enc() == img.stream().subrange(
                            off + 48 + 16 * t2,
                            off + 48 + 16 * t2 + 16,
                        ));
                        assert(entries[t2].enc() == ent@[t2].enc());
                        assert(IndexEntry::dec(entries[t2].enc()) == IndexEntry::dec(
                            ent@[t2].enc(),
                        ));
                    }
                    assert(entries =~= ent@);
                    assert(mbs[k] == newb);
                },
                BlockBody::Leaf { .. } => {},
            }
            assert(mbs.take(k + 1) =~= bs.push(newb));
        }
    }
    let e0 = ent[0];
    Ok((e0, Ghost(newb)))
}

/// Validates the staging region as-is and reconstructs the staged events:
/// an intact header for this capacity, continuing the finalized stream, a
/// zero-based monotone jump table, and event bytes inside the region.
#[verifier::rlimit(100)]
#[verifier::spinoff_prover]
fn scan_staging(
    img: &FileImage,
    cap: u32,
    fin: u64,
    lastp: u64,
    Ghost(bs): Ghost<Seq<BlockM>>,
) -> (r: Result<Ghost<StagingM>, Error>)
    requires
        img.wf(),
        img.start_offset == 0,
        cap >= 2,
        blocks_wf(bs),
        img.stream() == stream_enc(bs),
        fin == fin_events(bs).len(),
        lastp == (if bs.len() == 0 {
            u64::MAX
        } else {
            bs.last().pos
        }),
    ensures
        match r {
            Ok(gsm) => staging_matches(img.staging(), cap, bs, gsm@) && (forall|
                mbs: Seq<BlockM>,
                msm: StagingM,
            | #[trigger]
                image_matches(img.data@, img.user_version, cap, mbs, msm) && mbs == bs ==> msm
                    == gsm@),
            Err(e) => e matches Error::DataCorruption { .. } && (forall|
                mbs: Seq<BlockM>,
                msm: StagingM,
            | #[trigger]
                image_matches(img.data@, img.user_version, cap, mbs, msm) ==> mbs != bs),
        },
{
    let ghost st = img.staging();
    proof {
        assert forall|mbs: Seq<BlockM>, msm: StagingM| #[trigger] image_matches(
            img.data@,
            img.user_version,
            cap,
            mbs,
            msm,
        ) && mbs == bs implies staging_matches(st, cap, bs, msm) by {
            let hdr = crate::records::MmapFileHeader::dec(img.data@.subrange(0, 32));
            assert(hdr == img.header_spec()) by {
                img.header_spec().lemma_enc();
            }
            assert(img.staging() =~= img.data@.subrange(
                4096 + img.end_offset as int,
                img.data@.len() as int,
            ));
        }
    }
    let sl = img.staging_len();
    let es64: u64 = 32 + 4 * (cap as u64);
    if (sl as u64) < es64 {
        proof {
            assert forall|mbs: Seq<BlockM>, msm: StagingM| #[trigger] image_matches(
                img.data@,
                img.user_version,
                cap,
                mbs,
                msm,
            ) implies mbs != bs by {
                if mbs == bs {
                    let n = msm.events.len() as int;
                    lemma_offsum_monotone(msm.events, 0, n);
                    assert(false);
                }
            }
        }
        return Err(Error::data_corruption("staging area too short", sl as u64, es64));
    }
    let es = es64 as usize;
    let sb = match img.staging_read(0, 32) {
        Ok(sb) => sb,
        Err(_) => {
            proof {
                assert(false);
            }
            return Err(Error::data_corruption("unreachable", 0, 0));
        },
    };
    let hd = match StagingHeader::parse(sb, 0) {
        Some(hd) => hd,
        None => {
            proof {
                assert forall|mbs: Seq<BlockM>, msm: StagingM| #[trigger] image_matches(
                    img.data@,
                    img.user_version,
                    cap,
                    mbs,
                    msm,
                ) implies mbs != bs by {
                    if mbs == bs {
                        let mh = StagingHeader {
                            last_block: msm.last_block,
                            start_idx: msm.start_idx,
                            count: msm.events.len() as u32,
                            capacity: cap,
                        };
                        mh.lemma_enc();
                        assert(sb@.subrange(0, 8) =~= mh.enc().subrange(0, 8));
                        assert(false);
                    }
                }
            }
            return Err(Error::data_corruption("magic value not found", 0, 0));
        },
    };
    proof {
        assert(sb@.subrange(0, 32) =~= sb@);
        assert forall|mbs: Seq<BlockM>, msm: StagingM| #[trigger] image_matches(
            img.data@,
            img.user_version,
            cap,
            mbs,
            msm,
        ) && mbs == bs implies msm.last_block == hd.last_block && msm.start_idx == hd.start_idx
            && msm.events.len() == hd.count && cap == hd.capacity by {
            let mh = StagingHeader {
                last_block: msm.last_block,
                start_idx: msm.start_idx,
                count: msm.events.len() as u32,
                capacity: cap,
            };
            mh.lemma_enc();
            assert(hd == StagingHeader::dec(mh.enc()));
        }
    }
    if hd.capacity != cap || hd.last_block != lastp || hd.start_idx != fin {
        proof {
            assert forall|mbs: Seq<BlockM>, msm: StagingM| #[trigger] image_matches(
                img.data@,
                img.user_version,
                cap,
                mbs,
                msm,
            ) implies mbs != bs by {
                if mbs == bs {
                    assert(false);
                }
            }
        }
        return Err(Error::data_corruption("staging header mismatch", hd.start_idx, fin));
    }
    if hd.count > cap - 2 {
        proof {
            assert forall|mbs: Seq<BlockM>, msm: StagingM| #[trigger] image_matches(
                img.data@,
                img.user_version,
                cap,
                mbs,
                msm,
            ) implies mbs != bs by {
                if mbs == bs {
                    assert(false);
                }
            }
        }
        return Err(Error::data_corruption("staged event count too large", hd.count as u64, cap as u64));
    }
    if hd.count as u64 > u64::MAX - hd.start_idx {
        proof {
            assert forall|mbs: Seq<BlockM>, msm: StagingM| #[trigger] image_matches(
                img.data@,
                img.user_version,
                cap,
                mbs,
                msm,
            ) implies mbs != bs by {
                if mbs == bs {
                    assert(false);
                }
            }
        }
        return Err(Error::data_corruption("event index overflow", hd.start_idx, 0));
    }
    let n = hd.count;
    let mut i: u32 = 0;
    let mut prev: u32 = 0;
    let ghost mut evs: Seq<Seq<u8>> = Seq::empty();
    // slot 0 must be zero; later slots must not decrease
    let s0 = match img.staging_read(32, 36) {
        Ok(s0) => s0,
        Err(_) => {
            proof {
                assert(false);
            }
            return Err(Error::data_corruption("unreachable", 0, 0));
        },
    };
    let j0 = read_be32(s0, 0);
    proof {
        assert(s0@.subrange(0, 4) =~= s0@);
        assert(s0@ =~= slot_bytes(st, 0));
    }
    if j0 != 0 {
        proof {
            assert forall|mbs: Seq<BlockM>, msm: StagingM| #[trigger] image_matches(
                img.data@,
                img.user_version,
                cap,
                mbs,
                msm,
            ) implies mbs != bs by {
                if mbs == bs {
                    assert(slot_bytes(st, 0) == be32(offsum(msm.events, 0) as u32));
                    lemma_be32(0u32, slot_bytes(st, 0));
                    assert(false);
                }
            }
        }
        return Err(Error::data_corruption("jump table does not start at zero", j0 as u64, 0));
    }
    proof {
        lemma_be32(j0, slot_bytes(st, 0));
        assert(slot_bytes(st, 0) == be32(0u32));
        assert(st.subrange(es as int, es as int) =~= concat_events(evs));
    }
    while i < n
        invariant
            img.wf(),
            img.start_offset == 0,
            st == img.staging(),
            cap >= 2,
            n == hd.count <= cap - 2,
            0 <= i <= n,
            es == 32 + 4 * (cap as int),
            es64 == 32 + 4 * (cap as u64),
            es == es64,
            sl as int == st.len(),
            st.len() >= es,
            forall|mbs: Seq<BlockM>, msm: StagingM| #[trigger] image_matches(
                img.data@,
                img.user_version,
                cap,
                mbs,
                msm,
            ) && mbs == bs ==> staging_matches(st, cap, bs, msm) && msm.events.len() == n,
            evs.len() == i,
            prev as int == offsum(evs, i as int),
            prev == be32_val(slot_bytes(st, i as int)),
            forall|q: int| 0 <= q <= i ==> #[trigger] slot_bytes(st, q) == be32(
                offsum(evs, q) as u32,
            ),
            st.subrange(es as int, es + offsum(evs, i as int)) == concat_events(evs),
            forall|q: int| 0 <= q < i ==> #[trigger] evs[q] == st.subrange(
                es + offsum(evs, q),
                es + offsum(evs, q + 1),
            ),
            offsum(evs, i as int) <= u32::MAX,
            st.len() >= es + offsum(evs, i as int),
        decreases n - i,
    {
        let at = 32 + 4 * (i as usize) + 4;
        let sn = match img.staging_read(at, at + 4) {
            Ok(sn) => sn,
            Err(_) => {
                proof {
                    assert(false);
                }
                return Err(Error::data_corruption("unreachable", 0, 0));
            },
        };
        let jn = read_be32(sn, 0);
        proof {
            assert(sn@.subrange(0, 4) =~= sn@);
            assert(sn@ =~= slot_bytes(st, i as int + 1));
        }
        if jn < prev {
            proof {
                lemma_staging_slot_reject(*img, cap, bs, st, n, i, prev, jn);
            }
            return Err(Error::data_corruption("jump table not monotone", jn as u64, prev as u64));
        }
        if (sl as u64) - es64 < jn as u64 {
            proof {
                lemma_staging_slot_reject(*img, cap, bs, st, n, i, prev, jn);
            }
            return Err(Error::data_corruption("staged events past staging end", jn as u64, sl as u64));
        }
        let ghost ev = st.subrange(es + prev as int, es + jn as int);
        proof {
            let evs2 = evs.push(ev);
            assert(evs2.drop_last() =~= evs);
            lemma_offsum_prefix(evs2, evs, i as int);
            assert(offsum(evs2, i as int + 1) == jn);
            assert(concat_events(evs2) == concat_events(evs) + ev);
            assert(st.subrange(es as int, es + jn as int) =~= concat_events(evs) + ev);
            assert forall|q: int| 0 <= q <= i + 1 implies #[trigger] slot_bytes(st, q) == be32(
                offsum(evs2, q) as u32,
            ) by {
                if q <= i {
                    lemma_offsum_prefix(evs2, evs, q);
                } else {
                    lemma_be32(jn, slot_bytes(st, i as int + 1));
                }
            }
            assert forall|q: int| 0 <= q < i + 1 implies #[trigger] evs2[q] == st.subrange(
                es + offsum(evs2, q),
                es + offsum(evs2, q + 1),
            ) by {
                if q < i {
                    lemma_offsum_prefix(evs2, evs, q);
                    lemma_offsum_prefix(evs2, evs, q + 1);
                } else {
                    lemma_offsum_prefix(evs2, evs, i as int);
                }
            }
            evs = evs2;
        }
        prev = jn;
        i += 1;
    }
    let ghost sm = StagingM { last_block: hd.last_block, start_idx: hd.start_idx, events: evs };
    proof {
        StagingHeader::lemma_bytes_enc(sb@, hd);
        assert(st.subrange(0, 32) =~= sb@);
        assert(staging_matches(st, cap, bs, sm));
        lemma_staging_unique(*img, cap, bs, st, n, evs, sm);
    }
    Ok(Ghost(sm))
}

/// No model matches an image whose staging jump table misbehaves at slot
/// `i + 1`: it decreases, or points past the staging end.
proof fn lemma_staging_slot_reject(
    img: FileImage,
    cap: u32,
    bs: Seq<BlockM>,
    st: Seq<u8>,
    n: u32,
    i: u32,
    prev: u32,
    jn: u32,
)
    requires
        st == img.staging(),
        0 <= i < n,
        prev == be32_val(slot_bytes(st, i as int)),
        jn == be32_val(slot_bytes(st, i as int + 1)),
        jn < prev || st.len() < 32 + 4 * (cap as int) + jn,
        forall|mbs: Seq<BlockM>, msm: StagingM| #[trigger] image_matches(
            img.data@,
            img.user_version,
            cap,
            mbs,
            msm,
        ) && mbs == bs ==> staging_matches(st, cap, bs, msm) && msm.events.len() == n,
    ensures
        forall|mbs: Seq<BlockM>, msm: StagingM| #[trigger] image_matches(
            img.data@,
            img.user_version,
            cap,
            mbs,
            msm,
        ) ==> mbs != bs,
{
    assert forall|mbs: Seq<BlockM>, msm: StagingM| #[trigger] image_matches(
        img.data@,
        img.user_version,
        cap,
        mbs,
        msm,
    ) implies mbs != bs by {
        if mbs == bs {
            assert(staging_matches(st, cap, bs, msm));
            assert(slot_bytes(st, i as int) == be32(offsum(msm.events, i as int) as u32));
            assert(slot_bytes(st, i as int + 1) == be32(offsum(msm.events, i as int + 1) as u32));
            lemma_be32(offsum(msm.events, i as int) as u32, seq![0u8, 0, 0, 0]);
            lemma_be32(offsum(msm.events, i as int + 1) as u32, seq![0u8, 0, 0, 0]);
            lemma_offsum_monotone(msm.events, 0, i as int);
            lemma_offsum_monotone(msm.events, i as int, i as int + 1);
            lemma_offsum_monotone(msm.events, i as int + 1, msm.events.len() as int);
            assert(false);
        }
    }
}

/// Any model matching an image agrees with the staging reconstruction.
#[verifier::rlimit(100)]
#[verifier::spinoff_prover]
proof fn lemma_staging_unique(
    img: FileImage,
    cap: u32,
    bs: Seq<BlockM>,
    st: Seq<u8>,
    n: u32,
    evs: Seq<Seq<u8>>,
    sm: StagingM,
)
    requires
        st == img.staging(),
        evs.len() == n,
        forall|q: int| 0 <= q <= n ==> #[trigger] slot_bytes(st, q) == be32(
            offsum(evs, q) as u32,
        ),
        forall|q: int| 0 <= q < n ==> #[trigger] evs[q] == st.subrange(
            32 + 4 * (cap as int) + offsum(evs, q),
            32 + 4 * (cap as int) + offsum(evs, q + 1),
        ),
        offsum(evs, n as int) <= u32::MAX,
        sm.events == evs,
        forall|mbs: Seq<BlockM>, msm: StagingM| #[trigger] image_matches(
            img.data@,
            img.user_version,
            cap,
            mbs,
            msm,
        ) && mbs == bs ==> staging_matches(st, cap, bs, msm) && msm.events.len() == n
            && msm.last_block == sm.last_block && msm.start_idx == sm.start_idx,
    ensures
        forall|mbs: Seq<BlockM>, msm: StagingM| #[trigger] image_matches(
            img.data@,
            img.user_version,
            cap,
            mbs,
            msm,
        ) && mbs == bs ==> msm == sm,
{
    let es = 32 + 4 * (cap as int);
    assert forall|mbs: Seq<BlockM>, msm: StagingM| #[trigger] image_matches(
        img.data@,
        img.user_version,
        cap,
        mbs,
        msm,
    ) && mbs == bs implies msm == sm by {
        assert(staging_matches(st, cap, bs, msm));
        crate::model::lemma_concat_events(msm.events);
        assert forall|q: int| 0 <= q < n implies msm.events[q] == evs[q] by {
            assert(slot_bytes(st, q) == be32(offsum(msm.events, q) as u32));
            assert(slot_bytes(st, q + 1) == be32(offsum(msm.events, q + 1) as u32));
            assert(slot_bytes(st, q) == be32(offsum(evs, q) as u32));
            assert(slot_bytes(st, q + 1) == be32(offsum(evs, q + 1) as u32));
            lemma_be32(offsum(msm.events, q) as u32, seq![0u8, 0, 0, 0]);
            lemma_be32(offsum(msm.events, q + 1) as u32, seq![0u8, 0, 0, 0]);
            lemma_be32(offsum(evs, q) as u32, seq![0u8, 0, 0, 0]);
            lemma_be32(offsum(evs, q + 1) as u32, seq![0u8, 0, 0, 0]);
            lemma_offsum_monotone(msm.events, 0, q);
            lemma_offsum_monotone(msm.events, q, q + 1);
            lemma_offsum_monotone(msm.events, q + 1, msm.events.len() as int);
            lemma_offsum_monotone(evs, 0, q);
            lemma_offsum_monotone(evs, q, q + 1);
            lemma_offsum_monotone(evs, q + 1, evs.len() as int);
            assert(offsum(msm.events, q) == offsum(evs, q));
            assert(offsum(msm.events, q + 1) == offsum(evs, q + 1));
            assert(msm.events[q] == concat_events(msm.events).subrange(
                offsum(msm.events, q),
                offsum(msm.events, q + 1),
            ));
            assert(msm.events[q] =~= st.subrange(
                es + offsum(evs, q),
                es + offsum(evs, q + 1),
            ));
        }
        assert(msm.events =~= evs);
    }
}
} // verus!
