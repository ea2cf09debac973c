//! The mathematical model of the finalized stream.
//!
//! The stream region is a sequence of blocks, each a leaf (compressed
//! events) or a branch (an index over sixteen children).  The model holds
//! one description per block, in file order; the log's invariant ties the
//! descriptions to the stream bytes.

use vstd::prelude::*;
use crate::be::{be32, be32_val};
use crate::codec::zstd_inv;
use crate::image::round8;
use crate::records::{BlockHeader, BranchHeader, IndexEntry, LeafHeader};

verus! {

/// The exact number of children of every branch block.
pub const FANOUT: usize = 16;

/// What one finalized block holds.
pub enum BlockBody {
    Leaf {
        /// Index of the first event in the leaf.
        start_idx: u64,
        /// Number of events in the leaf.
        count: u32,
        /// The compressed bytes stored in the file.
        cbytes: Seq<u8>,
    },
    Branch {
        /// Stream offset of the previous block of level at least this one.
        prev_offset: u64,
        /// Exclusive upper bound on the event indices covered.
        end_idx: u64,
        /// The sixteen child pointers, oldest first.
        entries: Seq<IndexEntry>,
    },
}

/// One finalized block.
pub struct BlockM {
    /// Stream offset of the block's header.
    pub pos: u64,
    /// Stream offset of the immediately preceding block, `u64::MAX` if none.
    pub prev: u64,
    /// 0 for a leaf, above 0 for a branch.
    pub level: u32,
    /// The `BlockHeader.length` field: payload length excluding padding.
    pub length: u32,
    pub body: BlockBody,
}

/// The staging area's logical content.
pub struct StagingM {
    /// Stream offset of the preceding block's header, `u64::MAX` if none.
    pub last_block: u64,
    /// Index of the first staged event.
    pub start_idx: u64,
    /// The staged events, oldest first.
    pub events: Seq<Seq<u8>>,
}

// ---------------------------------------------------------------------------
// Leaf payloads
// ---------------------------------------------------------------------------

/// Total byte length of the first `i` events.
pub open spec fn offsum(events: Seq<Seq<u8>>, i: int) -> int
    decreases i,
{
    if i <= 0 {
        0
    } else {
        offsum(events, i - 1) + events[i - 1].len()
    }
}

/// The events back to back.
pub open spec fn concat_events(events: Seq<Seq<u8>>) -> Seq<u8>
    decreases events.len(),
{
    if events.len() == 0 {
        Seq::empty()
    } else {
        concat_events(events.drop_last()) + events.last()
    }
}

/// The jump table of a leaf payload: `count + 1` big-endian positions, the
/// last being the total event byte length.
#[verifier::opaque]
pub open spec fn jump_enc(events: Seq<Seq<u8>>) -> Seq<u8> {
    Seq::new((events.len() + 1) * 4, |k: int| be32(offsum(events, k / 4) as u32)[k % 4])
}

/// The uncompressed payload of a leaf holding `events`.
pub open spec fn leaf_payload_of(events: Seq<Seq<u8>>) -> Seq<u8> {
    jump_enc(events) + concat_events(events)
}

/// The `i`-th jump-table value of payload `p`.
pub open spec fn payload_jump(p: Seq<u8>, i: int) -> int {
    be32_val(p.subrange(4 * i, 4 * i + 4)) as int
}

/// Structural validity of a decompressed leaf payload for `count` events.
pub open spec fn payload_wf(p: Seq<u8>, count: int) -> bool {
    &&& count >= 0
    &&& p.len() == 4 * (count + 1) + payload_jump(p, count)
    &&& payload_jump(p, 0) == 0
    &&& forall|i: int| 0 <= i < count ==> #[trigger] payload_jump(p, i) <= payload_jump(p, i + 1)
}

/// The events stored in payload `p`.
pub open spec fn payload_events(p: Seq<u8>, count: int) -> Seq<Seq<u8>> {
    Seq::new(
        count as nat,
        |i: int|
            p.subrange(
                4 * (count + 1) + payload_jump(p, i),
                4 * (count + 1) + payload_jump(p, i + 1),
            ),
    )
}

/// Event sizes always sum up monotonically.
pub proof fn lemma_offsum_monotone(events: Seq<Seq<u8>>, i: int, j: int)
    requires
        0 <= i <= j,
    ensures
        offsum(events, i) <= offsum(events, j),
    decreases j - i,
{
    if i < j {
        lemma_offsum_monotone(events, i, j - 1);
    }
}

/// The concatenated events have the summed length, and each event sits at
/// its offsets.
pub proof fn lemma_concat_events(events: Seq<Seq<u8>>)
    ensures
        concat_events(events).len() == offsum(events, events.len() as int),
        forall|i: int| 0 <= i < events.len() ==> #[trigger] concat_events(events).subrange(
            offsum(events, i),
            offsum(events, i + 1),
        ) == events[i],
    decreases events.len(),
{
    if events.len() > 0 {
        let pre = events.drop_last();
        lemma_concat_events(pre);
        assert(offsum(events, events.len() - 1) == offsum(pre, pre.len() as int)) by {
            lemma_offsum_prefix(events, pre, events.len() - 1);
        }
        assert forall|i: int| 0 <= i < events.len() implies #[trigger] concat_events(
            events,
        ).subrange(offsum(events, i), offsum(events, i + 1)) == events[i] by {
            if i < events.len() - 1 {
                lemma_offsum_prefix(events, pre, i);
                lemma_offsum_prefix(events, pre, i + 1);
                lemma_offsum_monotone(pre, 0, i);
                lemma_offsum_monotone(pre, i, i + 1);
                lemma_offsum_monotone(pre, i + 1, pre.len() as int);
                assert(concat_events(events).subrange(offsum(events, i), offsum(events, i + 1))
                    =~= concat_events(pre).subrange(offsum(pre, i), offsum(pre, i + 1)));
            } else {
                assert(concat_events(events).subrange(offsum(events, i), offsum(events, i + 1))
                    =~= events.last());
            }
        }
    }
}

/// Offsets over a shared prefix agree.
pub proof fn lemma_offsum_prefix(events: Seq<Seq<u8>>, pre: Seq<Seq<u8>>, i: int)
    requires
        0 <= i <= pre.len(),
        pre.len() <= events.len(),
        forall|j: int| 0 <= j < pre.len() ==> events[j] == pre[j],
    ensures
        offsum(events, i) == offsum(pre, i),
    decreases i,
{
    if i > 0 {
        lemma_offsum_prefix(events, pre, i - 1);
    }
}

/// Encoding events as a leaf payload and reading them back is the identity.
pub proof fn lemma_leaf_payload(events: Seq<Seq<u8>>)
    requires
        offsum(events, events.len() as int) <= u32::MAX,
    ensures
        payload_wf(leaf_payload_of(events), events.len() as int),
        payload_events(leaf_payload_of(events), events.len() as int) == events,
        leaf_payload_of(events).len() == 4 * (events.len() + 1) + offsum(
            events,
            events.len() as int,
        ),
    decreases events.len(),
{
    reveal(jump_enc);
    let p = leaf_payload_of(events);
    let n = events.len() as int;
    lemma_concat_events(events);
    assert forall|i: int| 0 <= i <= n implies #[trigger] payload_jump(p, i) == offsum(
        events,
        i,
    ) by {
        lemma_offsum_monotone(events, 0, i);
        lemma_offsum_monotone(events, i, n);
        crate::be::lemma_be32(offsum(events, i) as u32, seq![0u8, 0, 0, 0]);
        assert(p.subrange(4 * i, 4 * i + 4) =~= be32(offsum(events, i) as u32));
    }
    assert forall|i: int| 0 <= i < n implies #[trigger] payload_jump(p, i) <= payload_jump(
        p,
        i + 1,
    ) by {
        lemma_offsum_monotone(events, i, i + 1);
    }
    assert forall|i: int| 0 <= i < n implies payload_events(p, n)[i] == events[i] by {
        lemma_offsum_monotone(events, 0, i);
        lemma_offsum_monotone(events, i + 1, n);
        assert(p.subrange(4 * (n + 1) + payload_jump(p, i), 4 * (n + 1) + payload_jump(p, i + 1))
            =~= concat_events(events).subrange(offsum(events, i), offsum(events, i + 1)));
    }
    assert(payload_events(p, n) =~= events);
}

// ---------------------------------------------------------------------------
// Blocks
// ---------------------------------------------------------------------------

impl BlockM {
    pub open spec fn is_leaf(self) -> bool {
        self.level == 0
    }

    /// Bytes this block occupies in the stream, padding included.
    pub open spec fn total_len(self) -> int {
        24 + round8(self.length as int)
    }

    /// First event index covered by the subtree rooted here.
    pub open spec fn span_lo(self) -> int {
        match self.body {
            BlockBody::Leaf { start_idx, .. } => start_idx as int,
            BlockBody::Branch { entries, .. } => entries[0].start_idx as int,
        }
    }

    /// One past the last event index covered by the subtree rooted here.
    pub open spec fn span_hi(self) -> int {
        match self.body {
            BlockBody::Leaf { start_idx, count, .. } => start_idx + count,
            BlockBody::Branch { end_idx, .. } => end_idx as int,
        }
    }

    /// Whether a leaf's stored bytes decompress to a well-formed payload;
    /// reading the leaf succeeds exactly when this holds.
    pub open spec fn good(self) -> bool {
        match self.body {
            BlockBody::Leaf { count, cbytes, .. } => match zstd_inv(cbytes) {
                Some(p) => payload_wf(p, count as int),
                None => false,
            },
            BlockBody::Branch { .. } => true,
        }
    }

    /// The decompressed payload of a leaf.
    pub open spec fn payload(self) -> Seq<u8> {
        match self.body {
            BlockBody::Leaf { cbytes, .. } => match zstd_inv(cbytes) {
                Some(p) => p,
                None => Seq::empty(),
            },
            BlockBody::Branch { .. } => Seq::empty(),
        }
    }

    /// The events of a leaf; branches carry none.
    pub open spec fn events(self) -> Seq<Seq<u8>> {
        match self.body {
            BlockBody::Leaf { count, .. } => payload_events(self.payload(), count as int),
            BlockBody::Branch { .. } => Seq::empty(),
        }
    }

    /// The block's bytes in the stream region, padding included.
    #[verifier::opaque]
    pub open spec fn enc(self) -> Seq<u8> {
        let head = BlockHeader {
            prev_block: self.prev,
            level: self.level,
            length: self.length,
        }.enc();
        match self.body {
            BlockBody::Leaf { start_idx, count, cbytes, .. } => head + LeafHeader {
                start_idx,
                count,
            }.enc() + cbytes + Seq::new((round8(cbytes.len() as int) - cbytes.len()) as nat, |i: int| 0u8),
            BlockBody::Branch { prev_offset, end_idx, entries } => head + BranchHeader {
                prev_offset,
                end_idx,
            }.enc() + entries_enc(entries),
        }
    }

    /// Local well-formedness of one block, independent of its neighbours.
    pub open spec fn local_wf(self) -> bool {
        match self.body {
            BlockBody::Leaf { start_idx, count, cbytes } => {
                &&& self.level == 0
                &&& count >= 1
                &&& start_idx + count <= u64::MAX
                &&& self.length == 24 + cbytes.len()
            },
            BlockBody::Branch { prev_offset, end_idx, entries } => {
                &&& self.level >= 1
                &&& self.length == 280
                &&& entries.len() == 16
            },
        }
    }
}

/// The dense byte array of a branch's child pointers.
#[verifier::opaque]
pub open spec fn entries_enc(entries: Seq<IndexEntry>) -> Seq<u8> {
    Seq::new(entries.len() * 16, |k: int| entries[k / 16].enc()[k % 16])
}

/// The stream region's bytes: every block's bytes back to back.
pub open spec fn stream_enc(bs: Seq<BlockM>) -> Seq<u8>
    decreases bs.len(),
{
    if bs.len() == 0 {
        Seq::empty()
    } else {
        stream_enc(bs.drop_last()) + bs.last().enc()
    }
}

/// All events finalized into leaves, in file order.
pub open spec fn fin_events(bs: Seq<BlockM>) -> Seq<Seq<u8>>
    decreases bs.len(),
{
    if bs.len() == 0 {
        Seq::empty()
    } else {
        fin_events(bs.drop_last()) + bs.last().events()
    }
}

/// The largest index below `i` whose block has level at least `lvl`, or -1.
pub open spec fn prev_ge(bs: Seq<BlockM>, i: int, lvl: int) -> int
    decreases i,
{
    if i <= 0 {
        -1
    } else if bs[i - 1].level >= lvl {
        i - 1
    } else {
        prev_ge(bs, i - 1, lvl)
    }
}

/// The largest index below `i` whose block has level above `lvl`, or -1.
pub open spec fn prev_gt(bs: Seq<BlockM>, i: int, lvl: int) -> int
    decreases i,
{
    if i <= 0 {
        -1
    } else if bs[i - 1].level > lvl {
        i - 1
    } else {
        prev_gt(bs, i - 1, lvl)
    }
}

/// The indices in `[lo, hi)` whose blocks have level exactly `lvl`,
/// ascending.
pub open spec fn kids(bs: Seq<BlockM>, lo: int, hi: int, lvl: int) -> Seq<int>
    decreases hi - lo,
{
    if lo >= hi {
        Seq::empty()
    } else if bs[hi - 1].level == lvl {
        kids(bs, lo, hi - 1, lvl).push(hi - 1)
    } else {
        kids(bs, lo, hi - 1, lvl)
    }
}

/// The trailing run at `lvl`: indices of the level-`lvl` blocks after the
/// last block of a higher level.
pub open spec fn run(bs: Seq<BlockM>, lvl: int) -> Seq<int> {
    kids(bs, prev_gt(bs, bs.len() as int, lvl) + 1, bs.len() as int, lvl)
}

/// Where the reverse search walk goes from block `i`: the immediate
/// predecessor for a leaf, the skip target for a branch.
pub open spec fn walk_next(bs: Seq<BlockM>, i: int) -> int {
    if bs[i].level == 0 {
        i - 1
    } else {
        prev_ge(bs, i, bs[i].level as int)
    }
}


// ---------------------------------------------------------------------------
// Layout lemmas
// ---------------------------------------------------------------------------

/// Rounding up to 8 adds less than 8 and lands on a multiple of 8.
pub proof fn lemma_round8(n: int)
    requires
        n >= 0,
    ensures
        n <= round8(n) < n + 8,
        round8(n) % 8 == 0,
{
}

/// A locally well-formed block occupies exactly its encoded bytes.
pub proof fn lemma_enc_len(b: BlockM)
    requires
        b.local_wf(),
    ensures
        b.enc().len() == b.total_len(),
        b.total_len() >= 48,
        b.total_len() % 8 == 0,
{
    reveal(BlockM::enc);
    reveal(entries_enc);
    let head = BlockHeader { prev_block: b.prev, level: b.level, length: b.length }.enc();
    BlockHeader { prev_block: b.prev, level: b.level, length: b.length }.lemma_enc();
    match b.body {
        BlockBody::Leaf { start_idx, count, cbytes } => {
            LeafHeader { start_idx, count }.lemma_enc();
            lemma_round8(cbytes.len() as int);
            lemma_round8(b.length as int);
        },
        BlockBody::Branch { prev_offset, end_idx, entries } => {
            BranchHeader { prev_offset, end_idx }.lemma_enc();
            lemma_round8(b.length as int);
        },
    }
}

/// The start of block `i` inside the stream region.
pub open spec fn block_pos(bs: Seq<BlockM>, i: int) -> int
    decreases i,
{
    if i <= 0 {
        0
    } else {
        block_pos(bs, i - 1) + bs[i - 1].total_len()
    }
}

/// Block positions only depend on the blocks before them.
pub proof fn lemma_block_pos_prefix(bs1: Seq<BlockM>, bs2: Seq<BlockM>, i: int)
    requires
        0 <= i <= bs1.len(),
        i <= bs2.len(),
        forall|j: int| 0 <= j < i ==> bs1[j] == bs2[j],
    ensures
        block_pos(bs1, i) == block_pos(bs2, i),
    decreases i,
{
    if i > 0 {
        lemma_block_pos_prefix(bs1, bs2, i - 1);
    }
}

/// The stream bytes of a block list have the summed length.
pub proof fn lemma_stream_enc_len(bs: Seq<BlockM>)
    requires
        forall|j: int| 0 <= j < bs.len() ==> (#[trigger] bs[j]).local_wf(),
    ensures
        stream_enc(bs).len() == block_pos(bs, bs.len() as int),
    decreases bs.len(),
{
    if bs.len() > 0 {
        let pre = bs.drop_last();
        lemma_stream_enc_len(pre);
        lemma_block_pos_prefix(bs, pre, bs.len() - 1);
        lemma_enc_len(bs.last());
    }
}

/// Each block's bytes sit at its position inside the stream bytes.
pub proof fn lemma_stream_enc_index(bs: Seq<BlockM>, i: int)
    requires
        forall|j: int| 0 <= j < bs.len() ==> (#[trigger] bs[j]).local_wf(),
        0 <= i < bs.len(),
    ensures
        0 <= block_pos(bs, i),
        block_pos(bs, i) + bs[i].total_len() <= stream_enc(bs).len(),
        stream_enc(bs).subrange(block_pos(bs, i), block_pos(bs, i) + bs[i].total_len())
            == bs[i].enc(),
    decreases bs.len(),
{
    lemma_stream_enc_len(bs);
    lemma_block_pos_nonneg(bs, i);
    let pre = bs.drop_last();
    lemma_stream_enc_len(pre);
    if i == bs.len() - 1 {
        lemma_block_pos_prefix(bs, pre, i);
        lemma_enc_len(bs[i]);
        assert(stream_enc(bs).subrange(block_pos(bs, i), block_pos(bs, i) + bs[i].total_len())
            =~= bs[i].enc());
    } else {
        lemma_stream_enc_index(pre, i);
        lemma_block_pos_prefix(bs, pre, i + 1);
        lemma_block_pos_prefix(bs, pre, i);
        lemma_enc_len(bs[i]);
        lemma_block_pos_mono_weak(pre, i + 1, pre.len() as int);
        assert(stream_enc(bs).subrange(block_pos(bs, i), block_pos(bs, i) + bs[i].total_len())
            =~= stream_enc(pre).subrange(block_pos(pre, i), block_pos(pre, i) + pre[i].total_len()));
    }
}

/// Positions never run backwards.
pub proof fn lemma_block_pos_nonneg(bs: Seq<BlockM>, i: int)
    requires
        forall|j: int| 0 <= j < bs.len() ==> (#[trigger] bs[j]).local_wf(),
        0 <= i <= bs.len(),
    ensures
        block_pos(bs, i) >= 0,
    decreases i,
{
    if i > 0 {
        lemma_block_pos_nonneg(bs, i - 1);
        lemma_enc_len(bs[i - 1]);
    }
}

/// Positions grow with the index.
pub proof fn lemma_block_pos_mono_weak(bs: Seq<BlockM>, i: int, j: int)
    requires
        forall|k: int| 0 <= k < bs.len() ==> (#[trigger] bs[k]).local_wf(),
        0 <= i <= j <= bs.len(),
    ensures
        block_pos(bs, i) <= block_pos(bs, j),
    decreases j - i,
{
    if i < j {
        lemma_block_pos_mono_weak(bs, i, j - 1);
        lemma_enc_len(bs[j - 1]);
        lemma_block_pos_nonneg(bs, i);
    }
}

/// A later block starts strictly after an earlier one ends.
pub proof fn lemma_block_pos_mono(bs: Seq<BlockM>, i: int, j: int)
    requires
        forall|k: int| 0 <= k < bs.len() ==> (#[trigger] bs[k]).local_wf(),
        0 <= i < j <= bs.len(),
    ensures
        block_pos(bs, i) + bs[i].total_len() <= block_pos(bs, j),
    decreases j - i,
{
    if i + 1 < j {
        lemma_block_pos_mono(bs, i, j - 1);
        lemma_enc_len(bs[j - 1]);
    }
}

// ---------------------------------------------------------------------------
// Prefix stability under push
// ---------------------------------------------------------------------------

/// Finalized events only grow when a block is appended.
pub proof fn lemma_fin_events_push(bs: Seq<BlockM>, b: BlockM)
    ensures
        fin_events(bs.push(b)) == fin_events(bs) + b.events(),
{
    assert(bs.push(b).drop_last() =~= bs);
    assert(bs.push(b).last() == b);
}

/// Finalized events of a prefix.
pub proof fn lemma_fin_events_take(bs1: Seq<BlockM>, bs2: Seq<BlockM>, i: int)
    requires
        0 <= i <= bs1.len(),
        i <= bs2.len(),
        forall|j: int| 0 <= j < i ==> bs1[j] == bs2[j],
    ensures
        fin_events(bs1.take(i)) == fin_events(bs2.take(i)),
{
    assert(bs1.take(i) =~= bs2.take(i));
}

/// The search for a previous block of at least `lvl` only looks below `i`.
pub proof fn lemma_prev_ge_prefix(bs1: Seq<BlockM>, bs2: Seq<BlockM>, i: int, lvl: int)
    requires
        0 <= i <= bs1.len(),
        i <= bs2.len(),
        forall|j: int| 0 <= j < i ==> bs1[j] == bs2[j],
    ensures
        prev_ge(bs1, i, lvl) == prev_ge(bs2, i, lvl),
    decreases i,
{
    if i > 0 {
        lemma_prev_ge_prefix(bs1, bs2, i - 1, lvl);
    }
}

/// The search for a previous block above `lvl` only looks below `i`.
pub proof fn lemma_prev_gt_prefix(bs1: Seq<BlockM>, bs2: Seq<BlockM>, i: int, lvl: int)
    requires
        0 <= i <= bs1.len(),
        i <= bs2.len(),
        forall|j: int| 0 <= j < i ==> bs1[j] == bs2[j],
    ensures
        prev_gt(bs1, i, lvl) == prev_gt(bs2, i, lvl),
    decreases i,
{
    if i > 0 {
        lemma_prev_gt_prefix(bs1, bs2, i - 1, lvl);
    }
}

/// The level-`lvl` indices in a window only depend on that window.
pub proof fn lemma_kids_prefix(bs1: Seq<BlockM>, bs2: Seq<BlockM>, lo: int, hi: int, lvl: int)
    requires
        0 <= lo,
        0 <= hi <= bs1.len(),
        hi <= bs2.len(),
        forall|j: int| 0 <= j < hi ==> bs1[j] == bs2[j],
    ensures
        kids(bs1, lo, hi, lvl) == kids(bs2, lo, hi, lvl),
    decreases hi - lo,
{
    if lo < hi {
        lemma_kids_prefix(bs1, bs2, lo, hi - 1, lvl);
    }
}

/// `prev_ge` lands on a block of at least `lvl`, with none above in between.
pub proof fn lemma_prev_ge_facts(bs: Seq<BlockM>, i: int, lvl: int)
    requires
        0 <= i <= bs.len(),
    ensures
        -1 <= prev_ge(bs, i, lvl) < i,
        prev_ge(bs, i, lvl) >= 0 ==> bs[prev_ge(bs, i, lvl)].level >= lvl,
        forall|k: int| prev_ge(bs, i, lvl) < k < i ==> (#[trigger] bs[k]).level < lvl,
    decreases i,
{
    if i > 0 && bs[i - 1].level < lvl {
        lemma_prev_ge_facts(bs, i - 1, lvl);
    }
}

/// `prev_gt` lands on a block above `lvl`, with none above in between.
pub proof fn lemma_prev_gt_facts(bs: Seq<BlockM>, i: int, lvl: int)
    requires
        0 <= i <= bs.len(),
    ensures
        -1 <= prev_gt(bs, i, lvl) < i,
        prev_gt(bs, i, lvl) >= 0 ==> bs[prev_gt(bs, i, lvl)].level > lvl,
        forall|k: int| prev_gt(bs, i, lvl) < k < i ==> (#[trigger] bs[k]).level <= lvl,
    decreases i,
{
    if i > 0 && bs[i - 1].level <= lvl {
        lemma_prev_gt_facts(bs, i - 1, lvl);
    }
}

// ---------------------------------------------------------------------------
// Kids and the reverse walk
// ---------------------------------------------------------------------------

/// Every kid lies in the window and has the level.
pub proof fn lemma_kids_range(bs: Seq<BlockM>, lo: int, hi: int, lvl: int)
    requires
        0 <= lo,
        hi <= bs.len(),
    ensures
        forall|t: int| 0 <= t < kids(bs, lo, hi, lvl).len() ==> lo <= #[trigger] kids(
            bs,
            lo,
            hi,
            lvl,
        )[t] < hi && bs[kids(bs, lo, hi, lvl)[t]].level == lvl,
    decreases hi - lo,
{
    if lo < hi {
        lemma_kids_range(bs, lo, hi - 1, lvl);
    }
}

/// Kid indices grow with their rank.
pub proof fn lemma_kids_sorted_le(bs: Seq<BlockM>, lo: int, hi: int, lvl: int, u: int, v: int)
    requires
        0 <= lo,
        hi <= bs.len(),
        0 <= u <= v < kids(bs, lo, hi, lvl).len(),
    ensures
        kids(bs, lo, hi, lvl)[u] <= kids(bs, lo, hi, lvl)[v],
    decreases hi - lo,
{
    if lo < hi {
        let ks = kids(bs, lo, hi, lvl);
        let pk = kids(bs, lo, hi - 1, lvl);
        if bs[hi - 1].level == lvl {
            if v < pk.len() {
                lemma_kids_sorted_le(bs, lo, hi - 1, lvl, u, v);
            } else if u < v {
                lemma_kids_range(bs, lo, hi - 1, lvl);
            }
        } else {
            lemma_kids_sorted_le(bs, lo, hi - 1, lvl, u, v);
        }
    }
}

/// Every level-`lvl` index of the window is a kid.
pub proof fn lemma_kids_complete(bs: Seq<BlockM>, lo: int, hi: int, lvl: int)
    requires
        0 <= lo,
        hi <= bs.len(),
    ensures
        forall|j: int| lo <= j < hi && (#[trigger] bs[j]).level == lvl ==> kids(
            bs,
            lo,
            hi,
            lvl,
        ).contains(j),
    decreases hi - lo,
{
    if lo < hi {
        lemma_kids_complete(bs, lo, hi - 1, lvl);
        let ks = kids(bs, lo, hi, lvl);
        let pk = kids(bs, lo, hi - 1, lvl);
        assert forall|j: int| lo <= j < hi && (#[trigger] bs[j]).level == lvl implies ks.contains(
            j,
        ) by {
            if j < hi - 1 {
                assert(pk.contains(j));
                let t = choose|t: int| 0 <= t < pk.len() && pk[t] == j;
                assert(ks[t] == j);
            } else {
                assert(bs[hi - 1].level == lvl);
                assert(ks[ks.len() - 1] == j);
            }
        }
    }
}

/// Between two adjacent kids no block of the level hides.
pub proof fn lemma_kids_gap(bs: Seq<BlockM>, lo: int, hi: int, lvl: int, t: int, j: int)
    requires
        0 <= lo,
        hi <= bs.len(),
        0 <= t < kids(bs, lo, hi, lvl).len() - 1,
        kids(bs, lo, hi, lvl)[t] < j < kids(bs, lo, hi, lvl)[t + 1],
    ensures
        bs[j].level != lvl,
    decreases hi - lo,
{
    let ks = kids(bs, lo, hi, lvl);
    lemma_kids_range(bs, lo, hi, lvl);
    if bs[j].level == lvl {
        lemma_kids_complete(bs, lo, hi, lvl);
        assert(ks.contains(j));
        let u = choose|u: int| 0 <= u < ks.len() && ks[u] == j;
        if u <= t {
            lemma_kids_sorted_le(bs, lo, hi, lvl, u, t);
        } else {
            lemma_kids_sorted_le(bs, lo, hi, lvl, t + 1, u);
        }
    }
}

/// Pushing a block extends the kid list of a window that ends at the old
/// length.
pub proof fn lemma_kids_push(bs: Seq<BlockM>, b: BlockM, lo: int, lvl: int)
    requires
        0 <= lo <= bs.len(),
    ensures
        kids(bs.push(b), lo, bs.len() as int + 1, lvl) == if b.level == lvl {
            kids(bs, lo, bs.len() as int, lvl).push(bs.len() as int)
        } else {
            kids(bs, lo, bs.len() as int, lvl)
        },
{
    lemma_kids_prefix(bs.push(b), bs, lo, bs.len() as int, lvl);
}

/// How many blocks from `lo` on have level at least `lvl`.
pub open spec fn count_ge_from(bs: Seq<BlockM>, lo: int, lvl: int) -> int
    decreases bs.len() - lo,
{
    if lo < 0 || lo >= bs.len() {
        0
    } else {
        count_ge_from(bs, lo + 1, lvl) + if bs[lo].level >= lvl {
            1int
        } else {
            0int
        }
    }
}

// ---------------------------------------------------------------------------
// Global well-formedness
// ---------------------------------------------------------------------------

/// Where block `off` sits in the list, or -1.
pub open spec fn find_block(bs: Seq<BlockM>, off: u64) -> int
    decreases bs.len(),
{
    if bs.len() == 0 {
        -1
    } else if bs.last().pos == off {
        bs.len() - 1
    } else {
        find_block(bs.drop_last(), off)
    }
}

/// Appending a block keeps earlier blocks findable.
pub proof fn lemma_find_block_push(bs: Seq<BlockM>, b: BlockM, off: u64)
    ensures
        find_block(bs.push(b), off) == if b.pos == off {
            bs.len() as int
        } else {
            find_block(bs, off)
        },
{
    assert(bs.push(b).drop_last() =~= bs);
}

/// What `find_block` returns really is the block at `off`.
pub proof fn lemma_find_block_facts(bs: Seq<BlockM>, off: u64)
    ensures
        -1 <= find_block(bs, off) < bs.len(),
        find_block(bs, off) >= 0 ==> bs[find_block(bs, off)].pos == off,
    decreases bs.len(),
{
    if bs.len() > 0 && bs.last().pos != off {
        lemma_find_block_facts(bs.drop_last(), off);
    }
}

/// A branch indexes exactly the run of child blocks behind it.
pub open spec fn branch_wf(bs: Seq<BlockM>, i: int) -> bool {
    let lvl = bs[i].level as int;
    let sk = prev_ge(bs, i, lvl);
    let ks = kids(bs, sk + 1, i, lvl - 1);
    match bs[i].body {
        BlockBody::Branch { prev_offset, end_idx, entries } => {
            &&& 1 <= i
            &&& bs[i - 1].level == lvl - 1
            &&& prev_offset == if sk == -1 {
                u64::MAX
            } else {
                bs[sk].pos
            }
            &&& ks.len() == 16
            &&& (forall|t: int| 0 <= t < 16 ==> (#[trigger] entries[t]).offset == bs[ks[t]].pos
                && entries[t].start_idx as int == bs[ks[t]].span_lo())
            &&& end_idx as int == bs[i - 1].span_hi()
        },
        BlockBody::Leaf { .. } => false,
    }
}

/// Instantiation marker for the per-block clauses of `blocks_wf`.
pub open spec fn wf_trig(bs: Seq<BlockM>, i: int) -> bool {
    true
}

/// The per-block consistency clauses: position chains, previous pointers
/// link, leaves number their events contiguously, branches index their
/// runs, and the reverse walk tiles the event indices.
pub open spec fn wf_at(bs: Seq<BlockM>, i: int) -> bool {
    &&& bs[i].local_wf()
    &&& bs[i].pos as int == block_pos(bs, i)
    &&& bs[i].prev == if i == 0 {
        u64::MAX
    } else {
        bs[i - 1].pos
    }
    &&& (bs[i].is_leaf() ==> bs[i].span_lo() == fin_events(bs.take(i)).len())
    &&& (!bs[i].is_leaf() ==> branch_wf(bs, i))
    &&& bs[i].span_lo() == if walk_next(bs, i) == -1 {
        0int
    } else {
        bs[walk_next(bs, i)].span_hi()
    }
}

/// The block list is internally consistent.
pub open spec fn blocks_wf(bs: Seq<BlockM>) -> bool {
    &&& (forall|i: int| #[trigger] wf_trig(bs, i) && 0 <= i < bs.len() ==> wf_at(bs, i))
    &&& (bs.len() > 0 ==> bs.last().span_hi() == fin_events(bs).len())
}

/// Every index of a well-formed list satisfies its clauses.
pub proof fn lemma_wf_at(bs: Seq<BlockM>, i: int)
    requires
        blocks_wf(bs),
        0 <= i < bs.len(),
    ensures
        wf_at(bs, i),
        bs[i].local_wf(),
{
    assert(wf_trig(bs, i));
}

/// All blocks of a well-formed list are locally well-formed.
pub proof fn lemma_wf_all(bs: Seq<BlockM>)
    requires
        blocks_wf(bs),
    ensures
        forall|j: int| 0 <= j < bs.len() ==> (#[trigger] bs[j]).local_wf(),
{
    assert forall|j: int| 0 <= j < bs.len() implies (#[trigger] bs[j]).local_wf() by {
        assert(wf_trig(bs, j));
    }
}

/// No level's trailing run has reached the fan-out.
pub open spec fn runs_bounded(bs: Seq<BlockM>) -> bool {
    forall|lvl: int| #![trigger run(bs, lvl)] 0 <= lvl ==> run(bs, lvl).len() <= 15
}

// ---------------------------------------------------------------------------
// Reading a block's records out of the stream bytes
// ---------------------------------------------------------------------------

/// The pieces of one block, as they sit in the stream bytes.
#[verifier::rlimit(60)]
#[verifier::spinoff_prover]
pub proof fn lemma_block_bytes(bs: Seq<BlockM>, i: int)
    requires
        forall|j: int| 0 <= j < bs.len() ==> (#[trigger] bs[j]).local_wf(),
        0 <= i < bs.len(),
    ensures
        0 <= block_pos(bs, i),
        block_pos(bs, i) + bs[i].total_len() <= stream_enc(bs).len(),
        stream_enc(bs).subrange(block_pos(bs, i), block_pos(bs, i) + 24) == (BlockHeader {
            prev_block: bs[i].prev,
            level: bs[i].level,
            length: bs[i].length,
        }).enc(),
        bs[i].body matches BlockBody::Leaf { start_idx, count, cbytes } ==> stream_enc(
            bs,
        ).subrange(block_pos(bs, i) + 24, block_pos(bs, i) + 48) == (LeafHeader {
            start_idx,
            count,
        }).enc() && stream_enc(bs).subrange(
            block_pos(bs, i) + 48,
            block_pos(bs, i) + 48 + cbytes.len(),
        ) == cbytes && stream_enc(bs).subrange(
            block_pos(bs, i) + 48 + cbytes.len(),
            block_pos(bs, i) + bs[i].total_len(),
        ) == Seq::new((round8(cbytes.len() as int) - cbytes.len()) as nat, |j: int| 0u8),
        bs[i].body matches BlockBody::Branch { prev_offset, end_idx, entries } ==> stream_enc(
            bs,
        ).subrange(block_pos(bs, i) + 24, block_pos(bs, i) + 48) == (BranchHeader {
            prev_offset,
            end_idx,
        }).enc() && (forall|t: int| 0 <= t < 16 ==> stream_enc(bs).subrange(
            block_pos(bs, i) + 48 + 16 * t,
            block_pos(bs, i) + 48 + 16 * t + 16,
        ) == (#[trigger] entries[t]).enc()),
{
    reveal(BlockM::enc);
    reveal(entries_enc);
    lemma_stream_enc_index(bs, i);
    lemma_enc_len(bs[i]);
    let e = bs[i].enc();
    let p = block_pos(bs, i);
    let se = stream_enc(bs);
    let head = BlockHeader { prev_block: bs[i].prev, level: bs[i].level, length: bs[i].length };
    head.lemma_enc();
    assert(se.subrange(p, p + 24) =~= e.subrange(0, 24));
    assert(e.subrange(0, 24) =~= head.enc());
    match bs[i].body {
        BlockBody::Leaf { start_idx, count, cbytes } => {
            let lh = LeafHeader { start_idx, count };
            lh.lemma_enc();
            assert(se.subrange(p + 24, p + 48) =~= e.subrange(24, 48));
            assert(e.subrange(24, 48) =~= lh.enc());
            assert(se.subrange(p + 48, p + 48 + cbytes.len()) =~= e.subrange(
                48,
                48 + cbytes.len() as int,
            ));
            assert(e.subrange(48, 48 + cbytes.len() as int) =~= cbytes);
            lemma_round8(cbytes.len() as int);
            lemma_round8(bs[i].length as int);
            assert(se.subrange(p + 48 + cbytes.len(), p + bs[i].total_len()) =~= e.subrange(
                48 + cbytes.len() as int,
                bs[i].total_len(),
            ));
            assert(e.subrange(48 + cbytes.len() as int, bs[i].total_len()) =~= Seq::new(
                (round8(cbytes.len() as int) - cbytes.len()) as nat,
                |j: int| 0u8,
            ));
        },
        BlockBody::Branch { prev_offset, end_idx, entries } => {
            let bh = BranchHeader { prev_offset, end_idx };
            bh.lemma_enc();
            assert(se.subrange(p + 24, p + 48) =~= e.subrange(24, 48));
            assert(e.subrange(24, 48) =~= bh.enc());
            assert forall|t: int| 0 <= t < 16 implies se.subrange(
                p + 48 + 16 * t,
                p + 48 + 16 * t + 16,
            ) == (#[trigger] entries[t]).enc() by {
                entries[t].lemma_enc();
                assert(se.subrange(p + 48 + 16 * t, p + 48 + 16 * t + 16) =~= e.subrange(
                    48 + 16 * t,
                    48 + 16 * t + 16,
                ));
                assert(e.subrange(48 + 16 * t, 48 + 16 * t + 16) =~= entries_enc(
                    entries,
                ).subrange(16 * t, 16 * t + 16));
                assert(entries_enc(entries).subrange(16 * t, 16 * t + 16) =~= entries[t].enc());
            }
        },
    }
}

// ---------------------------------------------------------------------------
// More layout facts
// ---------------------------------------------------------------------------

/// Block positions are 8-aligned.
pub proof fn lemma_block_pos_align(bs: Seq<BlockM>, i: int)
    requires
        forall|j: int| 0 <= j < bs.len() ==> (#[trigger] bs[j]).local_wf(),
        0 <= i <= bs.len(),
    ensures
        block_pos(bs, i) % 8 == 0,
    decreases i,
{
    if i > 0 {
        lemma_block_pos_align(bs, i - 1);
        lemma_enc_len(bs[i - 1]);
    }
}

/// Every block has a level-0-or-up predecessor search that steps one back.
pub proof fn lemma_prev_ge_zero(bs: Seq<BlockM>, i: int)
    requires
        0 < i <= bs.len(),
    ensures
        prev_ge(bs, i, 0) == i - 1,
{
}

/// The reverse walk from one member of a run lands on the previous member,
/// or on the boundary block.
pub proof fn lemma_run_step(bs: Seq<BlockM>, q: int, hi: int, c: int, t: int)
    requires
        -1 <= q < hi <= bs.len(),
        0 <= c,
        q >= 0 ==> bs[q].level > c,
        forall|k: int| q < k < hi ==> (#[trigger] bs[k]).level <= c,
        0 <= t < kids(bs, q + 1, hi, c).len(),
    ensures
        prev_ge(bs, kids(bs, q + 1, hi, c)[t], c) == if t == 0 {
            q
        } else {
            kids(bs, q + 1, hi, c)[t - 1]
        },
{
    let ks = kids(bs, q + 1, hi, c);
    lemma_kids_range(bs, q + 1, hi, c);
    let j = ks[t];
    let p = prev_ge(bs, j, c);
    lemma_prev_ge_facts(bs, j, c);
    if t > 0 {
        lemma_kids_sorted_le(bs, q + 1, hi, c, t - 1, t);
        assert(ks[t - 1] < j) by {
            lemma_kids_gap_distinct(bs, q + 1, hi, c, t - 1);
        }
        assert(p >= ks[t - 1]);
        if p > ks[t - 1] {
            assert(bs[p].level >= c);
            assert(bs[p].level <= c);
            lemma_kids_gap(bs, q + 1, hi, c, t - 1, p);
            assert(false);
        }
    } else {
        if p > q {
            assert(bs[p].level == c);
            lemma_kids_complete(bs, q + 1, hi, c);
            assert(ks.contains(p));
            let u = choose|u: int| 0 <= u < ks.len() && ks[u] == p;
            lemma_kids_sorted_le(bs, q + 1, hi, c, 0, u);
            assert(false);
        }
        if q >= 0 {
            assert(bs[q].level >= c);
            lemma_prev_ge_at_least(bs, j, c, q);
        }
    }
}

/// Adjacent kids are distinct.
pub proof fn lemma_kids_gap_distinct(bs: Seq<BlockM>, lo: int, hi: int, lvl: int, t: int)
    requires
        0 <= lo,
        hi <= bs.len(),
        0 <= t < kids(bs, lo, hi, lvl).len() - 1,
    ensures
        kids(bs, lo, hi, lvl)[t] < kids(bs, lo, hi, lvl)[t + 1],
    decreases hi - lo,
{
    if lo < hi {
        let pk = kids(bs, lo, hi - 1, lvl);
        if bs[hi - 1].level == lvl {
            if t + 1 < pk.len() {
                lemma_kids_gap_distinct(bs, lo, hi - 1, lvl, t);
            } else {
                lemma_kids_range(bs, lo, hi - 1, lvl);
            }
        } else {
            lemma_kids_gap_distinct(bs, lo, hi - 1, lvl, t);
        }
    }
}

/// A qualifying block below `i` bounds the search from below.
pub proof fn lemma_prev_ge_at_least(bs: Seq<BlockM>, i: int, lvl: int, w: int)
    requires
        0 <= w < i <= bs.len(),
        bs[w].level >= lvl,
    ensures
        prev_ge(bs, i, lvl) >= w,
    decreases i,
{
    if i - 1 > w && bs[i - 1].level < lvl {
        lemma_prev_ge_at_least(bs, i - 1, lvl, w);
    }
}

/// How appending one block changes a trailing run.
pub proof fn lemma_run_push(bs: Seq<BlockM>, b: BlockM, l: int)
    requires
        0 <= l,
    ensures
        run(bs.push(b), l) == if b.level > l {
            Seq::<int>::empty()
        } else if b.level == l {
            run(bs, l).push(bs.len() as int)
        } else {
            run(bs, l)
        },
{
    let bs2 = bs.push(b);
    let n = bs.len() as int;
    if b.level > l {
        assert(prev_gt(bs2, n + 1, l) == n);
        assert(kids(bs2, n + 1, n + 1, l) =~= Seq::<int>::empty());
        assert(run(bs2, l) =~= Seq::<int>::empty());
    } else {
        assert(prev_gt(bs2, n + 1, l) == prev_gt(bs2, n, l));
        lemma_prev_gt_prefix(bs2, bs, n, l);
        lemma_prev_gt_facts(bs, n, l);
        lemma_kids_push(bs, b, prev_gt(bs, n, l) + 1, l);
    }
}

// ---------------------------------------------------------------------------
// Counting measure for the cascade
// ---------------------------------------------------------------------------

/// How many blocks in `[lo, hi)` have level at least `lvl`.
pub open spec fn count_ge_range(bs: Seq<BlockM>, lo: int, hi: int, lvl: int) -> int
    decreases hi - lo,
{
    if lo >= hi {
        0
    } else {
        count_ge_range(bs, lo, hi - 1, lvl) + if bs[hi - 1].level >= lvl {
            1int
        } else {
            0int
        }
    }
}

/// The count never goes negative and shrinks as the level grows.
pub proof fn lemma_count_ge_range_level(bs: Seq<BlockM>, lo: int, hi: int, lvl: int)
    ensures
        0 <= count_ge_range(bs, lo, hi, lvl),
        count_ge_range(bs, lo, hi, lvl + 1) <= count_ge_range(bs, lo, hi, lvl),
    decreases hi - lo,
{
    if lo < hi {
        lemma_count_ge_range_level(bs, lo, hi - 1, lvl);
    }
}

/// Counts add over split ranges.
pub proof fn lemma_count_ge_range_split(bs: Seq<BlockM>, lo: int, mid: int, hi: int, lvl: int)
    requires
        lo <= mid <= hi,
    ensures
        count_ge_range(bs, lo, hi, lvl) == count_ge_range(bs, lo, mid, lvl) + count_ge_range(
            bs,
            mid,
            hi,
            lvl,
        ),
    decreases hi - mid,
{
    if mid < hi {
        lemma_count_ge_range_split(bs, lo, mid, hi - 1, lvl);
    }
}

/// Each kid of level `lvl` is counted above what level `lvl + 1` counts.
pub proof fn lemma_count_ge_range_kids(bs: Seq<BlockM>, lo: int, hi: int, lvl: int)
    requires
        0 <= lo,
        hi <= bs.len(),
    ensures
        kids(bs, lo, hi, lvl).len() + count_ge_range(bs, lo, hi, lvl + 1) <= count_ge_range(
            bs,
            lo,
            hi,
            lvl,
        ),
    decreases hi - lo,
{
    if lo < hi {
        lemma_count_ge_range_kids(bs, lo, hi - 1, lvl);
    }
}

/// A pushed block adds one to the counts at or below its level.
pub proof fn lemma_count_ge_range_push(bs: Seq<BlockM>, b: BlockM, lvl: int)
    ensures
        count_ge_range(bs.push(b), 0, bs.len() as int + 1, lvl) == count_ge_range(
            bs,
            0,
            bs.len() as int,
            lvl,
        ) + if b.level >= lvl {
            1int
        } else {
            0int
        },
    decreases bs.len(),
{
    lemma_count_ge_range_prefix(bs.push(b), bs, 0, bs.len() as int, lvl);
}

/// Counts only look at the window.
pub proof fn lemma_count_ge_range_prefix(
    bs1: Seq<BlockM>,
    bs2: Seq<BlockM>,
    lo: int,
    hi: int,
    lvl: int,
)
    requires
        hi <= bs1.len(),
        hi <= bs2.len(),
        forall|j: int| lo <= j < hi ==> bs1[j] == bs2[j],
    ensures
        count_ge_range(bs1, lo, hi, lvl) == count_ge_range(bs2, lo, hi, lvl),
    decreases hi - lo,
{
    if lo < hi {
        lemma_count_ge_range_prefix(bs1, bs2, lo, hi - 1, lvl);
    }
}

// ---------------------------------------------------------------------------
// Appending one block to a well-formed list
// ---------------------------------------------------------------------------

/// What the new block must bring along so that the grown list is still
/// well-formed.
pub open spec fn push_ok(bs: Seq<BlockM>, b: BlockM) -> bool {
    &&& b.local_wf()
    &&& b.pos as int == block_pos(bs, bs.len() as int)
    &&& b.prev == if bs.len() == 0 {
        u64::MAX
    } else {
        bs.last().pos
    }
    &&& if b.is_leaf() {
        b.span_lo() == fin_events(bs).len()
    } else {
        let lvl = b.level as int;
        let q = prev_ge(bs, bs.len() as int, lvl);
        let ks = kids(bs, q + 1, bs.len() as int, lvl - 1);
        match b.body {
            BlockBody::Branch { prev_offset, end_idx, entries } => {
                &&& bs.len() >= 1
                &&& bs.last().level == lvl - 1
                &&& prev_offset == if q == -1 {
                    u64::MAX
                } else {
                    bs[q].pos
                }
                &&& ks.len() == 16
                &&& (forall|t: int| 0 <= t < 16 ==> (#[trigger] entries[t]).offset == bs[ks[t]].pos
                    && entries[t].start_idx as int == bs[ks[t]].span_lo())
                &&& end_idx as int == bs.last().span_hi()
            },
            BlockBody::Leaf { .. } => false,
        }
    }
}

/// Appending a block that fits keeps the list well-formed.
#[verifier::rlimit(100)]
#[verifier::spinoff_prover]
pub proof fn lemma_blocks_wf_push(bs: Seq<BlockM>, b: BlockM)
    requires
        blocks_wf(bs),
        push_ok(bs, b),
    ensures
        blocks_wf(bs.push(b)),
        fin_events(bs.push(b)) == fin_events(bs) + b.events(),
{
    let bs2 = bs.push(b);
    let n = bs.len() as int;
    lemma_fin_events_push(bs, b);
    assert forall|i: int| #[trigger] wf_trig(bs2, i) && 0 <= i < bs2.len() implies wf_at(
        bs2,
        i,
    ) by {
        if i < n {
            assert(wf_trig(bs, i));
            lemma_block_pos_prefix(bs2, bs, i);
            lemma_fin_events_take(bs2, bs, i);
            lemma_prev_ge_prefix(bs2, bs, i, bs2[i].level as int);
            assert(walk_next(bs2, i) == walk_next(bs, i));
            if !bs2[i].is_leaf() {
                assert(branch_wf(bs, i));
                let lvl = bs[i].level as int;
                let sk = prev_ge(bs, i, lvl);
                lemma_prev_ge_facts(bs, i, lvl);
                lemma_kids_prefix(bs2, bs, sk + 1, i, lvl - 1);
                lemma_kids_range(bs, sk + 1, i, lvl - 1);
                assert(branch_wf(bs2, i));
            }
        } else {
            assert(wf_trig(bs, n - 1));
            lemma_block_pos_prefix(bs2, bs, n);
            if b.is_leaf() {
                assert(walk_next(bs2, n) == n - 1);
                assert(bs2.take(n) =~= bs);
            } else {
                let lvl = b.level as int;
                let q = prev_ge(bs, n, lvl);
                let ks = kids(bs, q + 1, n, lvl - 1);
                lemma_prev_ge_prefix(bs2, bs, n, lvl);
                assert(walk_next(bs2, n) == q);
                lemma_prev_ge_facts(bs, n, lvl);
                lemma_kids_prefix(bs2, bs, q + 1, n, lvl - 1);
                lemma_kids_range(bs, q + 1, n, lvl - 1);
                assert(branch_wf(bs2, n));
                // tiling of the new branch
                lemma_prev_ge_facts(bs, n, lvl);
                lemma_run_step_walk(bs, q, n, lvl - 1, 0);
                assert(wf_trig(bs, ks[0]));
                assert(b.span_lo() == bs[ks[0]].span_lo());
                assert(bs[ks[0]].span_lo() == if q == -1 {
                    0int
                } else {
                    bs[q].span_hi()
                });
            }
        }
    }
    assert(bs2.last().span_hi() == fin_events(bs2).len()) by {
        if b.is_leaf() {
            match b.body {
                BlockBody::Leaf { start_idx, count, cbytes } => {
                    assert(b.events().len() == count);
                },
                BlockBody::Branch { .. } => {},
            }
            assert(wf_trig(bs, bs.len() - 1));
        } else {
            assert(wf_trig(bs, bs.len() - 1));
            assert(fin_events(bs) + b.events() =~= fin_events(bs));
        }
    }
}

/// The walk from kid `t` reaches kid `t - 1`, or the boundary.
pub proof fn lemma_run_step_walk(bs: Seq<BlockM>, q: int, hi: int, c: int, t: int)
    requires
        blocks_wf(bs),
        -1 <= q < hi <= bs.len(),
        0 <= c,
        q >= 0 ==> bs[q].level > c,
        forall|k: int| q < k < hi ==> (#[trigger] bs[k]).level <= c,
        0 <= t < kids(bs, q + 1, hi, c).len(),
    ensures
        walk_next(bs, kids(bs, q + 1, hi, c)[t]) == if t == 0 {
            q
        } else {
            kids(bs, q + 1, hi, c)[t - 1]
        },
{
    lemma_run_step(bs, q, hi, c, t);
    lemma_kids_range(bs, q + 1, hi, c);
    let j = kids(bs, q + 1, hi, c)[t];
    assert(wf_trig(bs, j));
    if bs[j].level == 0 && j > 0 {
        lemma_prev_ge_zero(bs, j);
    }
}


/// Strictly-above search equals at-least search one level up.
pub proof fn lemma_prev_gt_ge(bs: Seq<BlockM>, i: int, l: int)
    requires
        0 <= i <= bs.len(),
    ensures
        prev_gt(bs, i, l) == prev_ge(bs, i, l + 1),
    decreases i,
{
    if i > 0 {
        lemma_prev_gt_ge(bs, i - 1, l);
    }
}

/// The events of a prefix of the list are a prefix of all events.
pub proof fn lemma_fin_prefix(bs: Seq<BlockM>, k: int)
    requires
        0 <= k <= bs.len(),
    ensures
        fin_events(bs.take(k)).len() <= fin_events(bs).len(),
        fin_events(bs.take(k)) == fin_events(bs).take(fin_events(bs.take(k)).len() as int),
    decreases bs.len(),
{
    if k < bs.len() {
        let pre = bs.drop_last();
        assert(bs.take(k) =~= pre.take(k));
        lemma_fin_prefix(pre, k);
        assert(fin_events(bs) == fin_events(pre) + bs.last().events());
        assert(fin_events(pre.take(k)) =~= fin_events(bs).take(
            fin_events(pre.take(k)).len() as int,
        ));
    } else {
        assert(bs.take(k) =~= bs);
    }
}

/// A leaf's events sit at its span inside all finalized events.
pub proof fn lemma_leaf_events_at(bs: Seq<BlockM>, i: int)
    requires
        blocks_wf(bs),
        0 <= i < bs.len(),
        bs[i].is_leaf(),
    ensures
        0 <= bs[i].span_lo() < bs[i].span_hi() <= fin_events(bs).len(),
        fin_events(bs).subrange(bs[i].span_lo(), bs[i].span_hi()) == bs[i].events(),
{
    lemma_wf_at(bs, i);
    lemma_fin_prefix(bs, i);
    lemma_fin_prefix(bs, i + 1);
    assert(bs.take(i + 1) =~= bs.take(i).push(bs[i]));
    lemma_fin_events_push(bs.take(i), bs[i]);
    let lo = bs[i].span_lo();
    let hi = bs[i].span_hi();
    match bs[i].body {
        BlockBody::Leaf { start_idx, count, cbytes } => {
            assert(bs[i].events().len() == count);
        },
        BlockBody::Branch { .. } => {},
    }
    assert(fin_events(bs.take(i + 1)) == fin_events(bs.take(i)) + bs[i].events());
    assert(fin_events(bs.take(i + 1)).len() == hi);
    assert(fin_events(bs).subrange(lo, hi) =~= fin_events(bs.take(i + 1)).subrange(lo, hi));
    assert(fin_events(bs.take(i + 1)).subrange(lo, hi) =~= bs[i].events());
}

/// Every block covers at least one event, and the kids of a window tile it.
pub proof fn lemma_span_nonempty(bs: Seq<BlockM>, i: int)
    requires
        blocks_wf(bs),
        0 <= i < bs.len(),
    ensures
        bs[i].span_lo() < bs[i].span_hi(),
        bs[i].span_lo() >= 0,
    decreases i, 1int, 0int,
{
    lemma_wf_at(bs, i);
    if bs[i].is_leaf() {
        lemma_fin_prefix(bs, i);
        assert(fin_events(bs.take(i)).len() >= 0);
    } else {
        let lvl = bs[i].level as int;
        let q = prev_ge(bs, i, lvl);
        let ks = kids(bs, q + 1, i, lvl - 1);
        lemma_prev_ge_facts(bs, i, lvl);
        lemma_kids_range(bs, q + 1, i, lvl - 1);
        assert(branch_wf(bs, i));
        // span_lo == entries[0].start_idx == span_lo(ks[0]); span_hi == span_hi(i-1)
        lemma_kids_span_chain(bs, q, i, lvl - 1);
        let last = ks[ks.len() - 1];
        assert(bs[i - 1].level == lvl - 1);
        lemma_kids_complete(bs, q + 1, i, lvl - 1);
        assert(ks.contains(i - 1));
        let u = choose|u: int| 0 <= u < ks.len() && ks[u] == i - 1;
        if u < ks.len() - 1 {
            lemma_kids_sorted_le(bs, q + 1, i, lvl - 1, u, ks.len() - 1);
        }
        assert(last == i - 1);
        lemma_kids_chain_lo(bs, q, i, lvl - 1, 0, ks.len() - 1);
        lemma_span_nonempty(bs, ks[0]);
        lemma_span_nonempty(bs, i - 1);
    }
}

/// Along a run, spans tile: each kid starts where the one before ended.
pub proof fn lemma_kids_span_chain(bs: Seq<BlockM>, q: int, hi: int, c: int)
    requires
        blocks_wf(bs),
        -1 <= q < hi <= bs.len(),
        0 <= c,
        q >= 0 ==> bs[q].level > c,
        forall|k: int| q < k < hi ==> (#[trigger] bs[k]).level <= c,
    ensures
        forall|t: int| 0 < t < kids(bs, q + 1, hi, c).len() ==> bs[#[trigger] kids(
            bs,
            q + 1,
            hi,
            c,
        )[t]].span_lo() == bs[kids(bs, q + 1, hi, c)[t - 1]].span_hi(),
        kids(bs, q + 1, hi, c).len() > 0 ==> bs[kids(bs, q + 1, hi, c)[0]].span_lo() == (if q == -1 {
            0int
        } else {
            bs[q].span_hi()
        }),
{
    let ks = kids(bs, q + 1, hi, c);
    lemma_kids_range(bs, q + 1, hi, c);
    assert forall|t: int| 0 < t < ks.len() implies bs[#[trigger] ks[t]].span_lo()
        == bs[ks[t - 1]].span_hi() by {
        lemma_run_step_walk(bs, q, hi, c, t);
        lemma_wf_at(bs, ks[t]);
    }
    if ks.len() > 0 {
        lemma_run_step_walk(bs, q, hi, c, 0);
        lemma_wf_at(bs, ks[0]);
    }
}

/// The first kid's start carries along the chain below any kid.
pub proof fn lemma_kids_chain_lo(bs: Seq<BlockM>, q: int, hi: int, c: int, u: int, v: int)
    requires
        blocks_wf(bs),
        -1 <= q < hi <= bs.len(),
        0 <= c,
        q >= 0 ==> bs[q].level > c,
        forall|k: int| q < k < hi ==> (#[trigger] bs[k]).level <= c,
        0 <= u <= v < kids(bs, q + 1, hi, c).len(),
    ensures
        bs[kids(bs, q + 1, hi, c)[u]].span_lo() <= bs[kids(bs, q + 1, hi, c)[v]].span_lo(),
    decreases hi, 0int, v - u,
{
    if u < v {
        lemma_kids_chain_lo(bs, q, hi, c, u, v - 1);
        lemma_kids_span_chain(bs, q, hi, c);
        lemma_kids_range(bs, q + 1, hi, c);
        lemma_span_nonempty(bs, kids(bs, q + 1, hi, c)[v - 1]);
    }
}

/// A block that is present is found.
pub proof fn lemma_find_block_complete(bs: Seq<BlockM>, i: int)
    requires
        0 <= i < bs.len(),
    ensures
        find_block(bs, bs[i].pos) >= 0,
    decreases bs.len(),
{
    if bs.last().pos != bs[i].pos {
        lemma_find_block_complete(bs.drop_last(), i);
    }
}

/// Powers of the fan-out.
pub open spec fn pow16(l: int) -> int
    decreases l,
{
    if l <= 0 {
        1
    } else {
        16 * pow16(l - 1)
    }
}

/// Powers of the fan-out are positive and grow.
pub proof fn lemma_pow16_pos(l: int)
    ensures
        pow16(l) >= 1,
    decreases l,
{
    if l > 0 {
        lemma_pow16_pos(l - 1);
    }
}

/// The seventeenth power of the fan-out exceeds the index space.
pub proof fn lemma_pow16_17()
    ensures
        pow16(17) > u64::MAX,
{
    assert(pow16(1) == 16 * pow16(0));
    assert(pow16(2) == 16 * pow16(1));
    assert(pow16(3) == 16 * pow16(2));
    assert(pow16(4) == 16 * pow16(3));
    assert(pow16(5) == 16 * pow16(4));
    assert(pow16(6) == 16 * pow16(5));
    assert(pow16(7) == 16 * pow16(6));
    assert(pow16(8) == 16 * pow16(7));
    assert(pow16(9) == 16 * pow16(8));
    assert(pow16(10) == 16 * pow16(9));
    assert(pow16(11) == 16 * pow16(10));
    assert(pow16(12) == 16 * pow16(11));
    assert(pow16(13) == 16 * pow16(12));
    assert(pow16(14) == 16 * pow16(13));
    assert(pow16(15) == 16 * pow16(14));
    assert(pow16(16) == 16 * pow16(15));
    assert(pow16(17) == 16 * pow16(16));
}

/// Powers of the fan-out are monotone.
pub proof fn lemma_pow16_mono(a: int, b: int)
    requires
        a <= b,
    ensures
        pow16(a) <= pow16(b),
    decreases b - a,
{
    if a < b {
        lemma_pow16_mono(a, b - 1);
        lemma_pow16_pos(b - 1);
    }
}

/// No block covers an index past the finalized events.
pub proof fn lemma_span_hi_le_fin(bs: Seq<BlockM>, i: int)
    requires
        blocks_wf(bs),
        0 <= i < bs.len(),
    ensures
        bs[i].span_hi() <= fin_events(bs).len(),
    decreases i,
{
    lemma_wf_at(bs, i);
    if bs[i].is_leaf() {
        lemma_leaf_events_at(bs, i);
    } else {
        assert(branch_wf(bs, i));
        lemma_span_hi_le_fin(bs, i - 1);
    }
}

/// Along a run, spans add up: each kid contributes at least the subtree
/// minimum for its level.
pub proof fn lemma_kids_span_sum(bs: Seq<BlockM>, q: int, hi: int, c: int, t: int)
    requires
        blocks_wf(bs),
        -1 <= q < hi <= bs.len(),
        0 <= c,
        q >= 0 ==> bs[q].level > c,
        forall|k: int| q < k < hi ==> (#[trigger] bs[k]).level <= c,
        0 <= t < kids(bs, q + 1, hi, c).len(),
    ensures
        bs[kids(bs, q + 1, hi, c)[t]].span_hi() - bs[kids(bs, q + 1, hi, c)[0]].span_lo() >= (t
            + 1) * pow16(c),
    decreases hi, 0int, t,
{
    let ks = kids(bs, q + 1, hi, c);
    lemma_kids_range(bs, q + 1, hi, c);
    lemma_span_pow(bs, ks[t]);
    if t > 0 {
        lemma_kids_span_sum(bs, q, hi, c, t - 1);
        lemma_kids_span_chain(bs, q, hi, c);
        assert(bs[ks[t]].span_lo() == bs[ks[t - 1]].span_hi());
        assert((t + 1) * pow16(c) == t * pow16(c) + pow16(c)) by (nonlinear_arith);
    } else {
        assert(1 * pow16(c) == pow16(c)) by (nonlinear_arith);
    }
}

/// A block of level `l` covers at least the `l`-th power of the fan-out.
pub proof fn lemma_span_pow(bs: Seq<BlockM>, i: int)
    requires
        blocks_wf(bs),
        0 <= i < bs.len(),
    ensures
        bs[i].span_hi() - bs[i].span_lo() >= pow16(bs[i].level as int),
    decreases i, 1int, 0int,
{
    lemma_wf_at(bs, i);
    if bs[i].is_leaf() {
    } else {
        let lvl = bs[i].level as int;
        let q = prev_ge(bs, i, lvl);
        let ks = kids(bs, q + 1, i, lvl - 1);
        lemma_prev_ge_facts(bs, i, lvl);
        lemma_kids_range(bs, q + 1, i, lvl - 1);
        assert(branch_wf(bs, i));
        lemma_kids_span_sum(bs, q, i, lvl - 1, 15);
        // the newest kid is the block just below the branch
        lemma_kids_complete(bs, q + 1, i, lvl - 1);
        assert(ks.contains(i - 1));
        let u = choose|u: int| 0 <= u < ks.len() && ks[u] == i - 1;
        if u < ks.len() - 1 {
            lemma_kids_sorted_le(bs, q + 1, i, lvl - 1, u, ks.len() - 1);
        }
        assert(ks[15] == i - 1);
        assert(bs[i].span_lo() == bs[ks[0]].span_lo());
        assert(bs[i].span_hi() == bs[ks[15]].span_hi());
    }
}

/// The block just before index `k` covers the events of the whole prefix.
pub proof fn lemma_prefix_fin(bs: Seq<BlockM>, k: int)
    requires
        blocks_wf(bs),
        0 < k <= bs.len(),
    ensures
        bs[k - 1].span_hi() == fin_events(bs.take(k)).len(),
    decreases k,
{
    lemma_wf_at(bs, k - 1);
    assert(bs.take(k) =~= bs.take(k - 1).push(bs[k - 1]));
    lemma_fin_events_push(bs.take(k - 1), bs[k - 1]);
    if bs[k - 1].is_leaf() {
        match bs[k - 1].body {
            BlockBody::Leaf { start_idx, count, cbytes } => {
                assert(bs[k - 1].events().len() == count);
            },
            BlockBody::Branch { .. } => {},
        }
    } else {
        assert(branch_wf(bs, k - 1));
        lemma_prefix_fin(bs, k - 1);
        assert(fin_events(bs.take(k)) =~= fin_events(bs.take(k - 1)));
    }
}
} // verus!
