//! The laws the log obeys, stated over its model and proved once for every
//! well-formed state.

use vstd::prelude::*;
use crate::cache::Cache;
use crate::log::EventFile;
use crate::model::{
    branch_wf, fin_events, kids, lemma_kids_range, lemma_leaf_events_at, lemma_prev_ge_facts,
    lemma_span_nonempty, lemma_wf_at, prev_ge, wf_at, BlockM,
};

verus! {

/// Iterating over the full index range yields exactly the events appended,
/// in order, with identical bytes.
pub proof fn lemma_round_trip<C: Cache>(ef: EventFile<C>)
    requires
        ef.inv(),
    ensures
        ef.range_events(0, u64::MAX as int) == ef.events(),
{
    if ef.events().len() > 0 {
        assert(ef.events().len() <= u64::MAX) by {
            assert(ef.staged@.start_idx + ef.staged@.events.len() <= u64::MAX);
        }
        assert(ef.range_events(0, u64::MAX as int) =~= ef.events());
    } else {
        assert(ef.range_events(0, u64::MAX as int) =~= ef.events());
    }
}

/// Querying the single index `i` yields exactly the `i`-th appended event.
pub proof fn lemma_prefix<C: Cache>(ef: EventFile<C>, i: int)
    requires
        ef.inv(),
        0 <= i < ef.events().len(),
    ensures
        ef.range_events(i, i) == seq![ef.events()[i]],
{
    assert(ef.range_events(i, i) =~= seq![ef.events()[i]]);
}

/// A range query yields exactly the events with indices in the requested
/// interval intersected with what the log holds.
pub proof fn lemma_range_equivalence<C: Cache>(ef: EventFile<C>, a: int, b: int)
    requires
        ef.inv(),
        0 <= a <= b,
    ensures
        ef.range_events(a, b).len() == (if b + 1 <= ef.events().len() {
            b + 1
        } else {
            ef.events().len() as int
        }) - (if a <= ef.events().len() {
            a
        } else {
            ef.events().len() as int
        }),
        forall|k: int| 0 <= k < ef.range_events(a, b).len() ==> ef.range_events(a, b)[k]
            == ef.events()[a + k],
{
    let n = ef.events().len() as int;
    if a < n {
        assert(ef.range_events(a, b).len() == (if b + 1 <= n {
            b + 1
        } else {
            n
        }) - a);
    }
}

/// Every block's previous pointer names the block immediately before it, or
/// is the none marker on the first block.
pub proof fn lemma_block_linkage<C: Cache>(ef: EventFile<C>)
    requires
        ef.inv(),
    ensures
        forall|i: int| 0 <= i < ef.blocks@.len() ==> (#[trigger] ef.blocks@[i]).prev == if i == 0 {
            u64::MAX
        } else {
            ef.blocks@[i - 1].pos
        },
{
    assert forall|i: int| 0 <= i < ef.blocks@.len() implies (#[trigger] ef.blocks@[i]).prev == if i
        == 0 {
        u64::MAX
    } else {
        ef.blocks@[i - 1].pos
    } by {
        lemma_wf_at(ef.blocks@, i);
    }
}

/// Every branch indexes exactly the full run of sixteen blocks one level
/// below it that sit between it and the previous block of its level or
/// higher, and the block just before it is its newest child.
pub proof fn lemma_fan_out<C: Cache>(ef: EventFile<C>, i: int)
    requires
        ef.inv(),
        0 <= i < ef.blocks@.len(),
        !ef.blocks@[i].is_leaf(),
    ensures
        kids(
            ef.blocks@,
            prev_ge(ef.blocks@, i, ef.blocks@[i].level as int) + 1,
            i,
            ef.blocks@[i].level as int - 1,
        ).len() == 16,
        i >= 1 && ef.blocks@[i - 1].level as int == ef.blocks@[i].level as int - 1,
{
    lemma_wf_at(ef.blocks@, i);
    assert(branch_wf(ef.blocks@, i));
}

/// A branch's index interval is exactly as long as the events stored below
/// it: its bound minus its first child's start equals the sum of the
/// covered leaf counts.
pub proof fn lemma_index_coverage<C: Cache>(ef: EventFile<C>, i: int)
    requires
        ef.inv(),
        0 <= i < ef.blocks@.len(),
    ensures
        0 <= ef.blocks@[i].span_lo() < ef.blocks@[i].span_hi() <= fin_events(ef.blocks@).len(),
        fin_events(ef.blocks@).subrange(
            ef.blocks@[i].span_lo(),
            ef.blocks@[i].span_hi(),
        ).len() == ef.blocks@[i].span_hi() - ef.blocks@[i].span_lo(),
    decreases i,
{
    let bs = ef.blocks@;
    lemma_wf_at(bs, i);
    lemma_span_nonempty(bs, i);
    if bs[i].is_leaf() {
        lemma_leaf_events_at(bs, i);
    } else {
        assert(branch_wf(bs, i));
        lemma_index_coverage(ef, i - 1);
    }
}

/// Closing and reopening preserves the log: a well-formed log's image
/// matches its own models, so opening that image with the same user
/// version and jump-table capacity is owed success and rebuilds exactly
/// the same blocks, staged events, and event sequence.
pub proof fn lemma_reopen_matches<C: Cache>(ef: EventFile<C>)
    requires
        ef.inv(),
    ensures
        crate::log::image_matches(
            ef.file.data@,
            ef.file.user_version,
            ef.block_event_limit,
            ef.blocks@,
            ef.staged@,
        ),
{
    let data = ef.file.data@;
    let hdr = crate::records::MmapFileHeader::dec(data.subrange(0, 32));
    assert(hdr == ef.file.header_spec()) by {
        ef.file.header_spec().lemma_enc();
    }
    assert(data.subrange(0, 8) == crate::records::MmapFileHeader::magic()) by {
        ef.file.header_spec().lemma_enc();
        assert(data.subrange(0, 8) =~= data.subrange(0, 32).subrange(0, 8));
    }
    assert(data.subrange(4096, 4096 + hdr.end_offset) == crate::model::stream_enc(
        ef.blocks@,
    )) by {
        assert(ef.file.stream() =~= data.subrange(4096, 4096 + hdr.end_offset));
    }
    assert(crate::log::staging_matches(
        data.subrange(4096 + hdr.end_offset, data.len() as int),
        ef.block_event_limit,
        ef.blocks@,
        ef.staged@,
    )) by {
        assert(ef.file.staging() =~= data.subrange(4096 + hdr.end_offset, data.len() as int));
        assert(ef.staging_ok(2));
    }
    assert(hdr.end_offset % 8 == 0);
}
} // verus!
