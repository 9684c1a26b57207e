//! The segments that commits put in: what they are checked with, and that
//! metadata refers to them.
use vstd::prelude::*;

use crate::block_api::{BlockBatchWrite, PayloadIntegrity};
use crate::coordinator::all_checked;
use crate::integrity::payload_integrity_of;
use crate::leaf::SegmentBlock;
use crate::segment_records::{CatalogEntry, SegmentLifecycleState, SegmentWriteReceipt};
use crate::storage_nodes::SegmentRecord;

verus! {

/// Whether a segment of whole blocks is there, in a state, and is checked as a
/// policy asks.
pub open spec fn stored_as(
    segments: Map<u128, SegmentRecord>,
    id: u128,
    policy: PayloadIntegrity,
    block_size: u64,
    state: SegmentLifecycleState,
) -> bool {
    &&& segments.contains_key(id)
    &&& segments[id].entry.state == state
    &&& segments[id].bytes@.len() as int % block_size as int == 0
    &&& segments[id].entry.receipt matches Some(receipt) && receipt.integrity
        == payload_integrity_of(policy, segments[id].bytes@)
}

/// Whether a segment is stored under one of some policies.
pub open spec fn stored_by(
    segments: Map<u128, SegmentRecord>,
    id: u128,
    policies: Set<PayloadIntegrity>,
    block_size: u64,
    state: SegmentLifecycleState,
) -> bool {
    ||| policies.contains(PayloadIntegrity::Verified) && stored_as(
        segments,
        id,
        PayloadIntegrity::Verified,
        block_size,
        state,
    )
    ||| policies.contains(PayloadIntegrity::Unchecked) && stored_as(
        segments,
        id,
        PayloadIntegrity::Unchecked,
        block_size,
        state,
    )
}

/// Whether every segment is as it was, and those that came in are stored under
/// one of some policies.
pub open spec fn segments_added(
    before: Map<u128, SegmentRecord>,
    after: Map<u128, SegmentRecord>,
    policies: Set<PayloadIntegrity>,
    block_size: u64,
    state: SegmentLifecycleState,
) -> bool {
    &&& forall|id: u128| #[trigger]
        before.contains_key(id) ==> after.contains_key(id) && after[id] == before[id]
    &&& forall|id: u128| #[trigger]
        after.contains_key(id) && !before.contains_key(id) ==> stored_by(
            after,
            id,
            policies,
            block_size,
            state,
        )
}

/// Whether what was written under a policy, if anything was, is in a new segment
/// that is stored so and referred to; else the block is the one that it was.
pub open spec fn block_put(
    segments_before: Map<u128, SegmentRecord>,
    segments: Map<u128, SegmentRecord>,
    before: Option<SegmentBlock>,
    after: Option<SegmentBlock>,
    policy: Option<PayloadIntegrity>,
    block_size: u64,
) -> bool {
    match policy {
        Some(policy) => after matches Some(held) && !segments_before.contains_key(
            held.segment_id.0,
        ) && stored_as(
            segments,
            held.segment_id.0,
            policy,
            block_size,
            SegmentLifecycleState::Referenced,
        ),
        None => after == before,
    }
}

/// Segments that are stored under some policies are stored under more.
pub proof fn lemma_added_under(
    before: Map<u128, SegmentRecord>,
    after: Map<u128, SegmentRecord>,
    fewer: Set<PayloadIntegrity>,
    policies: Set<PayloadIntegrity>,
    block_size: u64,
    state: SegmentLifecycleState,
)
    requires
        segments_added(before, after, fewer, block_size, state),
        fewer.subset_of(policies),
    ensures
        segments_added(before, after, policies, block_size, state),
{
    assert forall|id: u128| #[trigger] after.contains_key(id) && !before.contains_key(
        id,
    ) implies stored_by(after, id, policies, block_size, state) by {
        assert(stored_by(after, id, fewer, block_size, state));
    }
}

/// The policies that a batch is written under.
pub open spec fn batch_policies(writes: Seq<BlockBatchWrite>) -> Set<PayloadIntegrity> {
    Set::new(
        |policy: PayloadIntegrity|
            exists|i: int|
                0 <= i < writes.len() && (#[trigger] writes[i]).payload_integrity == policy,
    )
}

/// Whether a receipt among some is for a segment.
pub open spec fn named_by(receipts: Seq<SegmentWriteReceipt>, id: u128) -> bool {
    exists|k: int| 0 <= k < receipts.len() && (#[trigger] receipts[k]).segment_id.0 == id
}

/// A segment's record, with metadata that refers to it.
pub open spec fn referenced(record: SegmentRecord) -> SegmentRecord {
    SegmentRecord {
        entry: CatalogEntry { state: SegmentLifecycleState::Referenced, ..record.entry },
        ..record
    }
}

/// Whether the segments of some receipts, and no others, are now referred to.
pub open spec fn segments_marked(
    before: Map<u128, SegmentRecord>,
    after: Map<u128, SegmentRecord>,
    receipts: Seq<SegmentWriteReceipt>,
) -> bool {
    &&& after.dom() == before.dom()
    &&& forall|id: u128| #[trigger]
        before.contains_key(id) ==> after[id] == if named_by(receipts, id) {
            referenced(before[id])
        } else {
            before[id]
        }
}

/// Whether some segments, and no others, are now referred to.
pub open spec fn segments_referred(
    before: Map<u128, SegmentRecord>,
    after: Map<u128, SegmentRecord>,
    ids: Set<u128>,
) -> bool {
    &&& after.dom() == before.dom()
    &&& forall|id: u128| #[trigger]
        before.contains_key(id) ==> after[id] == if ids.contains(id) {
            referenced(before[id])
        } else {
            before[id]
        }
}

/// One more receipt whose segment is now referred to.
pub proof fn lemma_one_more_marked(
    before: Map<u128, SegmentRecord>,
    middle: Map<u128, SegmentRecord>,
    after: Map<u128, SegmentRecord>,
    receipts: Seq<SegmentWriteReceipt>,
    count: int,
)
    requires
        0 <= count < receipts.len(),
        segments_marked(before, middle, receipts.take(count)),
        after.dom() == middle.dom(),
        middle.contains_key(receipts[count].segment_id.0),
        after[receipts[count].segment_id.0] == referenced(middle[receipts[count].segment_id.0]),
        forall|id: u128| #[trigger]
            middle.contains_key(id) && id != receipts[count].segment_id.0 ==> after[id]
                == middle[id],
    ensures
        segments_marked(before, after, receipts.take(count + 1)),
{
    let (fewer, more) = (receipts.take(count), receipts.take(count + 1));
    assert forall|id: u128| #[trigger] before.contains_key(id) implies after[id] == if named_by(
        more,
        id,
    ) {
        referenced(before[id])
    } else {
        before[id]
    } by {
        assert(middle.dom().contains(id));
        if named_by(fewer, id) {
            let k = choose|k: int|
                0 <= k < fewer.len() && (#[trigger] fewer[k]).segment_id.0 == id;
            assert(more[k].segment_id.0 == id);
        }
        if id == receipts[count].segment_id.0 {
            assert(more[count].segment_id.0 == id);
        }
        if named_by(more, id) && id != receipts[count].segment_id.0 {
            let k = choose|k: int|
                0 <= k < more.len() && (#[trigger] more[k]).segment_id.0 == id;
            assert(fewer[k].segment_id.0 == id);
        }
    }
}

/// New segments that are all marked are new segments that are referred to.
pub proof fn lemma_added_marked(
    before: Map<u128, SegmentRecord>,
    middle: Map<u128, SegmentRecord>,
    after: Map<u128, SegmentRecord>,
    receipts: Seq<SegmentWriteReceipt>,
    policies: Set<PayloadIntegrity>,
    block_size: u64,
)
    requires
        segments_added(
            before,
            middle,
            policies,
            block_size,
            SegmentLifecycleState::DurablePendingMetadata,
        ),
        segments_marked(middle, after, receipts),
        names_new(before, middle, receipts),
    ensures
        segments_added(before, after, policies, block_size, SegmentLifecycleState::Referenced),
{
    assert forall|id: u128| #[trigger] before.contains_key(id) implies after.contains_key(id)
        && after[id] == before[id] by {
        assert(middle.contains_key(id));
        assert(after.dom().contains(id));
        if named_by(receipts, id) {
            let k = choose|k: int|
                0 <= k < receipts.len() && (#[trigger] receipts[k]).segment_id.0 == id;
            assert(!before.contains_key(receipts[k].segment_id.0));
        }
    }
    assert forall|id: u128| #[trigger] after.contains_key(id) && !before.contains_key(
        id,
    ) implies stored_by(after, id, policies, block_size, SegmentLifecycleState::Referenced) by {
        assert(after.dom().contains(id));
        assert(middle.contains_key(id));
        assert(named_by(receipts, id));
        assert(after[id] == referenced(middle[id]));
    }
}

/// Whether receipts are for all the segments that came in, and no others.
pub open spec fn names_new(
    before: Map<u128, SegmentRecord>,
    after: Map<u128, SegmentRecord>,
    receipts: Seq<SegmentWriteReceipt>,
) -> bool {
    &&& forall|k: int|
        0 <= k < receipts.len() ==> !before.contains_key((#[trigger] receipts[k]).segment_id.0)
    &&& forall|id: u128| #[trigger]
        after.contains_key(id) && !before.contains_key(id) ==> named_by(receipts, id)
}

/// A store whose segments all have checksums keeps that property over every
/// commit that is written with checksums.
pub proof fn law_checked_segments_stay_checked(
    before: Map<u128, SegmentRecord>,
    after: Map<u128, SegmentRecord>,
    policies: Set<PayloadIntegrity>,
    block_size: u64,
    state: SegmentLifecycleState,
)
    requires
        all_checked(before),
        segments_added(before, after, policies, block_size, state),
        !policies.contains(PayloadIntegrity::Unchecked),
    ensures
        all_checked(after),
{
    assert forall|id: u128| #[trigger] after.contains_key(id) implies (
    after[id].entry.receipt matches Some(receipt) ==> receipt.integrity is Crc32c) by {
        if before.contains_key(id) {
            assert(after[id] == before[id]);
        }
    }
}

/// One more segment among those that came in.
pub proof fn lemma_one_more_added(
    before: Map<u128, SegmentRecord>,
    middle: Map<u128, SegmentRecord>,
    after: Map<u128, SegmentRecord>,
    receipts: Seq<SegmentWriteReceipt>,
    receipt: SegmentWriteReceipt,
    policies: Set<PayloadIntegrity>,
    policy: PayloadIntegrity,
    block_size: u64,
    state: SegmentLifecycleState,
)
    requires
        segments_added(before, middle, policies, block_size, state),
        names_new(before, middle, receipts),
        after.remove(receipt.segment_id.0) == middle,
        !middle.contains_key(receipt.segment_id.0),
        stored_as(after, receipt.segment_id.0, policy, block_size, state),
        policies.contains(policy),
    ensures
        segments_added(before, after, policies, block_size, state),
        names_new(before, after, receipts.push(receipt)),
{
    let id = receipt.segment_id.0;
    let more = receipts.push(receipt);
    assert forall|k: u128| #[trigger] before.contains_key(k) implies after.contains_key(k)
        && after[k] == before[k] by {
        assert(middle.contains_key(k));
        assert(after.remove(id).contains_key(k));
    }
    assert forall|k: u128| #[trigger] after.contains_key(k) && !before.contains_key(k) implies
        stored_by(after, k, policies, block_size, state) && named_by(more, k) by {
        if k != id {
            assert(after.remove(id).contains_key(k));
            assert(stored_by(middle, k, policies, block_size, state));
            let at = choose|at: int|
                0 <= at < receipts.len() && (#[trigger] receipts[at]).segment_id.0 == k;
            assert(more[at].segment_id.0 == k);
        } else {
            assert(more[receipts.len() as int].segment_id.0 == k);
        }
    }
    assert forall|k: int| 0 <= k < more.len() implies !before.contains_key(
        (#[trigger] more[k]).segment_id.0,
    ) by {
        if k < receipts.len() {
            assert(more[k] == receipts[k]);
        }
    }
}

/// Whether every segment is as it was, and those that came in are stored under a
/// policy and wait for metadata.
#[verifier::opaque]
pub open spec fn pending_added(
    before: Map<u128, SegmentRecord>,
    after: Map<u128, SegmentRecord>,
    policy: PayloadIntegrity,
    block_size: u64,
) -> bool {
    segments_added(
        before,
        after,
        set![policy],
        block_size,
        SegmentLifecycleState::DurablePendingMetadata,
    )
}

/// Whether receipts are for all the segments that came in, and no others.
#[verifier::opaque]
pub open spec fn receipts_name_new(
    before: Map<u128, SegmentRecord>,
    after: Map<u128, SegmentRecord>,
    receipts: Seq<SegmentWriteReceipt>,
) -> bool {
    names_new(before, after, receipts)
}

/// Nothing has come in where nothing was stored.
pub proof fn lemma_none_pending(
    segments: Map<u128, SegmentRecord>,
    receipts: Seq<SegmentWriteReceipt>,
    policy: PayloadIntegrity,
    block_size: u64,
)
    requires
        receipts.len() == 0,
    ensures
        pending_added(segments, segments, policy, block_size),
        receipts_name_new(segments, segments, receipts),
{
    reveal(pending_added);
    reveal(receipts_name_new);
}

/// One more segment among those that wait for metadata.
pub proof fn lemma_one_more_pending(
    before: Map<u128, SegmentRecord>,
    middle: Map<u128, SegmentRecord>,
    after: Map<u128, SegmentRecord>,
    receipts: Seq<SegmentWriteReceipt>,
    receipt: SegmentWriteReceipt,
    policy: PayloadIntegrity,
    block_size: u64,
)
    requires
        pending_added(before, middle, policy, block_size),
        receipts_name_new(before, middle, receipts),
        after.remove(receipt.segment_id.0) == middle,
        !middle.contains_key(receipt.segment_id.0),
        after.contains_key(receipt.segment_id.0),
        after[receipt.segment_id.0].entry.state == SegmentLifecycleState::DurablePendingMetadata,
        after[receipt.segment_id.0].bytes@.len() as int % block_size as int == 0,
        after[receipt.segment_id.0].entry.receipt == Some(receipt),
        receipt.integrity == payload_integrity_of(policy, after[receipt.segment_id.0].bytes@),
    ensures
        pending_added(before, after, policy, block_size),
        receipts_name_new(before, after, receipts.push(receipt)),
{
    reveal(pending_added);
    reveal(receipts_name_new);
    lemma_one_more_added(
        before,
        middle,
        after,
        receipts,
        receipt,
        set![policy],
        policy,
        block_size,
        SegmentLifecycleState::DurablePendingMetadata,
    );
}

} // verus!
