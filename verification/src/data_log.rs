//! What has been appended to data logs and is not yet in a catalog.
use vstd::prelude::*;

use crate::id::{SegmentId, StorageNodeId};
use crate::idmap::IdMap;
use crate::metadata_records::SegmentPayloadIntegrity;

verus! {

/// A data log of a storage node.
#[derive(Clone, Copy, Debug, PartialEq, Eq, Structural)]
pub struct DurableDataLogRef {
    pub storage_node: StorageNodeId,
    pub log_id: u64,
}

/// Where in a data log a segment lies.
#[derive(Clone, Copy, Debug, PartialEq, Eq, Structural)]
pub struct SegmentPlacementRow {
    pub storage_node: StorageNodeId,
    pub segment_id: SegmentId,
    pub data_log_id: u64,
    pub record_offset: u64,
    pub record_bytes: u64,
    pub payload_offset: u64,
    pub payload_bytes: u64,
    pub integrity: SegmentPayloadIntegrity,
}

impl SegmentPlacementRow {
    pub open spec fn log(self) -> DurableDataLogRef {
        DurableDataLogRef { storage_node: self.storage_node, log_id: self.data_log_id }
    }
}

#[derive(Clone, Copy, Debug, PartialEq, Eq, Structural)]
pub enum DataLogState {
    Active,
    Sealed,
    StreamActive,
    StreamSealed,
    Deleted,
}

/// What is known of a data log that was appended to.
#[derive(Clone, Copy, Debug, PartialEq, Eq, Structural)]
pub struct PendingDataLogManifest {
    pub storage_node: StorageNodeId,
    pub log_id: u64,
    pub state: DataLogState,
    pub total_bytes: u64,
    pub needs_dir_sync: bool,
}

impl PendingDataLogManifest {
    pub open spec fn log(self) -> DurableDataLogRef {
        DurableDataLogRef { storage_node: self.storage_node, log_id: self.log_id }
    }
}

/// A data log and how much is in it.
#[derive(Clone, Copy, Debug, PartialEq, Eq, Structural)]
pub struct DataLogRow {
    pub storage_node: StorageNodeId,
    pub log_id: u64,
    pub total_bytes: u64,
    pub live_bytes: u64,
    pub dead_bytes: u64,
}

pub struct PendingDataLogAppend {
    pub placements: Vec<SegmentPlacementRow>,
    pub logs: Vec<PendingDataLogManifest>,
    pub sealed_logs: Vec<DurableDataLogRef>,
}

/// The manifest of a log in a list.
pub open spec fn manifest_of(
    logs: Seq<PendingDataLogManifest>,
    log: DurableDataLogRef,
) -> Option<PendingDataLogManifest>
    decreases logs.len(),
{
    if logs.len() == 0 {
        None
    } else if logs.last().log() == log {
        Some(logs.last())
    } else {
        manifest_of(logs.drop_last(), log)
    }
}

/// A manifest that takes in what a later one knows.
pub open spec fn merged_manifest(
    held: Option<PendingDataLogManifest>,
    later: Option<PendingDataLogManifest>,
) -> Option<PendingDataLogManifest> {
    match (held, later) {
        (Some(held), Some(later)) => Some(
            PendingDataLogManifest {
                total_bytes: if held.total_bytes < later.total_bytes {
                    later.total_bytes
                } else {
                    held.total_bytes
                },
                state: later.state,
                needs_dir_sync: held.needs_dir_sync || later.needs_dir_sync,
                ..held
            },
        ),
        (Some(held), None) => Some(held),
        (None, later) => later,
    }
}

/// Whether every log stands once.
pub open spec fn logs_distinct(logs: Seq<PendingDataLogManifest>) -> bool {
    forall|i: int, j: int|
        0 <= i < j < logs.len() ==> (#[trigger] logs[i]).log() != (#[trigger] logs[j]).log()
}

/// The placements whose segments are, or are not, in a set.
pub open spec fn placements_in(
    placements: Seq<SegmentPlacementRow>,
    segments: Map<u128, ()>,
    wanted: bool,
) -> Seq<SegmentPlacementRow>
    decreases placements.len(),
{
    if placements.len() == 0 {
        placements
    } else {
        let before = placements_in(placements.drop_last(), segments, wanted);
        if segments.contains_key(placements.last().segment_id.0) == wanted {
            before.push(placements.last())
        } else {
            before
        }
    }
}

/// The manifests whose logs are, or are not, in a list.
pub open spec fn manifests_in(
    logs: Seq<PendingDataLogManifest>,
    refs: Seq<DurableDataLogRef>,
    wanted: bool,
) -> Seq<PendingDataLogManifest>
    decreases logs.len(),
{
    if logs.len() == 0 {
        logs
    } else {
        let before = manifests_in(logs.drop_last(), refs, wanted);
        if refs.contains(logs.last().log()) == wanted {
            before.push(logs.last())
        } else {
            before
        }
    }
}

/// The logs that are, or are not, in a list.
pub open spec fn refs_in(
    logs: Seq<DurableDataLogRef>,
    refs: Seq<DurableDataLogRef>,
    wanted: bool,
) -> Seq<DurableDataLogRef>
    decreases logs.len(),
{
    if logs.len() == 0 {
        logs
    } else {
        let before = refs_in(logs.drop_last(), refs, wanted);
        if refs.contains(logs.last()) == wanted {
            before.push(logs.last())
        } else {
            before
        }
    }
}

/// The logs in which placements lie, in their order.
pub open spec fn placement_logs(placements: Seq<SegmentPlacementRow>) -> Seq<DurableDataLogRef> {
    placements.map_values(|placement: SegmentPlacementRow| placement.log())
}

/// The bytes of some placements; a sum too large stays at the largest number.
pub open spec fn placement_bytes(placements: Seq<SegmentPlacementRow>) -> u64
    decreases placements.len(),
{
    if placements.len() == 0 {
        0
    } else {
        let before = placement_bytes(placements.drop_last());
        if before + placements.last().payload_bytes > u64::MAX {
            u64::MAX
        } else {
            (before + placements.last().payload_bytes) as u64
        }
    }
}

pub fn holds_ref(refs: &Vec<DurableDataLogRef>, log: DurableDataLogRef) -> (found: bool)
    ensures
        found == refs@.contains(log),
{
    let mut next: usize = 0;
    while next < refs.len()
        invariant
            next <= refs@.len(),
            forall|i: int| 0 <= i < next ==> #[trigger] refs@[i] != log,
        decreases refs@.len() - next,
    {
        if refs[next].storage_node.0 == log.storage_node.0 && refs[next].log_id == log.log_id {
            assert(refs@[next as int] == log);
            return true;
        }
        next = next + 1;
    }
    false
}

fn filter_placements(
    placements: &Vec<SegmentPlacementRow>,
    segments: &IdMap<()>,
    wanted: bool,
) -> (kept: Vec<SegmentPlacementRow>)
    ensures
        kept@ == placements_in(placements@, segments@, wanted),
{
    let mut kept: Vec<SegmentPlacementRow> = Vec::new();
    let mut next: usize = 0;
    assert(placements@.take(0) =~= Seq::empty());
    while next < placements.len()
        invariant
            next <= placements@.len(),
            kept@ == placements_in(placements@.take(next as int), segments@, wanted),
        decreases placements@.len() - next,
    {
        let placement = placements[next];
        assert(placements@.take(next + 1).drop_last() =~= placements@.take(next as int));
        if segments.contains_key(placement.segment_id.0) == wanted {
            kept.push(placement);
        }
        next = next + 1;
    }
    assert(placements@.take(next as int) =~= placements@);
    kept
}

fn filter_manifests(
    logs: &Vec<PendingDataLogManifest>,
    refs: &Vec<DurableDataLogRef>,
    wanted: bool,
) -> (kept: Vec<PendingDataLogManifest>)
    ensures
        kept@ == manifests_in(logs@, refs@, wanted),
{
    let mut kept: Vec<PendingDataLogManifest> = Vec::new();
    let mut next: usize = 0;
    assert(logs@.take(0) =~= Seq::empty());
    while next < logs.len()
        invariant
            next <= logs@.len(),
            kept@ == manifests_in(logs@.take(next as int), refs@, wanted),
        decreases logs@.len() - next,
    {
        let log = logs[next];
        assert(logs@.take(next + 1).drop_last() =~= logs@.take(next as int));
        if holds_ref(refs, DurableDataLogRef { storage_node: log.storage_node, log_id: log.log_id })
            == wanted {
            kept.push(log);
        }
        next = next + 1;
    }
    assert(logs@.take(next as int) =~= logs@);
    kept
}

fn filter_refs(
    logs: &Vec<DurableDataLogRef>,
    refs: &Vec<DurableDataLogRef>,
    wanted: bool,
) -> (kept: Vec<DurableDataLogRef>)
    ensures
        kept@ == refs_in(logs@, refs@, wanted),
{
    let mut kept: Vec<DurableDataLogRef> = Vec::new();
    let mut next: usize = 0;
    assert(logs@.take(0) =~= Seq::empty());
    while next < logs.len()
        invariant
            next <= logs@.len(),
            kept@ == refs_in(logs@.take(next as int), refs@, wanted),
        decreases logs@.len() - next,
    {
        let log = logs[next];
        assert(logs@.take(next + 1).drop_last() =~= logs@.take(next as int));
        if holds_ref(refs, log) == wanted {
            kept.push(log);
        }
        next = next + 1;
    }
    assert(logs@.take(next as int) =~= logs@);
    kept
}

/// What is left of a list of distinct logs is distinct, and each log keeps
/// its manifest.
proof fn lemma_filtered(
    logs: Seq<PendingDataLogManifest>,
    refs: Seq<DurableDataLogRef>,
    wanted: bool,
)
    requires
        logs_distinct(logs),
    ensures
        logs_distinct(manifests_in(logs, refs, wanted)),
        forall|i: int|
            0 <= i < manifests_in(logs, refs, wanted).len() ==> logs.contains(
                #[trigger] manifests_in(logs, refs, wanted)[i],
            ),
    decreases logs.len(),
{
    if logs.len() > 0 {
        let shorter = logs.drop_last();
        assert forall|i: int, j: int| 0 <= i < j < shorter.len() implies (
        #[trigger] shorter[i]).log() != (#[trigger] shorter[j]).log() by {
            assert(logs[i].log() != logs[j].log());
        }
        lemma_filtered(shorter, refs, wanted);
        let kept = manifests_in(logs, refs, wanted);
        let less = manifests_in(shorter, refs, wanted);
        assert forall|i: int| 0 <= i < kept.len() implies logs.contains(#[trigger] kept[i]) by {
            if i < less.len() {
                assert(shorter.contains(less[i]));
                let k = shorter.index_of(less[i]);
                assert(logs[k] == kept[i]);
            } else {
                assert(logs[logs.len() - 1] == kept[i]);
            }
        }
        assert forall|i: int, j: int| 0 <= i < j < kept.len() implies (#[trigger] kept[i]).log()
            != (#[trigger] kept[j]).log() by {
            if j >= less.len() {
                assert(shorter.contains(less[i]));
                let k = shorter.index_of(less[i]);
                assert(logs[k].log() != logs[logs.len() - 1].log());
            }
        }
    }
}

impl PendingDataLogAppend {
    pub open spec fn wf(&self) -> bool {
        logs_distinct(self.logs@)
    }

    pub fn new() -> (pending: PendingDataLogAppend)
        ensures
            pending.wf(),
            pending.placements@.len() == 0,
            pending.logs@.len() == 0,
            pending.sealed_logs@.len() == 0,
    {
        PendingDataLogAppend { placements: Vec::new(), logs: Vec::new(), sealed_logs: Vec::new() }
    }

    pub fn is_empty(&self) -> (empty: bool)
        ensures
            empty == (self.placements@.len() == 0 && self.logs@.len() == 0
                && self.sealed_logs@.len() == 0),
    {
        self.placements.len() == 0 && self.logs.len() == 0 && self.sealed_logs.len() == 0
    }

    /// Whether a segment has been placed.
    pub open spec fn places(&self, id: u128) -> bool {
        exists|i: int|
            0 <= i < self.placements@.len() && (#[trigger] self.placements@[i]).segment_id.0 == id
    }

    /// The segments that have been placed.
    pub fn segment_ids(&self) -> (ids: IdMap<()>)
        ensures
            forall|id: u128| #[trigger] ids@.contains_key(id) <==> self.places(id),
    {
        let mut ids: IdMap<()> = IdMap::new();
        let mut next: usize = 0;
        while next < self.placements.len()
            invariant
                next <= self.placements@.len(),
                forall|id: u128| #[trigger]
                    ids@.contains_key(id) <==> exists|i: int|
                        0 <= i < next && (#[trigger] self.placements@[i]).segment_id.0 == id,
            decreases self.placements@.len() - next,
        {
            let ghost then = ids@;
            ids.insert(self.placements[next].segment_id.0, ());
            proof {
                assert forall|id: u128| #[trigger]
                    ids@.contains_key(id) <==> exists|i: int|
                        0 <= i < next + 1 && (#[trigger] self.placements@[i]).segment_id.0
                            == id by {
                    if then.contains_key(id) {
                        let i = choose|i: int|
                            0 <= i < next && (#[trigger] self.placements@[i]).segment_id.0 == id;
                        assert(self.placements@[i].segment_id.0 == id);
                    }
                    if id == self.placements@[next as int].segment_id.0 {
                        assert(self.placements@[next as int].segment_id.0 == id);
                    }
                }
            }
            next = next + 1;
        }
        ids
    }

    pub fn placement_count(&self) -> (count: u64)
        ensures
            count == self.placements@.len(),
    {
        self.placements.len() as u64
    }

    pub fn placement_payload_bytes(&self) -> (bytes: u64)
        ensures
            bytes == placement_bytes(self.placements@),
    {
        let mut bytes: u64 = 0;
        let mut next: usize = 0;
        assert(self.placements@.take(0) =~= Seq::empty());
        while next < self.placements.len()
            invariant
                next <= self.placements@.len(),
                bytes == placement_bytes(self.placements@.take(next as int)),
            decreases self.placements@.len() - next,
        {
            let more = self.placements[next].payload_bytes;
            assert(self.placements@.take(next + 1).drop_last() =~= self.placements@.take(
                next as int,
            ));
            bytes = if bytes > u64::MAX - more {
                u64::MAX
            } else {
                bytes + more
            };
            next = next + 1;
        }
        assert(self.placements@.take(next as int) =~= self.placements@);
        bytes
    }

    /// Whether a log was appended to, sealed or placed into.
    pub open spec fn touches(&self, log: DurableDataLogRef) -> bool {
        ||| manifest_of(self.logs@, log) is Some
        ||| self.sealed_logs@.contains(log)
        ||| placement_logs(self.placements@).contains(log)
    }

    /// The logs that were appended to, sealed or placed into.
    pub fn log_refs(&self) -> (refs: Vec<DurableDataLogRef>)
        ensures
            forall|log: DurableDataLogRef| #[trigger] refs@.contains(log) <==> self.touches(log),
    {
        let mut refs: Vec<DurableDataLogRef> = Vec::new();
        let mut next: usize = 0;
        assert(self.logs@.take(0) =~= Seq::empty());
        while next < self.logs.len()
            invariant
                next <= self.logs@.len(),
                forall|log: DurableDataLogRef| #[trigger]
                    refs@.contains(log) <==> manifest_of(self.logs@.take(next as int), log) is Some,
            decreases self.logs@.len() - next,
        {
            let ghost then = refs@;
            let added = DurableDataLogRef {
                storage_node: self.logs[next].storage_node,
                log_id: self.logs[next].log_id,
            };
            refs.push(added);
            proof {
                let more = self.logs@.take(next + 1);
                assert(more.drop_last() =~= self.logs@.take(next as int));
                assert forall|log: DurableDataLogRef| #[trigger]
                    refs@.contains(log) <==> manifest_of(more, log) is Some by {
                    lemma_pushed_ref(then, added, log);
                }
            }
            next = next + 1;
        }
        assert(self.logs@.take(next as int) =~= self.logs@);
        let mut sealed: usize = 0;
        while sealed < self.sealed_logs.len()
            invariant
                sealed <= self.sealed_logs@.len(),
                forall|log: DurableDataLogRef| #[trigger]
                    refs@.contains(log) <==> manifest_of(self.logs@, log) is Some
                        || self.sealed_logs@.take(sealed as int).contains(log),
            decreases self.sealed_logs@.len() - sealed,
        {
            let ghost then = refs@;
            let added = self.sealed_logs[sealed];
            refs.push(added);
            proof {
                assert(self.sealed_logs@.take(sealed + 1) =~= self.sealed_logs@.take(
                    sealed as int,
                ).push(added));
                assert forall|log: DurableDataLogRef| #[trigger]
                    refs@.contains(log) <==> manifest_of(self.logs@, log) is Some
                        || self.sealed_logs@.take(sealed + 1).contains(log) by {
                    lemma_pushed_ref(then, added, log);
                    lemma_pushed_ref(self.sealed_logs@.take(sealed as int), added, log);
                }
            }
            sealed = sealed + 1;
        }
        assert(self.sealed_logs@.take(sealed as int) =~= self.sealed_logs@);
        let ghost logs = placement_logs(self.placements@);
        let mut placed: usize = 0;
        while placed < self.placements.len()
            invariant
                placed <= self.placements@.len(),
                logs == placement_logs(self.placements@),
                forall|log: DurableDataLogRef| #[trigger]
                    refs@.contains(log) <==> manifest_of(self.logs@, log) is Some
                        || self.sealed_logs@.contains(log) || logs.take(placed as int).contains(
                        log,
                    ),
            decreases self.placements@.len() - placed,
        {
            let ghost then = refs@;
            let added = DurableDataLogRef {
                storage_node: self.placements[placed].storage_node,
                log_id: self.placements[placed].data_log_id,
            };
            refs.push(added);
            proof {
                assert(logs[placed as int] == added);
                assert(logs.take(placed + 1) =~= logs.take(placed as int).push(added));
                assert forall|log: DurableDataLogRef| #[trigger]
                    refs@.contains(log) <==> manifest_of(self.logs@, log) is Some
                        || self.sealed_logs@.contains(log) || logs.take(placed + 1).contains(
                        log,
                    ) by {
                    lemma_pushed_ref(then, added, log);
                    lemma_pushed_ref(logs.take(placed as int), added, log);
                }
            }
            placed = placed + 1;
        }
        assert(logs.take(placed as int) =~= logs);
        refs
    }

    /// What is known of some logs, without placements.
    pub fn selected_log_refs(&self, selected: &Vec<DurableDataLogRef>) -> (part:
        PendingDataLogAppend)
        requires
            self.wf(),
        ensures
            part.wf(),
            part.placements@.len() == 0,
            part.logs@ == manifests_in(self.logs@, selected@, true),
            part.sealed_logs@ == refs_in(self.sealed_logs@, selected@, true),
    {
        proof {
            lemma_filtered(self.logs@, selected@, true);
        }
        PendingDataLogAppend {
            placements: Vec::new(),
            logs: filter_manifests(&self.logs, selected, true),
            sealed_logs: filter_refs(&self.sealed_logs, selected, true),
        }
    }

    /// Forgets some logs.
    pub fn remove_log_refs(&mut self, refs: &Vec<DurableDataLogRef>)
        requires
            old(self).wf(),
        ensures
            final(self).wf(),
            final(self).placements == old(self).placements,
            final(self).logs@ == manifests_in(old(self).logs@, refs@, false),
            final(self).sealed_logs@ == refs_in(old(self).sealed_logs@, refs@, false),
    {
        proof {
            lemma_filtered(self.logs@, refs@, false);
        }
        self.logs = filter_manifests(&self.logs, refs, false);
        self.sealed_logs = filter_refs(&self.sealed_logs, refs, false);
    }

    /// Forgets the logs that no placement lies in.
    fn prune_unreferenced_logs(&mut self)
        requires
            old(self).wf(),
        ensures
            final(self).wf(),
            final(self).placements == old(self).placements,
            final(self).logs@ == manifests_in(
                old(self).logs@,
                placement_logs(old(self).placements@),
                true,
            ),
            final(self).sealed_logs@ == refs_in(
                old(self).sealed_logs@,
                placement_logs(old(self).placements@),
                true,
            ),
    {
        let ghost logs = placement_logs(self.placements@);
        let mut refs: Vec<DurableDataLogRef> = Vec::new();
        let mut next: usize = 0;
        while next < self.placements.len()
            invariant
                next <= self.placements@.len(),
                *self == *old(self),
                logs == placement_logs(self.placements@),
                refs@ == logs.take(next as int),
            decreases self.placements@.len() - next,
        {
            refs.push(
                DurableDataLogRef {
                    storage_node: self.placements[next].storage_node,
                    log_id: self.placements[next].data_log_id,
                },
            );
            assert(refs@ =~= logs.take(next + 1));
            next = next + 1;
        }
        proof {
            assert(refs@ =~= logs);
            lemma_filtered(self.logs@, logs, true);
        }
        self.logs = filter_manifests(&self.logs, &refs, true);
        self.sealed_logs = filter_refs(&self.sealed_logs, &refs, true);
    }

    /// Keeps only the placements of some segments, and the logs that they lie
    /// in.
    pub fn retain_current_placements(&mut self, current: &IdMap<()>)
        requires
            old(self).wf(),
        ensures
            final(self).wf(),
            final(self).placements@ == placements_in(old(self).placements@, current@, true),
            final(self).logs@ == manifests_in(
                old(self).logs@,
                placement_logs(final(self).placements@),
                true,
            ),
            final(self).sealed_logs@ == refs_in(
                old(self).sealed_logs@,
                placement_logs(final(self).placements@),
                true,
            ),
    {
        self.placements = filter_placements(&self.placements, current, true);
        self.prune_unreferenced_logs();
    }

    /// Forgets the placements of some segments, and the logs that no other
    /// lies in.
    pub fn remove_segments(&mut self, segments: &IdMap<()>)
        requires
            old(self).wf(),
        ensures
            final(self).wf(),
            final(self).placements@ == placements_in(old(self).placements@, segments@, false),
            final(self).logs@ == manifests_in(
                old(self).logs@,
                placement_logs(final(self).placements@),
                true,
            ),
            final(self).sealed_logs@ == refs_in(
                old(self).sealed_logs@,
                placement_logs(final(self).placements@),
                true,
            ),
    {
        self.placements = filter_placements(&self.placements, segments, false);
        self.prune_unreferenced_logs();
    }

    fn find_log(&self, log: DurableDataLogRef) -> (found: Option<usize>)
        requires
            self.wf(),
        ensures
            found is Some <==> manifest_of(self.logs@, log) is Some,
            found matches Some(i) ==> i < self.logs@.len() && self.logs@[i as int].log() == log
                && manifest_of(self.logs@, log) == Some(self.logs@[i as int]),
    {
        let mut next: usize = 0;
        assert(self.logs@.take(0) =~= Seq::empty());
        while next < self.logs.len()
            invariant
                next <= self.logs@.len(),
                self.wf(),
                manifest_of(self.logs@.take(next as int), log) is None,
            decreases self.logs@.len() - next,
        {
            let held = self.logs[next];
            assert(self.logs@.take(next + 1).drop_last() =~= self.logs@.take(next as int));
            if held.storage_node.0 == log.storage_node.0 && held.log_id == log.log_id {
                proof {
                    lemma_manifest_at(self.logs@, next as int);
                }
                return Some(next);
            }
            next = next + 1;
        }
        assert(self.logs@.take(next as int) =~= self.logs@);
        None
    }

    fn merge_log(&mut self, later: PendingDataLogManifest)
        requires
            old(self).wf(),
        ensures
            final(self).wf(),
            final(self).placements == old(self).placements,
            final(self).sealed_logs == old(self).sealed_logs,
            forall|log: DurableDataLogRef| #[trigger]
                manifest_of(final(self).logs@, log) == if log == later.log() {
                    merged_manifest(manifest_of(old(self).logs@, log), Some(later))
                } else {
                    manifest_of(old(self).logs@, log)
                },
    {
        let ghost before = self.logs@;
        let at = self.find_log(
            DurableDataLogRef { storage_node: later.storage_node, log_id: later.log_id },
        );
        match at {
            Some(i) => {
                let held = self.logs[i];
                let merged = PendingDataLogManifest {
                    storage_node: held.storage_node,
                    log_id: held.log_id,
                    state: later.state,
                    total_bytes: if held.total_bytes < later.total_bytes {
                        later.total_bytes
                    } else {
                        held.total_bytes
                    },
                    needs_dir_sync: held.needs_dir_sync || later.needs_dir_sync,
                };
                self.logs.set(i, merged);
                proof {
                    assert forall|a: int, b: int| 0 <= a < b < self.logs@.len() implies (
                    #[trigger] self.logs@[a]).log() != (#[trigger] self.logs@[b]).log() by {
                        assert(before[a].log() != before[b].log());
                    }
                    assert forall|log: DurableDataLogRef| #[trigger]
                        manifest_of(self.logs@, log) == if log == later.log() {
                            merged_manifest(manifest_of(before, log), Some(later))
                        } else {
                            manifest_of(before, log)
                        } by {
                        lemma_manifest_set(before, i as int, merged, log);
                        lemma_manifest_at(self.logs@, i as int);
                    }
                }
            },
            None => {
                proof {
                    assert forall|a: int| 0 <= a < before.len() implies (#[trigger] before[a]).log()
                        != later.log() by {
                        if before[a].log() == later.log() {
                            lemma_manifest_at(before, a);
                        }
                    }
                }
                self.logs.push(later);
                assert(self.logs@.drop_last() =~= before);
            },
        }
    }

    /// Takes in what another holds, which is later.
    pub fn merge(&mut self, other: PendingDataLogAppend)
        requires
            old(self).wf(),
            other.wf(),
        ensures
            final(self).wf(),
            final(self).placements@ == old(self).placements@ + other.placements@,
            forall|log: DurableDataLogRef| #[trigger]
                manifest_of(final(self).logs@, log) == merged_manifest(
                    manifest_of(old(self).logs@, log),
                    manifest_of(other.logs@, log),
                ),
            forall|log: DurableDataLogRef| #[trigger]
                final(self).sealed_logs@.contains(log) <==> old(self).sealed_logs@.contains(log)
                    || other.sealed_logs@.contains(log),
    {
        let ghost start = *self;
        let mut placed: usize = 0;
        while placed < other.placements.len()
            invariant
                placed <= other.placements@.len(),
                self.placements@ == start.placements@ + other.placements@.take(placed as int),
                self.logs == start.logs,
                self.sealed_logs == start.sealed_logs,
            decreases other.placements@.len() - placed,
        {
            self.placements.push(other.placements[placed]);
            assert(self.placements@ =~= start.placements@ + other.placements@.take(placed + 1));
            placed = placed + 1;
        }
        assert(other.placements@.take(placed as int) =~= other.placements@);
        let ghost placed_all = self.placements@;
        let mut next: usize = 0;
        assert(other.logs@.take(0) =~= Seq::empty());
        while next < other.logs.len()
            invariant
                next <= other.logs@.len(),
                self.wf(),
                other.wf(),
                self.placements@ == placed_all,
                self.sealed_logs == start.sealed_logs,
                forall|log: DurableDataLogRef| #[trigger]
                    manifest_of(self.logs@, log) == merged_manifest(
                        manifest_of(start.logs@, log),
                        manifest_of(other.logs@.take(next as int), log),
                    ),
            decreases other.logs@.len() - next,
        {
            let ghost then = self.logs@;
            let later = other.logs[next];
            self.merge_log(later);
            proof {
                let less = other.logs@.take(next as int);
                let more = other.logs@.take(next + 1);
                assert(more.drop_last() =~= less);
                assert(more.last() == later);
                if manifest_of(less, later.log()) is Some {
                    lemma_manifest_found(less, later.log());
                    let k = choose|k: int| 0 <= k < less.len() && (#[trigger] less[k]).log()
                        == later.log();
                    assert(other.logs@[k].log() != other.logs@[next as int].log());
                }
                assert forall|log: DurableDataLogRef| #[trigger]
                    manifest_of(self.logs@, log) == merged_manifest(
                        manifest_of(start.logs@, log),
                        manifest_of(more, log),
                    ) by {
                    assert(manifest_of(then, log) == merged_manifest(
                        manifest_of(start.logs@, log),
                        manifest_of(less, log),
                    ));
                }
            }
            next = next + 1;
        }
        assert(other.logs@.take(next as int) =~= other.logs@);
        let mut sealed: usize = 0;
        let ghost logs_all = self.logs@;
        assert(other.sealed_logs@.take(0) =~= Seq::empty());
        while sealed < other.sealed_logs.len()
            invariant
                sealed <= other.sealed_logs@.len(),
                self.placements@ == placed_all,
                self.logs@ == logs_all,
                forall|log: DurableDataLogRef| #[trigger]
                    self.sealed_logs@.contains(log) <==> start.sealed_logs@.contains(log)
                        || other.sealed_logs@.take(sealed as int).contains(log),
            decreases other.sealed_logs@.len() - sealed,
        {
            let ghost then = self.sealed_logs@;
            let added = other.sealed_logs[sealed];
            if !holds_ref(&self.sealed_logs, added) {
                self.sealed_logs.push(added);
            }
            proof {
                assert(other.sealed_logs@.take(sealed + 1) =~= other.sealed_logs@.take(
                    sealed as int,
                ).push(added));
                assert forall|log: DurableDataLogRef| #[trigger]
                    self.sealed_logs@.contains(log) <==> start.sealed_logs@.contains(log)
                        || other.sealed_logs@.take(sealed + 1).contains(log) by {
                    lemma_pushed_ref(then, added, log);
                    lemma_pushed_ref(other.sealed_logs@.take(sealed as int), added, log);
                }
            }
            sealed = sealed + 1;
        }
        assert(other.sealed_logs@.take(sealed as int) =~= other.sealed_logs@);
    }

    /// Whether a log of a node is open for appends in a state.
    pub open spec fn is_open_log(
        &self,
        log: PendingDataLogManifest,
        storage_node: StorageNodeId,
        state: DataLogState,
    ) -> bool {
        log.storage_node == storage_node && log.state == state && !self.sealed_logs@.contains(
            log.log(),
        )
    }

    /// The newest log of a node that is open in a state. How long its file is
    /// is asked for afterwards, since the file may have grown past what is
    /// known here.
    pub fn active_log_for_node(&self, storage_node: StorageNodeId, state: DataLogState) -> (newest:
        Option<PendingDataLogManifest>)
        ensures
            newest is None <==> forall|i: int|
                0 <= i < self.logs@.len() ==> !self.is_open_log(
                    #[trigger] self.logs@[i],
                    storage_node,
                    state,
                ),
            newest matches Some(log) ==> self.logs@.contains(log) && self.is_open_log(
                log,
                storage_node,
                state,
            ) && forall|i: int|
                0 <= i < self.logs@.len() && self.is_open_log(
                    #[trigger] self.logs@[i],
                    storage_node,
                    state,
                ) ==> self.logs@[i].log_id <= log.log_id,
    {
        let mut newest: Option<PendingDataLogManifest> = None;
        let mut next: usize = 0;
        while next < self.logs.len()
            invariant
                next <= self.logs@.len(),
                newest is None <==> forall|i: int|
                    0 <= i < next ==> !self.is_open_log(
                        #[trigger] self.logs@[i],
                        storage_node,
                        state,
                    ),
                newest matches Some(log) ==> self.logs@.contains(log) && self.is_open_log(
                    log,
                    storage_node,
                    state,
                ) && forall|i: int|
                    0 <= i < next && self.is_open_log(
                        #[trigger] self.logs@[i],
                        storage_node,
                        state,
                    ) ==> self.logs@[i].log_id <= log.log_id,
            decreases self.logs@.len() - next,
        {
            let log = self.logs[next];
            let sealed = holds_ref(
                &self.sealed_logs,
                DurableDataLogRef { storage_node: log.storage_node, log_id: log.log_id },
            );
            let open = log.storage_node.0 == storage_node.0 && log.state == state && !sealed;
            assert(open == self.is_open_log(self.logs@[next as int], storage_node, state));
            if open {
                assert(self.logs@.contains(log)) by {
                    assert(self.logs@[next as int] == log);
                }
                newest = match newest {
                    Some(held) => if held.log_id < log.log_id {
                        Some(log)
                    } else {
                        Some(held)
                    },
                    None => Some(log),
                };
            }
            next = next + 1;
        }
        newest
    }
}

/// A log with the size that its file was found to have, if that is more.
pub fn sized_log(log: PendingDataLogManifest, file_bytes: Option<u64>) -> (row: DataLogRow)
    ensures
        row == (DataLogRow {
            storage_node: log.storage_node,
            log_id: log.log_id,
            total_bytes: match file_bytes {
                Some(bytes) if bytes > log.total_bytes => bytes,
                _ => log.total_bytes,
            },
            live_bytes: 0,
            dead_bytes: 0,
        }),
{
    let total_bytes: u64 = match file_bytes {
        Some(bytes) => if bytes > log.total_bytes {
            bytes
        } else {
            log.total_bytes
        },
        None => log.total_bytes,
    };
    DataLogRow {
        storage_node: log.storage_node,
        log_id: log.log_id,
        total_bytes,
        live_bytes: 0,
        dead_bytes: 0,
    }
}

pub proof fn lemma_pushed_ref(refs: Seq<DurableDataLogRef>, added: DurableDataLogRef, log: DurableDataLogRef)
    ensures
        refs.push(added).contains(log) <==> refs.contains(log) || log == added,
{
    if refs.contains(log) {
        let i = refs.index_of(log);
        assert(refs.push(added)[i] == log);
    }
    if log == added {
        assert(refs.push(added)[refs.len() as int] == log);
    }
    if refs.push(added).contains(log) {
        let i = refs.push(added).index_of(log);
        if i < refs.len() {
            assert(refs[i] == log);
        }
    }
}

/// In a list of distinct logs each log has the manifest at its place.
proof fn lemma_manifest_at(logs: Seq<PendingDataLogManifest>, i: int)
    requires
        logs_distinct(logs),
        0 <= i < logs.len(),
    ensures
        manifest_of(logs, logs[i].log()) == Some(logs[i]),
    decreases logs.len(),
{
    if i < logs.len() - 1 {
        let shorter = logs.drop_last();
        assert forall|a: int, b: int| 0 <= a < b < shorter.len() implies (
        #[trigger] shorter[a]).log() != (#[trigger] shorter[b]).log() by {
            assert(logs[a].log() != logs[b].log());
        }
        assert(logs[i].log() != logs[logs.len() - 1].log());
        assert(shorter[i] == logs[i]);
        lemma_manifest_at(shorter, i);
    }
}

proof fn lemma_manifest_found(logs: Seq<PendingDataLogManifest>, log: DurableDataLogRef)
    requires
        manifest_of(logs, log) is Some,
    ensures
        exists|k: int| 0 <= k < logs.len() && (#[trigger] logs[k]).log() == log,
    decreases logs.len(),
{
    if logs.len() > 0 {
        if logs.last().log() == log {
            assert(logs[logs.len() - 1].log() == log);
        } else {
            let shorter = logs.drop_last();
            lemma_manifest_found(shorter, log);
            let k = choose|k: int| 0 <= k < shorter.len() && (#[trigger] shorter[k]).log() == log;
            assert(logs[k].log() == log);
        }
    }
}

/// Replacing the manifest of one log leaves those of the others.
proof fn lemma_manifest_set(
    logs: Seq<PendingDataLogManifest>,
    i: int,
    merged: PendingDataLogManifest,
    log: DurableDataLogRef,
)
    requires
        0 <= i < logs.len(),
        merged.log() == logs[i].log(),
    ensures
        log != merged.log() ==> manifest_of(logs.update(i, merged), log) == manifest_of(logs, log),
    decreases logs.len(),
{
    let after = logs.update(i, merged);
    if i == logs.len() - 1 {
        assert(after.drop_last() =~= logs.drop_last());
    } else {
        assert(after.drop_last() =~= logs.drop_last().update(i, merged));
        lemma_manifest_set(logs.drop_last(), i, merged, log);
    }
}

} // verus!
