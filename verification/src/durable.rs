//! A store whose commits are made durable. The in-memory state and the
//! decisions are here; what they say is to be written is written outside, and
//! the outcome is handed back.
use vstd::prelude::*;

use crate::block_api::FlushResult;
use crate::config::{LocalStoreConfig, durable_commit_high_water, normalized};
use crate::coordinator::LocalCoordinator;
use crate::data_log::{DurableDataLogRef, PendingDataLogAppend};
use crate::delta_records::BlockDeltaCommit;
use crate::error::StorageError;
use crate::id::{CommitSeq, DeviceId, FileId, KeyspaceId, StorageNodeId};
use crate::idmap::IdMap;
use crate::maintenance::{
    AdmissionStep, DurableDataLogPolicy, MaintenanceMode, MaintenancePolicy, MaintenanceProgress,
    MaintenanceTickPlan, admission_step, admit_write, observes_writes,
};
use crate::metadata::MetadataInner;
use crate::native_api::AppendStream;
use crate::observability::{RingLog, StorageEventKind, counted};
use crate::persist_state::{
    PersistState, PersistStep, PrestageState, after_durable, contiguous_pending_block_deltas,
    has_all, later, picks_run, prune_pending_block_deltas_through,
};

verus! {

/// What has to be written down before an operation is answered.
#[derive(Clone, Copy, Debug)]
pub enum PersistDue {
    Nothing,
    /// The whole state.
    Everything,
    /// The commits up to one.
    Commits(CommitSeq),
    /// The commits up to one, as block deltas if all of them are at hand.
    BlockDeltas(CommitSeq),
    /// The segments of one commit, ahead of the commit itself.
    Prestage(CommitSeq),
    /// The records of an append stream up to a place.
    StreamPrefix { stream: AppendStream, through: u64 },
}

/// Where the time of a persist went, in nanoseconds, and its sizes.
#[derive(Clone, Copy, Debug, PartialEq, Eq, Structural)]
pub struct DurablePersistProfile {
    pub total_nanos: u64,
    pub lock_wait_nanos: u64,
    pub local_snapshot_nanos: u64,
    pub block_delta_prestage_wait_nanos: u64,
    pub block_delta_selected_count: u64,
    pub block_delta_selected_bytes: u64,
    pub durable_commit_high_water: u64,
}

pub struct DurableCoordinator {
    pub local: LocalCoordinator,
    pub persist: PersistState,
    pub due: PersistDue,
    pub pending_block_deltas: Vec<BlockDeltaCommit>,
    pub prestage: PrestageState,
    pub persisted_segments: IdMap<()>,
    pub pending_data_log_append: PendingDataLogAppend,
    pub persist_profiler: Option<RingLog<DurablePersistProfile>>,
    pub maintenance_policy: MaintenancePolicy,
    pub maintenance: MaintenanceProgress,
}

impl DurableCoordinator {
    pub open spec fn wf(&self) -> bool {
        &&& self.local.wf()
        &&& self.persist.wf()
        &&& self.pending_data_log_append.wf()
        &&& self.persist_profiler matches Some(profiler) ==> profiler.wf()
    }

    /// Whether a request, a persist or a tick can have led here: the store is sound
    /// and keeps its configuration and its policy.
    pub open spec fn follows(&self, before: &DurableCoordinator) -> bool {
        &&& self.wf()
        &&& self.maintenance_policy == before.maintenance_policy
        &&& self.local.config == before.local.config
    }

    /// The last commit of a loaded store, up to which it is durable.
    pub open spec fn last_commit(metadata: MetadataInner) -> u64 {
        if metadata.next_commit_seq == 0 {
            0
        } else {
            (metadata.next_commit_seq - 1) as u64
        }
    }

    /// Whether nothing has been asked of a store since it was opened: all it
    /// holds is durable, and nothing is pending.
    pub open spec fn opened(&self) -> bool {
        &&& self.persist.durable_through.0 == DurableCoordinator::last_commit(self.local.metadata)
        &&& self.persist.requested_through == self.persist.durable_through
        &&& !self.persist.in_flight
        &&& self.due is Nothing
        &&& self.pending_block_deltas@.len() == 0
        &&& self.prestage.in_flight@ == Map::<u128, ()>::empty()
        &&& self.prestage.failed@ == Map::<u128, ()>::empty()
        &&& self.pending_data_log_append.placements@.len() == 0
        &&& self.persist_profiler is None
        &&& forall|id: u128| #[trigger]
            self.persisted_segments@.contains_key(id) <==> self.local.segments().contains_key(id)
    }

    /// A store over what was loaded, or an empty one.
    pub fn open_with_storage_nodes_and_maintenance_policy(
        loaded: Option<LocalCoordinator>,
        config: LocalStoreConfig,
        storage_nodes: Vec<StorageNodeId>,
        maintenance_policy: MaintenancePolicy,
        maintenance_cursor: Option<DurableDataLogRef>,
    ) -> (result: Result<DurableCoordinator, StorageError>)
        requires
            loaded matches Some(local) ==> local.wf(),
        ensures
            result is Ok <==> config.valid() && maintenance_policy.valid(),
            result matches Ok(store) ==> {
                &&& store.wf()
                &&& loaded matches Some(local) ==> store.local == local
                &&& loaded is None ==> store.local.config == config && store.local.fresh()
                    && store.local.storage_nodes.node_ids@ == normalized(
                    config.storage_node,
                    storage_nodes@,
                )
                &&& store.opened()
                &&& store.maintenance_policy == maintenance_policy
                &&& store.maintenance.cursor == maintenance_cursor
            },
            result matches Err(error) ==> error is InvalidArgument && (!config.valid() ==> error
                == (StorageError::InvalidArgument { message: config.fault() })),
    {
        match config.validate() {
            Ok(()) => {},
            Err(error) => return Err(error),
        }
        match maintenance_policy.validate() {
            Ok(()) => {},
            Err(error) => return Err(error),
        }
        let local = match loaded {
            Some(local) => local,
            None => match LocalCoordinator::with_storage_nodes(config, storage_nodes) {
                Ok(local) => local,
                Err(error) => return Err(error),
            },
        };
        let persisted_segments = crate::export_rows::all_keys(&local.storage_nodes.segments);
        let durable_through: u64 = if local.metadata.next_commit_seq == 0 {
            0
        } else {
            local.metadata.next_commit_seq - 1
        };
        Ok(
            DurableCoordinator {
                local,
                persist: PersistState::new(CommitSeq(durable_through)),
                due: PersistDue::Nothing,
                pending_block_deltas: Vec::new(),
                prestage: PrestageState::new(),
                persisted_segments,
                pending_data_log_append: PendingDataLogAppend::new(),
                persist_profiler: None,
                maintenance_policy,
                maintenance: MaintenanceProgress::new(maintenance_cursor),
            },
        )
    }

    /// A store on one storage node.
    pub fn open_with_maintenance_policy(
        loaded: Option<LocalCoordinator>,
        config: LocalStoreConfig,
        maintenance_policy: MaintenancePolicy,
        maintenance_cursor: Option<DurableDataLogRef>,
    ) -> (result: Result<DurableCoordinator, StorageError>)
        requires
            loaded matches Some(local) ==> local.wf(),
        ensures
            result is Ok <==> config.valid() && maintenance_policy.valid(),
            result matches Ok(store) ==> {
                &&& store.wf()
                &&& store.opened()
                &&& loaded matches Some(local) ==> store.local == local
                &&& loaded is None ==> store.local.config == config && store.local.fresh()
                    && store.local.storage_nodes.node_ids@ == normalized(
                    config.storage_node,
                    seq![config.storage_node],
                )
                &&& store.maintenance_policy == maintenance_policy
                &&& store.maintenance.cursor == maintenance_cursor
            },
            result matches Err(error) ==> error is InvalidArgument && (!config.valid() ==> error
                == (StorageError::InvalidArgument { message: config.fault() })),
    {
        let mut nodes: Vec<StorageNodeId> = Vec::new();
        nodes.push(config.storage_node);
        assert(nodes@ =~= seq![config.storage_node]);
        DurableCoordinator::open_with_storage_nodes_and_maintenance_policy(
            loaded,
            config,
            nodes,
            maintenance_policy,
            maintenance_cursor,
        )
    }

    /// A store that is maintained only when asked.
    pub fn open_with_storage_nodes_and_data_log_policy(
        loaded: Option<LocalCoordinator>,
        config: LocalStoreConfig,
        storage_nodes: Vec<StorageNodeId>,
        policy: DurableDataLogPolicy,
        maintenance_cursor: Option<DurableDataLogRef>,
    ) -> (result: Result<DurableCoordinator, StorageError>)
        requires
            loaded matches Some(local) ==> local.wf(),
        ensures
            result is Ok <==> config.valid() && policy.max_log_bytes > 0,
            result matches Ok(store) ==> {
                &&& store.wf()
                &&& store.opened()
                &&& loaded matches Some(local) ==> store.local == local
                &&& loaded is None ==> store.local.config == config && store.local.fresh()
                    && store.local.storage_nodes.node_ids@ == normalized(
                    config.storage_node,
                    storage_nodes@,
                )
                &&& store.maintenance_policy.mode == MaintenanceMode::Manual
                &&& store.maintenance_policy.data_log_policy == policy
                &&& store.maintenance.cursor == maintenance_cursor
            },
            result matches Err(error) ==> error is InvalidArgument && (!config.valid() ==> error
                == (StorageError::InvalidArgument { message: config.fault() })),
    {
        DurableCoordinator::open_with_storage_nodes_and_maintenance_policy(
            loaded,
            config,
            storage_nodes,
            MaintenancePolicy::manual(policy),
            maintenance_cursor,
        )
    }

    /// A store on one storage node that is maintained only when asked.
    pub fn open_with_data_log_policy(
        loaded: Option<LocalCoordinator>,
        config: LocalStoreConfig,
        policy: DurableDataLogPolicy,
        maintenance_cursor: Option<DurableDataLogRef>,
    ) -> (result: Result<DurableCoordinator, StorageError>)
        requires
            loaded matches Some(local) ==> local.wf(),
        ensures
            result is Ok <==> config.valid() && policy.max_log_bytes > 0,
            result matches Ok(store) ==> {
                &&& store.wf()
                &&& store.opened()
                &&& loaded matches Some(local) ==> store.local == local
                &&& loaded is None ==> store.local.config == config && store.local.fresh()
                    && store.local.storage_nodes.node_ids@ == normalized(
                    config.storage_node,
                    seq![config.storage_node],
                )
                &&& store.maintenance_policy.mode == MaintenanceMode::Manual
                &&& store.maintenance_policy.data_log_policy == policy
                &&& store.maintenance.cursor == maintenance_cursor
            },
            result matches Err(error) ==> error is InvalidArgument && (!config.valid() ==> error
                == (StorageError::InvalidArgument { message: config.fault() })),
    {
        DurableCoordinator::open_with_maintenance_policy(
            loaded,
            config,
            MaintenancePolicy::manual(policy),
            maintenance_cursor,
        )
    }

    pub fn maintenance_policy(&self) -> (policy: MaintenancePolicy)
        ensures
            policy == self.maintenance_policy,
    {
        self.maintenance_policy
    }

    pub fn metadata(&self) -> (metadata: &MetadataInner)
        ensures
            *metadata == self.local.metadata,
    {
        &self.local.metadata
    }

    /// Whether the state of the logs is looked at before a write.
    pub fn observes_writes(&self) -> (observes: bool)
        ensures
            observes == (self.maintenance_policy.write_backpressure_enabled
                || self.maintenance_policy.mode == MaintenanceMode::Opportunistic),
    {
        observes_writes(self.maintenance_policy)
    }

    /// Whether a write is let in. One that is not is counted, and the event is
    /// kept.
    pub fn admit_write(&mut self, plan: Option<&MaintenanceTickPlan>) -> (step: AdmissionStep)
        requires
            old(self).wf(),
        ensures
            final(self).follows(old(self)),
            final(self).wf(),
            step == admission_step(old(self).maintenance_policy, plan),
            step is Refuse ==> *final(self) == (DurableCoordinator {
                local: LocalCoordinator {
                    observability: final(self).local.observability,
                    ..old(self).local
                },
                ..*old(self)
            }) && final(self).local.observability.counters == counted(
                old(self).local.observability.counters,
                StorageEventKind::CoordinatorWriteUnavailable,
            ) && final(self).local.observability.event_kept(
                &old(self).local.observability,
                StorageEventKind::CoordinatorWriteUnavailable,
                None,
                None,
                None,
                plan->0.unavailable,
            ),
            !(step is Refuse) ==> *final(self) == *old(self),
    {
        let step = admit_write(self.maintenance_policy, plan);
        match (&step, plan) {
            (AdmissionStep::Refuse(_), Some(plan)) => {
                self.local.observability.record_with_reason(
                    StorageEventKind::CoordinatorWriteUnavailable,
                    None,
                    None,
                    None,
                    plan.unavailable,
                );
            },
            _ => {},
        }
        step
    }

    /// Numbers the streams that are opened from now on apart from those of an
    /// earlier incarnation of the store.
    pub fn use_append_stream_incarnation(&mut self, incarnation: u64)
        requires
            old(self).wf(),
        ensures
            final(self).follows(old(self)),
            final(self).wf(),
            *final(self) == (DurableCoordinator {
                local: LocalCoordinator {
                    metadata: MetadataInner {
                        next_append_stream_id: final(self).local.metadata.next_append_stream_id,
                        ..old(self).local.metadata
                    },
                    ..old(self).local
                },
                ..*old(self)
            }),
            final(self).local.metadata.next_append_stream_id == if old(
                self,
            ).local.metadata.next_append_stream_id < incarnation * 0x1_0000_0000_0000_0000 {
                incarnation * 0x1_0000_0000_0000_0000
            } else {
                old(self).local.metadata.next_append_stream_id as int
            },
    {
        let first: u128 = incarnation as u128 * 0x1_0000_0000_0000_0000u128;
        if self.local.metadata.next_append_stream_id < first {
            self.local.metadata.next_append_stream_id = first;
        }
        proof {
            let bs = self.local.block_size();
            assert(self.local.metadata.devices_wf(bs));
            assert(self.local.metadata.files_wf(bs));
        }
    }

    /// Whether the background worker is told after a write.
    pub fn notifies_worker(&self) -> (notifies: bool)
        ensures
            notifies == (self.maintenance_policy.mode == MaintenanceMode::AlwaysOn),
    {
        self.maintenance_policy.mode == MaintenanceMode::AlwaysOn
    }

    pub fn enable_persist_profiling(&mut self, capacity: usize) -> (result: Result<
        (),
        StorageError,
    >)
        requires
            old(self).wf(),
        ensures
            final(self).follows(old(self)),
            final(self).wf(),
            result is Ok <==> capacity > 0,
            result is Ok ==> *final(self) == (DurableCoordinator {
                persist_profiler: final(self).persist_profiler,
                ..*old(self)
            }) && (final(self).persist_profiler matches Some(profiler) && profiler.capacity
                == capacity && profiler.items@.len() == 0),
            result matches Err(error) ==> error is InvalidArgument && *final(self) == *old(self),
    {
        match RingLog::new(capacity) {
            Ok(profiler) => {
                self.persist_profiler = Some(profiler);
                Ok(())
            },
            Err(error) => Err(error),
        }
    }

    /// Keeps the profile of a persist, if profiles are kept.
    pub fn record_persist_profile(&mut self, profile: DurablePersistProfile)
        requires
            old(self).wf(),
        ensures
            final(self).follows(old(self)),
            final(self).wf(),
            *final(self) == (DurableCoordinator {
                persist_profiler: final(self).persist_profiler,
                ..*old(self)
            }),
            old(self).persist_profiler is None ==> final(self).persist_profiler is None,
            old(self).persist_profiler matches Some(before) ==> (
            final(self).persist_profiler matches Some(after) && after.capacity == before.capacity
                && after.items@ == crate::observability::ring_push(
                before.items@,
                before.capacity as int,
                profile,
            )),
    {
        let mut profiler: Option<RingLog<DurablePersistProfile>> = None;
        core::mem::swap(&mut self.persist_profiler, &mut profiler);
        match profiler {
            Some(mut log) => {
                log.record(profile);
                self.persist_profiler = Some(log);
            },
            None => {},
        }
    }

    /// Takes the oldest persist profiles out, at most `max` of them.
    pub fn drain_persist_profiles(&mut self, max: usize) -> (taken: Vec<DurablePersistProfile>)
        requires
            old(self).wf(),
        ensures
            final(self).follows(old(self)),
            final(self).wf(),
            *final(self) == (DurableCoordinator {
                persist_profiler: final(self).persist_profiler,
                ..*old(self)
            }),
            old(self).persist_profiler is None ==> taken@.len() == 0
                && final(self).persist_profiler is None,
            old(self).persist_profiler matches Some(before) ==> (
            final(self).persist_profiler matches Some(after) && after.capacity == before.capacity
                && taken@ + after.items@ == before.items@ && taken@.len() == if max
                <= before.items@.len() {
                max as nat
            } else {
                before.items@.len()
            }),
    {
        let mut profiler: Option<RingLog<DurablePersistProfile>> = None;
        core::mem::swap(&mut self.persist_profiler, &mut profiler);
        match profiler {
            Some(mut log) => {
                let taken = log.drain(max);
                self.persist_profiler = Some(log);
                taken
            },
            None => Vec::new(),
        }
    }

    /// Which block deltas make the commits up to a target durable; `None` if
    /// the whole state has to be written instead.
    pub fn block_deltas_due(&self, target: CommitSeq) -> (picked: Option<Vec<usize>>)
        ensures
            picked is Some <==> has_all(
                self.pending_block_deltas@,
                self.persist.durable_through.0 + 1,
                target.0 as int,
            ),
            picked matches Some(picks) ==> picks_run(
                self.pending_block_deltas@,
                picks@,
                self.persist.durable_through.0 + 1,
            ),
    {
        contiguous_pending_block_deltas(
            &self.pending_block_deltas,
            self.persist.durable_through,
            target,
        )
    }

    /// Ends a run that wrote block deltas, or the state, up to a commit.
    pub fn persisted(
        &mut self,
        required: CommitSeq,
        outcome: Result<CommitSeq, StorageError>,
        written: &IdMap<()>,
    ) -> (result: Result<(), StorageError>)
        requires
            old(self).wf(),
        ensures
            final(self).follows(old(self)),
            final(self).wf(),
            *final(self) == (DurableCoordinator {
                persist: final(self).persist,
                pending_block_deltas: final(self).pending_block_deltas,
                prestage: final(self).prestage,
                persisted_segments: final(self).persisted_segments,
                pending_data_log_append: final(self).pending_data_log_append,
                ..*old(self)
            }),
            final(self).prestage.in_flight@ == old(self).prestage.in_flight@,
            !final(self).persist.in_flight,
            final(self).persist.durable_through.0 >= old(self).persist.durable_through.0,
            match outcome {
                Ok(durable) => {
                    &&& final(self).persist.durable_through == later(
                        old(self).persist.durable_through,
                        durable,
                    )
                    &&& result is Ok <==> final(self).persist.durable_through.0 >= required.0
                    &&& result matches Err(error) ==> error is Conflict
                    &&& forall|seq: u128| #[trigger]
                        final(self).prestage.failed@.contains_key(seq) <==> old(
                            self,
                        ).prestage.failed@.contains_key(seq) && seq > durable.0
                    &&& final(self).pending_block_deltas@ == after_durable(
                        old(self).pending_block_deltas@,
                        durable.0,
                    )
                    &&& final(self).pending_data_log_append.placements@
                        == crate::data_log::placements_in(
                        old(self).pending_data_log_append.placements@,
                        written@,
                        false,
                    )
                    &&& forall|id: u128| #[trigger]
                        final(self).persisted_segments@.contains_key(id) <==> old(
                            self,
                        ).persisted_segments@.contains_key(id) || written@.contains_key(id)
                },
                Err(error) => {
                    &&& result == Err::<(), StorageError>(error)
                    &&& final(self).persist.durable_through == old(self).persist.durable_through
                    &&& final(self).prestage == old(self).prestage
                    &&& final(self).pending_block_deltas == old(self).pending_block_deltas
                    &&& final(self).persisted_segments == old(self).persisted_segments
                    &&& final(self).pending_data_log_append == old(self).pending_data_log_append
                },
            },
    {
        if let Ok(durable) = outcome {
            prune_pending_block_deltas_through(&mut self.pending_block_deltas, durable);
            self.prestage.prune_through(durable);
            self.pending_data_log_append.remove_segments(written);
            let ghost before = self.persisted_segments@;
            let count: usize = written.len();
            let ghost keys = written.keys();
            let mut next: usize = 0;
            while next < count
                invariant
                    next <= count,
                    count == keys.len(),
                    keys == written.keys(),
                    crate::idmap::is_walk(keys, written@),
                    *self == (DurableCoordinator {
                        pending_block_deltas: self.pending_block_deltas,
                        prestage: self.prestage,
                        persisted_segments: self.persisted_segments,
                        pending_data_log_append: self.pending_data_log_append,
                        ..*old(self)
                    }),
                    self.prestage.in_flight@ == old(self).prestage.in_flight@,
                    forall|seq: u128| #[trigger]
                        self.prestage.failed@.contains_key(seq) <==> old(
                            self,
                        ).prestage.failed@.contains_key(seq) && seq > durable.0,
                    self.wf(),
                    self.pending_block_deltas@ == after_durable(
                        old(self).pending_block_deltas@,
                        durable.0,
                    ),
                    self.pending_data_log_append.placements@ == crate::data_log::placements_in(
                        old(self).pending_data_log_append.placements@,
                        written@,
                        false,
                    ),
                    forall|id: u128| #[trigger]
                        self.persisted_segments@.contains_key(id) <==> before.contains_key(id)
                            || keys.take(next as int).contains(id),
                decreases count - next,
            {
                let (id, _) = written.entry_at(next);
                self.persisted_segments.insert(id, ());
                proof {
                    crate::export_rows::lemma_taken(keys, next as int);
                }
                next = next + 1;
            }
            proof {
                assert(keys.take(next as int) =~= keys);
                assert forall|id: u128| keys.contains(id) <==> written@.contains_key(id) by {}
            }
        }
        self.persist.finish(required, outcome)
    }

    /// The segments of a commit that have still to be written ahead of it.
    pub fn segments_to_prestage(&self, wanted: &IdMap<()>) -> (missing: IdMap<()>)
        ensures
            forall|id: u128| #[trigger]
                missing@.contains_key(id) <==> wanted@.contains_key(id)
                    && !self.persisted_segments@.contains_key(id)
                    && !self.pending_data_log_append.places(id),
    {
        let pending = self.pending_data_log_append.segment_ids();
        let mut missing: IdMap<()> = IdMap::new();
        let count: usize = wanted.len();
        let ghost keys = wanted.keys();
        let mut next: usize = 0;
        while next < count
            invariant
                next <= count,
                count == keys.len(),
                keys == wanted.keys(),
                crate::idmap::is_walk(keys, wanted@),
                forall|id: u128| #[trigger]
                    pending@.contains_key(id) <==> self.pending_data_log_append.places(id),
                forall|id: u128| #[trigger]
                    missing@.contains_key(id) <==> keys.take(next as int).contains(id)
                        && !self.persisted_segments@.contains_key(id)
                        && !self.pending_data_log_append.places(id),
            decreases count - next,
        {
            let (id, _) = wanted.entry_at(next);
            if !self.persisted_segments.contains_key(id) && !pending.contains_key(id) {
                missing.insert(id, ());
            }
            proof {
                crate::export_rows::lemma_taken(keys, next as int);
                assert(pending@.contains_key(id) <==> self.pending_data_log_append.places(id));
            }
            next = next + 1;
        }
        proof {
            assert(keys.take(next as int) =~= keys);
            assert forall|id: u128| keys.contains(id) <==> wanted@.contains_key(id) by {}
        }
        missing
    }

    /// Takes in what writing segments ahead of a commit did.
    pub fn prestaged(&mut self, commit_seq: CommitSeq, appended: Option<PendingDataLogAppend>)
        requires
            old(self).wf(),
            appended matches Some(appended) ==> appended.wf(),
        ensures
            final(self).follows(old(self)),
            final(self).wf(),
            *final(self) == (DurableCoordinator {
                prestage: final(self).prestage,
                pending_data_log_append: final(self).pending_data_log_append,
                ..*old(self)
            }),
            final(self).prestage.in_flight@ == old(self).prestage.in_flight@.remove(
                commit_seq.0 as u128,
            ),
            appended matches Some(appended) ==> final(self).pending_data_log_append.placements@
                == old(self).pending_data_log_append.placements@ + appended.placements@
                && final(self).prestage.failed@ == old(self).prestage.failed@.remove(
                commit_seq.0 as u128,
            ),
            appended is None ==> final(self).pending_data_log_append == old(
                self,
            ).pending_data_log_append && final(self).prestage.failed@ == old(
                self,
            ).prestage.failed@.insert(commit_seq.0 as u128, ()),
    {
        match appended {
            Some(appended) => {
                self.pending_data_log_append.merge(appended);
                self.prestage.finish(commit_seq, true);
            },
            None => {
                self.prestage.finish(commit_seq, false);
            },
        }
    }

    /// Whether there are block deltas, pending or stored, that the stored state
    /// lacks.
    pub open spec fn unfolded(&self, stored: bool) -> bool {
        self.pending_block_deltas@.len() > 0 || stored
    }

    /// Whether block deltas have to be folded into the state before what they
    /// name can be collected.
    pub fn has_unfolded_block_deltas(&self, stored: bool) -> (unfolded: bool)
        ensures
            unfolded == self.unfolded(stored),
    {
        self.pending_block_deltas.len() > 0 || stored
    }

    /// Asks for the last commit of a device to be durable.
    pub fn flush_device(&mut self, device_id: DeviceId) -> (result: Result<
        (FlushResult, PersistStep),
        StorageError,
    >)
        requires
            old(self).wf(),
        ensures
            final(self).follows(old(self)),
            final(self).wf(),
            *final(self) == (DurableCoordinator { persist: final(self).persist, ..*old(self) }),
            final(self).persist.durable_through == old(self).persist.durable_through,
            result is Ok <==> old(self).local.metadata.has_device(device_id),
            result matches Ok((flushed, step)) ==> {
                &&& flushed.device_id == device_id
                &&& flushed.durable_through
                    == old(self).local.metadata.device_heads@[device_id.0].latest_commit
                &&& step is Reached <==> old(self).persist.durable_through.0
                    >= flushed.durable_through.0
                &&& final(self).persist.requested_through == later(
                    old(self).persist.requested_through,
                    flushed.durable_through,
                )
                &&& step == if step is Reached {
                    PersistStep::Reached
                } else if old(self).persist.in_flight {
                    PersistStep::Wait { generation: old(self).persist.generation }
                } else {
                    PersistStep::Run { target: final(self).persist.requested_through }
                }
            },
            result matches Err(error) ==> *final(self) == *old(self) && error
                == (StorageError::NotFound { kind: "device", id: device_id.0 }),
    {
        let latest = match self.local.metadata.device_heads.get(device_id.raw()) {
            Some(head) => head.latest_commit,
            None => return Err(StorageError::not_found("device", device_id.raw())),
        };
        let step = self.persist.step(latest);
        Ok((FlushResult { device_id, durable_through: latest }, step))
    }

    /// Asks for the last commit of a file to be durable.
    pub fn flush_file(&mut self, keyspace_id: KeyspaceId, file_id: FileId) -> (result: Result<
        (FlushResult, PersistStep),
        StorageError,
    >)
        requires
            old(self).wf(),
        ensures
            final(self).follows(old(self)),
            final(self).wf(),
            *final(self) == (DurableCoordinator { persist: final(self).persist, ..*old(self) }),
            final(self).persist.durable_through == old(self).persist.durable_through,
            result is Ok <==> old(self).local.metadata.has_file(keyspace_id, file_id),
            result matches Ok((flushed, step)) ==> {
                &&& flushed.device_id.0 == file_id.0
                &&& flushed.durable_through == (old(self).local.metadata.file_head(
                    keyspace_id,
                    file_id,
                )->0).latest_commit
                &&& step is Reached <==> old(self).persist.durable_through.0
                    >= flushed.durable_through.0
                &&& final(self).persist.requested_through == later(
                    old(self).persist.requested_through,
                    flushed.durable_through,
                )
                &&& step == if step is Reached {
                    PersistStep::Reached
                } else if old(self).persist.in_flight {
                    PersistStep::Wait { generation: old(self).persist.generation }
                } else {
                    PersistStep::Run { target: final(self).persist.requested_through }
                }
            },
            result matches Err(error) ==> *final(self) == *old(self) && error is NotFound,
    {
        let ghost bs = self.local.block_size();
        assert(self.local.metadata.files_wf(bs));
        let head = match self.local.metadata.get_file_head(keyspace_id, file_id) {
            Ok(head) => head,
            Err(error) => return Err(error),
        };
        let step = self.persist.step(head.latest_commit);
        Ok(
            (
                FlushResult {
                    device_id: DeviceId(file_id.raw()),
                    durable_through: head.latest_commit,
                },
                step,
            ),
        )
    }
}

} // verus!
