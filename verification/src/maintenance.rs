//! What maintenance does: when a write is let in, which logs a tick compacts,
//! and when the background worker runs.
use vstd::prelude::*;

use crate::data_log::{DurableDataLogRef, holds_ref, refs_in};
use crate::error::StorageError;
use crate::id::SegmentId;

verus! {

#[derive(Clone, Copy, Debug, PartialEq, Eq, Structural)]
pub enum MaintenanceMode {
    /// Only when asked.
    Manual,
    /// Before writes that find work.
    Opportunistic,
    /// In the background.
    AlwaysOn,
}

/// How data logs are rolled and compacted.
#[derive(Clone, Copy, Debug, PartialEq, Eq, Structural)]
pub struct DurableDataLogPolicy {
    pub max_log_bytes: u64,
    pub max_compaction_copy_bytes: u64,
}

#[derive(Clone, Copy, Debug, PartialEq, Eq, Structural)]
pub struct MaintenancePolicy {
    pub mode: MaintenanceMode,
    pub data_log_policy: DurableDataLogPolicy,
    pub write_backpressure_enabled: bool,
    pub compaction_copy_budget_per_tick: u64,
    pub max_sqlite_wal_bytes: u64,
}

impl MaintenancePolicy {
    /// Whether a store can be kept by the policy: a log has room for bytes.
    pub open spec fn valid(&self) -> bool {
        self.data_log_policy.max_log_bytes > 0
    }

    pub fn validate(&self) -> (result: Result<(), StorageError>)
        ensures
            result is Ok <==> self.valid(),
            result matches Err(error) ==> error == (StorageError::InvalidArgument {
                message: "data log size must be greater than zero",
            }),
    {
        if self.data_log_policy.max_log_bytes == 0 {
            return Err(
                StorageError::invalid_argument("data log size must be greater than zero"),
            );
        }
        Ok(())
    }

    /// The policy of a store that is maintained only when asked.
    pub fn manual(data_log_policy: DurableDataLogPolicy) -> (policy: MaintenancePolicy)
        ensures
            policy.mode == MaintenanceMode::Manual,
            policy.data_log_policy == data_log_policy,
            !policy.write_backpressure_enabled,
            policy.compaction_copy_budget_per_tick == data_log_policy.max_compaction_copy_bytes,
            policy.max_sqlite_wal_bytes == u64::MAX,
    {
        MaintenancePolicy {
            mode: MaintenanceMode::Manual,
            data_log_policy,
            write_backpressure_enabled: false,
            compaction_copy_budget_per_tick: data_log_policy.max_compaction_copy_bytes,
            max_sqlite_wal_bytes: u64::MAX,
        }
    }
}

/// Whether the size of the SQLite log matters to a policy.
pub fn policy_uses_sqlite_wal_pressure(policy: MaintenancePolicy) -> (uses: bool)
    ensures
        uses == (policy.max_sqlite_wal_bytes != u64::MAX),
{
    policy.max_sqlite_wal_bytes != u64::MAX
}

/// The data log policy of one tick: no more is copied than the tick may.
pub fn maintenance_tick_data_log_policy(policy: MaintenancePolicy) -> (tick: DurableDataLogPolicy)
    ensures
        tick == (DurableDataLogPolicy {
            max_compaction_copy_bytes: if policy.data_log_policy.max_compaction_copy_bytes
                <= policy.compaction_copy_budget_per_tick {
                policy.data_log_policy.max_compaction_copy_bytes
            } else {
                policy.compaction_copy_budget_per_tick
            },
            ..policy.data_log_policy
        }),
{
    let mut tick = policy.data_log_policy;
    if tick.max_compaction_copy_bytes > policy.compaction_copy_budget_per_tick {
        tick.max_compaction_copy_bytes = policy.compaction_copy_budget_per_tick;
    }
    tick
}

/// What one tick is to do.
pub struct MaintenanceTickPlan {
    /// Why writes are not let in, if they are not.
    pub unavailable: Option<&'static str>,
    /// The logs of each command to compact logs.
    pub compactions: Vec<Vec<DurableDataLogRef>>,
    pub selected_logs: usize,
    pub skipped_logs: usize,
    pub next_cursor: Option<DurableDataLogRef>,
}

#[derive(Clone, Copy, Debug, PartialEq, Eq, Structural)]
pub enum WriteAdmission {
    Accept,
    AcceptAndSchedule,
}

/// What is done with a write.
#[derive(Clone, Copy, Debug)]
pub enum AdmissionStep {
    Admit(WriteAdmission),
    /// The write is let in after a tick.
    TickFirst,
    Refuse(StorageError),
}

/// Whether a policy looks at the state of the store before a write.
pub fn observes_writes(policy: MaintenancePolicy) -> (observes: bool)
    ensures
        observes == (policy.write_backpressure_enabled || policy.mode
            == MaintenanceMode::Opportunistic),
{
    policy.write_backpressure_enabled || policy.mode == MaintenanceMode::Opportunistic
}

/// What is done with a write, by the plan of the next tick.
pub open spec fn admission_step(
    policy: MaintenancePolicy,
    plan: Option<&MaintenanceTickPlan>,
) -> AdmissionStep {
    match plan {
        None => AdmissionStep::Admit(WriteAdmission::Accept),
        Some(plan) => if policy.write_backpressure_enabled && plan.unavailable is Some {
            AdmissionStep::Refuse(StorageError::Unavailable { message: plan.unavailable->0 })
        } else if plan.compactions@.len() == 0 {
            AdmissionStep::Admit(WriteAdmission::Accept)
        } else if policy.mode == MaintenanceMode::Opportunistic {
            AdmissionStep::TickFirst
        } else {
            AdmissionStep::Admit(WriteAdmission::AcceptAndSchedule)
        },
    }
}

/// Whether a write is let in, by the plan of the next tick; a policy that does
/// not look lets every write in.
pub fn admit_write(policy: MaintenancePolicy, plan: Option<&MaintenanceTickPlan>) -> (step:
    AdmissionStep)
    ensures
        step == admission_step(policy, plan),
{
    match plan {
        None => AdmissionStep::Admit(WriteAdmission::Accept),
        Some(plan) => {
            if policy.write_backpressure_enabled {
                if let Some(reason) = plan.unavailable {
                    return AdmissionStep::Refuse(StorageError::unavailable(reason));
                }
            }
            if plan.compactions.len() == 0 {
                AdmissionStep::Admit(WriteAdmission::Accept)
            } else if policy.mode == MaintenanceMode::Opportunistic {
                AdmissionStep::TickFirst
            } else {
                AdmissionStep::Admit(WriteAdmission::AcceptAndSchedule)
            }
        },
    }
}

/// What compactions did.
pub struct DurableCompactionReport {
    pub deleted_logs: Vec<DurableDataLogRef>,
    pub relocated_logs: Vec<DurableDataLogRef>,
    pub relocated_segments: Vec<SegmentId>,
    pub bytes_copied: u64,
    pub bytes_deleted: u64,
}

pub fn empty_compaction_report() -> (report: DurableCompactionReport)
    ensures
        report.deleted_logs@.len() == 0,
        report.relocated_logs@.len() == 0,
        report.relocated_segments@.len() == 0,
        report.bytes_copied == 0,
        report.bytes_deleted == 0,
{
    DurableCompactionReport {
        deleted_logs: Vec::new(),
        relocated_logs: Vec::new(),
        relocated_segments: Vec::new(),
        bytes_copied: 0,
        bytes_deleted: 0,
    }
}

/// The logs of a command that may be compacted now: logs that hold payload
/// which no catalog shows yet would lose it, and are left for a later tick.
pub fn compactable_logs(logs: &Vec<DurableDataLogRef>, pending: &Vec<DurableDataLogRef>) -> (kept: Vec<
    DurableDataLogRef,
>)
    ensures
        kept@ == refs_in(logs@, pending@, false),
        forall|i: int| 0 <= i < kept@.len() ==> !pending@.contains(#[trigger] kept@[i]),
{
    let mut kept: Vec<DurableDataLogRef> = Vec::new();
    let mut next: usize = 0;
    assert(logs@.take(0) =~= Seq::empty());
    while next < logs.len()
        invariant
            next <= logs@.len(),
            kept@ == refs_in(logs@.take(next as int), pending@, false),
            forall|i: int| 0 <= i < kept@.len() ==> !pending@.contains(#[trigger] kept@[i]),
        decreases logs@.len() - next,
    {
        let log = logs[next];
        assert(logs@.take(next + 1).drop_last() =~= logs@.take(next as int));
        if !holds_ref(pending, log) {
            kept.push(log);
        }
        next = next + 1;
    }
    assert(logs@.take(next as int) =~= logs@);
    kept
}

fn append_refs(out: &mut Vec<DurableDataLogRef>, more: &Vec<DurableDataLogRef>)
    ensures
        final(out)@ == old(out)@ + more@,
{
    let mut next: usize = 0;
    assert(more@.take(0) =~= Seq::empty());
    assert(out@ =~= old(out)@ + more@.take(0));
    while next < more.len()
        invariant
            next <= more@.len(),
            out@ == old(out)@ + more@.take(next as int),
        decreases more@.len() - next,
    {
        out.push(more[next]);
        assert(out@ =~= old(out)@ + more@.take(next + 1));
        next = next + 1;
    }
    assert(more@.take(next as int) =~= more@);
}

fn append_segments(out: &mut Vec<SegmentId>, more: &Vec<SegmentId>)
    ensures
        final(out)@ == old(out)@ + more@,
{
    let mut next: usize = 0;
    assert(more@.take(0) =~= Seq::empty());
    assert(out@ =~= old(out)@ + more@.take(0));
    while next < more.len()
        invariant
            next <= more@.len(),
            out@ == old(out)@ + more@.take(next as int),
        decreases more@.len() - next,
    {
        out.push(more[next]);
        assert(out@ =~= old(out)@ + more@.take(next + 1));
        next = next + 1;
    }
    assert(more@.take(next as int) =~= more@);
}

impl DurableCompactionReport {
    /// Takes in the report of one more compaction.
    pub fn extend(&mut self, report: &DurableCompactionReport) -> (result: Result<(), StorageError>)
        ensures
            result is Ok <==> old(self).bytes_copied + report.bytes_copied <= u64::MAX && old(
                self,
            ).bytes_deleted + report.bytes_deleted <= u64::MAX,
            result is Ok ==> {
                &&& final(self).deleted_logs@ == old(self).deleted_logs@ + report.deleted_logs@
                &&& final(self).relocated_logs@ == old(self).relocated_logs@
                    + report.relocated_logs@
                &&& final(self).relocated_segments@ == old(self).relocated_segments@
                    + report.relocated_segments@
                &&& final(self).bytes_copied == old(self).bytes_copied + report.bytes_copied
                &&& final(self).bytes_deleted == old(self).bytes_deleted + report.bytes_deleted
            },
            result matches Err(error) ==> error is Conflict && *final(self) == *old(self),
    {
        if self.bytes_copied > u64::MAX - report.bytes_copied {
            return Err(StorageError::conflict("maintenance bytes_copied overflow"));
        }
        if self.bytes_deleted > u64::MAX - report.bytes_deleted {
            return Err(StorageError::conflict("maintenance bytes_deleted overflow"));
        }
        append_refs(&mut self.deleted_logs, &report.deleted_logs);
        append_refs(&mut self.relocated_logs, &report.relocated_logs);
        append_segments(&mut self.relocated_segments, &report.relocated_segments);
        self.bytes_copied = self.bytes_copied + report.bytes_copied;
        self.bytes_deleted = self.bytes_deleted + report.bytes_deleted;
        Ok(())
    }
}

/// Where the maintenance of a store stands.
#[derive(Clone, Copy, Debug, PartialEq, Eq, Structural)]
pub struct MaintenanceProgress {
    pub cursor: Option<DurableDataLogRef>,
}

impl MaintenanceProgress {
    pub fn new(cursor: Option<DurableDataLogRef>) -> (progress: MaintenanceProgress)
        ensures
            progress.cursor == cursor,
    {
        MaintenanceProgress { cursor }
    }

    /// Whether the cursor of a plan has still to be written down.
    pub fn moves_cursor(&self, plan: &MaintenanceTickPlan) -> (moves: bool)
        ensures
            moves == (plan.next_cursor != self.cursor),
    {
        match (plan.next_cursor, self.cursor) {
            (None, None) => false,
            (Some(a), Some(b)) => a.storage_node.0 != b.storage_node.0 || a.log_id != b.log_id,
            _ => true,
        }
    }

    /// Moves the cursor on at the end of a tick.
    pub fn ticked(&mut self, plan: &MaintenanceTickPlan)
        ensures
            final(self).cursor == plan.next_cursor,
    {
        self.cursor = plan.next_cursor;
    }
}

/// What the background worker has been told.
#[derive(Clone, Copy, Debug, PartialEq, Eq, Structural)]
pub struct MaintenanceWorkerState {
    pub shutdown: bool,
    pub notified: bool,
}

/// What the background worker does next.
#[derive(Clone, Copy, Debug, PartialEq, Eq, Structural)]
pub enum WorkerStep {
    Sleep,
    Stop,
    /// Ticks until one finds nothing to do or fails.
    Tick,
}

impl MaintenanceWorkerState {
    pub fn new() -> (state: MaintenanceWorkerState)
        ensures
            !state.shutdown,
            !state.notified,
    {
        MaintenanceWorkerState { shutdown: false, notified: false }
    }

    pub fn notify(&mut self)
        ensures
            *final(self) == (MaintenanceWorkerState { notified: true, ..*old(self) }),
    {
        self.notified = true;
    }

    pub fn shut_down(&mut self)
        ensures
            *final(self) == (MaintenanceWorkerState { notified: true, shutdown: true }),
    {
        self.shutdown = true;
        self.notified = true;
    }

    /// What to do on waking up; a shutdown goes before work.
    pub fn wake(&mut self) -> (step: WorkerStep)
        ensures
            step == if old(self).shutdown {
                WorkerStep::Stop
            } else if old(self).notified {
                WorkerStep::Tick
            } else {
                WorkerStep::Sleep
            },
            final(self).shutdown == old(self).shutdown,
            final(self).notified == (old(self).notified && step != WorkerStep::Tick),
    {
        if self.shutdown {
            return WorkerStep::Stop;
        }
        if !self.notified {
            return WorkerStep::Sleep;
        }
        self.notified = false;
        WorkerStep::Tick
    }
}

/// Whether one report says what some say together.
pub open spec fn reports_together(
    whole: DurableCompactionReport,
    parts: Seq<DurableCompactionReport>,
) -> bool {
    &&& whole.deleted_logs@ == parts.map_values(
        |part: DurableCompactionReport| part.deleted_logs@,
    ).flatten()
    &&& whole.relocated_logs@ == parts.map_values(
        |part: DurableCompactionReport| part.relocated_logs@,
    ).flatten()
    &&& whole.relocated_segments@ == parts.map_values(
        |part: DurableCompactionReport| part.relocated_segments@,
    ).flatten()
    &&& whole.bytes_copied == bytes_copied_by(parts)
    &&& whole.bytes_deleted == bytes_deleted_by(parts)
}

/// How many bytes some compactions copied.
pub open spec fn bytes_copied_by(parts: Seq<DurableCompactionReport>) -> int
    decreases parts.len(),
{
    if parts.len() == 0 {
        0
    } else {
        bytes_copied_by(parts.drop_last()) + parts.last().bytes_copied
    }
}

/// How many bytes some compactions deleted.
pub open spec fn bytes_deleted_by(parts: Seq<DurableCompactionReport>) -> int
    decreases parts.len(),
{
    if parts.len() == 0 {
        0
    } else {
        bytes_deleted_by(parts.drop_last()) + parts.last().bytes_deleted
    }
}

/// A part of some compactions did not copy or delete more than all of them.
proof fn lemma_fewer_bytes(parts: Seq<DurableCompactionReport>, count: int)
    requires
        0 <= count <= parts.len(),
    ensures
        bytes_copied_by(parts.take(count)) <= bytes_copied_by(parts),
        bytes_deleted_by(parts.take(count)) <= bytes_deleted_by(parts),
    decreases parts.len() - count,
{
    if count < parts.len() {
        lemma_fewer_bytes(parts, count + 1);
        assert(parts.take(count + 1).drop_last() =~= parts.take(count));
    } else {
        assert(parts.take(count) =~= parts);
    }
}

/// The report of a tick, of those of its commands.
pub fn combine_reports(parts: &Vec<DurableCompactionReport>) -> (result: Result<
    DurableCompactionReport,
    StorageError,
>)
    ensures
        result is Ok <==> bytes_copied_by(parts@) <= u64::MAX && bytes_deleted_by(parts@)
            <= u64::MAX,
        result matches Ok(whole) ==> reports_together(whole, parts@),
        result matches Err(error) ==> error is Conflict,
{
    let mut whole = empty_compaction_report();
    let mut next: usize = 0;
    proof {
        let none = parts@.take(0);
        assert(none =~= Seq::empty());
        assert(none.map_values(|part: DurableCompactionReport| part.deleted_logs@)
            =~= Seq::empty());
        assert(none.map_values(|part: DurableCompactionReport| part.relocated_logs@)
            =~= Seq::empty());
        assert(none.map_values(|part: DurableCompactionReport| part.relocated_segments@)
            =~= Seq::empty());
        assert(whole.deleted_logs@ =~= Seq::empty());
        assert(whole.relocated_logs@ =~= Seq::empty());
        assert(whole.relocated_segments@ =~= Seq::empty());
    }
    while next < parts.len()
        invariant
            next <= parts@.len(),
            reports_together(whole, parts@.take(next as int)),
        decreases parts@.len() - next,
    {
        let ghost before = whole;
        proof {
            let (fewer, more) = (parts@.take(next as int), parts@.take(next + 1));
            assert(more.drop_last() =~= fewer);
            lemma_fewer_bytes(parts@, next + 1);
        }
        match whole.extend(&parts[next]) {
            Ok(()) => {},
            Err(error) => return Err(error),
        }
        proof {
            let (fewer, more) = (parts@.take(next as int), parts@.take(next + 1));
            let part = parts@[next as int];
            let deleted = |part: DurableCompactionReport| part.deleted_logs@;
            let relocated = |part: DurableCompactionReport| part.relocated_logs@;
            let segments = |part: DurableCompactionReport| part.relocated_segments@;
            assert(more.map_values(deleted) =~= fewer.map_values(deleted).push(
                part.deleted_logs@,
            ));
            assert(more.map_values(relocated) =~= fewer.map_values(relocated).push(
                part.relocated_logs@,
            ));
            assert(more.map_values(segments) =~= fewer.map_values(segments).push(
                part.relocated_segments@,
            ));
            fewer.map_values(deleted).lemma_flatten_push(part.deleted_logs@);
            fewer.map_values(relocated).lemma_flatten_push(part.relocated_logs@);
            fewer.map_values(segments).lemma_flatten_push(part.relocated_segments@);
        }
        next = next + 1;
    }
    assert(parts@.take(next as int) =~= parts@);
    Ok(whole)
}

/// Whether the background worker ticks again after a tick: one that failed, or
/// found nothing to do, is the last.
pub fn ticks_again(ticked: Option<&MaintenanceTickPlan>) -> (again: bool)
    ensures
        again == (ticked matches Some(plan) && plan.compactions@.len() > 0),
{
    match ticked {
        Some(plan) => plan.compactions.len() > 0,
        None => false,
    }
}

/// No tick compacts a log that holds payload which no catalog shows yet.
pub proof fn law_compaction_spares_pending_logs(
    logs: Seq<DurableDataLogRef>,
    pending: Seq<DurableDataLogRef>,
    log: DurableDataLogRef,
)
    requires
        pending.contains(log),
    ensures
        !refs_in(logs, pending, false).contains(log),
    decreases logs.len(),
{
    if logs.len() > 0 {
        law_compaction_spares_pending_logs(logs.drop_last(), pending, log);
        let kept = refs_in(logs, pending, false);
        let less = refs_in(logs.drop_last(), pending, false);
        if kept.contains(log) {
            let i = kept.index_of(log);
            if i < less.len() {
                assert(less[i] == log);
                assert(less.contains(log));
            } else {
                assert(kept[i] == logs.last());
            }
        }
    }
}

} // verus!
