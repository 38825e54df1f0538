//! What the driver counts.

use crate::driver::types::{SuspendKind, SuspendView};
use vstd::prelude::*;

verus! {

/// Work that the driver hands to its dispatcher.
#[derive(Clone, Copy, Debug, PartialEq, Eq, Structural)]
pub enum DispatchOperation {
    Submit,
    RootSubmit,
    Invoke,
    Spawn,
    Resume,
    Filein,
    Fileout,
}

/// Workers that the driver runs beside its dispatcher.
#[derive(Clone, Copy, Debug, PartialEq, Eq, Structural)]
pub enum AsyncWorkerKind {
    TimerResume,
    MailboxTimeout,
    ExternalRequest,
    MailboxRecv,
    MailboxWake,
    SpawnChild,
}

/// How a worker ended.
#[derive(Clone, Copy, Debug, PartialEq, Eq, Structural)]
pub enum WorkerOutcome {
    Complete,
    Error,
    Timeout,
    Cancelled,
}

/// What came of asking for parallel workers.
#[derive(Clone, Copy, Debug, PartialEq, Eq, Structural)]
pub enum ParallelAdmissionOutcome {
    Admitted,
    Capacity,
    TaskWaiting,
    Contended,
}

/// The kinds of suspension that are counted apart.
#[derive(Clone, Copy, Debug, PartialEq, Eq, Structural)]
pub enum SuspendKindMetric {
    Commit,
    Never,
    TimedMillis,
    WaitingForInput,
    MailboxRecv,
    Spawn,
    ExternalRequest,
}

/// The kind under which a suspension is counted.
pub open spec fn suspension_kind(kind: SuspendView) -> SuspendKindMetric {
    match kind {
        SuspendView::Commit => SuspendKindMetric::Commit,
        SuspendView::Never => SuspendKindMetric::Never,
        SuspendView::TimedMillis(_) => SuspendKindMetric::TimedMillis,
        SuspendView::WaitingForInput(_) => SuspendKindMetric::WaitingForInput,
        SuspendView::MailboxRecv(_, _) => SuspendKindMetric::MailboxRecv,
        SuspendView::Spawn(_, _, _) => SuspendKindMetric::Spawn,
        SuspendView::ExternalRequest(_, _, _) => SuspendKindMetric::ExternalRequest,
    }
}

/// The kind under which a suspension is counted.
pub fn record_suspend(kind: &SuspendKind) -> (metric: SuspendKindMetric)
    ensures
        metric == suspension_kind(kind@),
{
    match kind {
        SuspendKind::Commit => SuspendKindMetric::Commit,
        SuspendKind::Never => SuspendKindMetric::Never,
        SuspendKind::TimedMillis(_) => SuspendKindMetric::TimedMillis,
        SuspendKind::WaitingForInput(_) => SuspendKindMetric::WaitingForInput,
        SuspendKind::MailboxRecv(_) => SuspendKindMetric::MailboxRecv,
        SuspendKind::Spawn(_) => SuspendKindMetric::Spawn,
        SuspendKind::ExternalRequest(_) => SuspendKindMetric::ExternalRequest,
    }
}

/// Microseconds as they are recorded: at most what fits.
pub fn duration_us(micros: u128) -> (recorded: u64)
    ensures
        recorded == if micros > u64::MAX {
            u64::MAX as u128
        } else {
            micros
        },
{
    if micros > u64::MAX as u128 {
        u64::MAX
    } else {
        micros as u64
    }
}

/// How many workers of each kind are under way, and in all.
#[derive(Clone, Copy, Debug, PartialEq, Eq, Structural)]
pub struct ActiveWorkers {
    pub timer_resume: i64,
    pub mailbox_timeout: i64,
    pub external_request: i64,
    pub mailbox_recv: i64,
    pub mailbox_wake: i64,
    pub spawn_child: i64,
    pub total: i64,
}

impl ActiveWorkers {
    /// How many workers of a kind are under way.
    pub open spec fn of(self, kind: AsyncWorkerKind) -> i64 {
        match kind {
            AsyncWorkerKind::TimerResume => self.timer_resume,
            AsyncWorkerKind::MailboxTimeout => self.mailbox_timeout,
            AsyncWorkerKind::ExternalRequest => self.external_request,
            AsyncWorkerKind::MailboxRecv => self.mailbox_recv,
            AsyncWorkerKind::MailboxWake => self.mailbox_wake,
            AsyncWorkerKind::SpawnChild => self.spawn_child,
        }
    }

    /// Whether no kind but `kind` differs from `other`.
    pub open spec fn same_but(self, other: ActiveWorkers, kind: AsyncWorkerKind) -> bool {
        forall|k: AsyncWorkerKind| k != kind ==> #[trigger] self.of(k) == other.of(k)
    }

    /// No worker under way.
    pub fn new() -> (active: ActiveWorkers)
        ensures
            forall|k: AsyncWorkerKind| #[trigger] active.of(k) == 0,
            active.total == 0,
    {
        ActiveWorkers {
            timer_resume: 0,
            mailbox_timeout: 0,
            external_request: 0,
            mailbox_recv: 0,
            mailbox_wake: 0,
            spawn_child: 0,
            total: 0,
        }
    }

    fn active_worker_counter(&self, kind: AsyncWorkerKind) -> (count: i64)
        ensures
            count == self.of(kind),
    {
        match kind {
            AsyncWorkerKind::TimerResume => self.timer_resume,
            AsyncWorkerKind::MailboxTimeout => self.mailbox_timeout,
            AsyncWorkerKind::ExternalRequest => self.external_request,
            AsyncWorkerKind::MailboxRecv => self.mailbox_recv,
            AsyncWorkerKind::MailboxWake => self.mailbox_wake,
            AsyncWorkerKind::SpawnChild => self.spawn_child,
        }
    }

    fn set(&mut self, kind: AsyncWorkerKind, count: i64)
        ensures
            final(self).of(kind) == count,
            final(self).same_but(*old(self), kind),
            final(self).total == old(self).total,
    {
        match kind {
            AsyncWorkerKind::TimerResume => {
                self.timer_resume = count;
            },
            AsyncWorkerKind::MailboxTimeout => {
                self.mailbox_timeout = count;
            },
            AsyncWorkerKind::ExternalRequest => {
                self.external_request = count;
            },
            AsyncWorkerKind::MailboxRecv => {
                self.mailbox_recv = count;
            },
            AsyncWorkerKind::MailboxWake => {
                self.mailbox_wake = count;
            },
            AsyncWorkerKind::SpawnChild => {
                self.spawn_child = count;
            },
        }
    }

    /// Notes that a worker started, and gives the figures to show: of its kind, and
    /// in all.
    pub fn async_worker_started(&mut self, kind: AsyncWorkerKind) -> (shown: (i64, i64))
        requires
            old(self).of(kind) < i64::MAX,
            old(self).total < i64::MAX,
        ensures
            final(self).of(kind) == old(self).of(kind) + 1,
            final(self).same_but(*old(self), kind),
            final(self).total == old(self).total + 1,
            shown == (final(self).of(kind), final(self).total),
    {
        let active: i64 = self.active_worker_counter(kind) + 1;
        self.set(kind, active);
        let ghost counted = *self;
        self.total = self.total + 1;
        assert forall|k: AsyncWorkerKind| k != kind implies #[trigger] self.of(k) == old(self).of(
            k,
        ) by {
            assert(counted.of(k) == old(self).of(k));
        }
        (active, self.total)
    }

    /// Notes that a worker finished, and gives the figures to show: of its kind, and
    /// in all, neither below zero.
    pub fn async_worker_finished(&mut self, kind: AsyncWorkerKind) -> (shown: (i64, i64))
        requires
            old(self).total > i64::MIN,
            old(self).of(kind) > i64::MIN,
        ensures
            final(self).of(kind) == if old(self).of(kind) > 0 {
                old(self).of(kind) - 1
            } else {
                0
            },
            final(self).same_but(*old(self), kind),
            final(self).total == old(self).total - 1,
            shown.0 == final(self).of(kind),
            shown.1 == if final(self).total > 0 {
                final(self).total
            } else {
                0
            },
    {
        let current: i64 = self.active_worker_counter(kind);
        let active: i64 = if current > 0 {
            current - 1
        } else {
            0
        };
        self.set(kind, active);
        let ghost counted = *self;
        self.total = self.total - 1;
        assert forall|k: AsyncWorkerKind| k != kind implies #[trigger] self.of(k) == old(self).of(
            k,
        ) by {
            assert(counted.of(k) == old(self).of(k));
        }
        (
            active,
            if self.total > 0 {
                self.total
            } else {
                0
            },
        )
    }
}

} // verus!
