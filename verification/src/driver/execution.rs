//! Admission of task segments and of parallel relation work to the dispatcher.

use crate::driver::metrics::ParallelAdmissionOutcome;
use std::collections::VecDeque;
use vstd::prelude::*;

verus! {

/// Workers that parallel relation work leaves free for a task.
pub const TASK_ADMISSION_HEADROOM: usize = 1;

/// The dispatcher's workers: how many are taken, by whom, and which task
/// segments wait for one.
pub struct CpuAdmission {
    dispatch_capacity: usize,
    relation_parallelism: usize,
    occupied: usize,
    parallel_occupied: usize,
    next_waiter_id: u64,
    task_waiters: VecDeque<u64>,
}

/// The state of admission.
pub struct AdmissionView {
    pub dispatch_capacity: nat,
    pub relation_parallelism: nat,
    pub occupied: nat,
    pub parallel_occupied: nat,
    pub next_waiter_id: u64,
    pub task_waiters: Seq<u64>,
}

impl AdmissionView {
    /// What every operation keeps: no more workers are taken than there are,
    /// and parallel work stays below its bound.
    pub open spec fn wf(self) -> bool {
        &&& 0 < self.dispatch_capacity
        &&& self.parallel_occupied < self.relation_parallelism
        &&& self.parallel_occupied <= self.occupied <= self.dispatch_capacity
    }

    /// The task segments that run.
    pub open spec fn dispatched(self) -> nat {
        (self.occupied - self.parallel_occupied) as nat
    }

    /// The waiter that a freed worker goes to.
    pub open spec fn next_waiter(self) -> Option<u64> {
        if self.occupied < self.dispatch_capacity && self.task_waiters.len() > 0 {
            Some(self.task_waiters[0])
        } else {
            None
        }
    }

    /// What asking for `workers` parallel workers comes to.
    pub open spec fn parallel_outcome(self, workers: nat) -> ParallelAdmissionOutcome {
        if self.task_waiters.len() > 0 {
            ParallelAdmissionOutcome::TaskWaiting
        } else if self.parallel_occupied + workers >= self.relation_parallelism || self.occupied
            + workers + TASK_ADMISSION_HEADROOM > self.dispatch_capacity {
            ParallelAdmissionOutcome::Capacity
        } else {
            ParallelAdmissionOutcome::Admitted
        }
    }
}

/// The place of the first waiter with the given number, or the number of
/// waiters where there is none.
pub open spec fn first_position(waiters: Seq<u64>, id: u64) -> nat
    decreases waiters.len(),
{
    if waiters.len() == 0 {
        0
    } else if waiters[0] == id {
        0
    } else {
        1 + first_position(waiters.drop_first(), id)
    }
}

proof fn lemma_first_position(waiters: Seq<u64>, id: u64, at: int)
    requires
        0 <= at <= waiters.len(),
        forall|j: int| 0 <= j < at ==> waiters[j] != id,
        at == waiters.len() || waiters[at] == id,
    ensures
        first_position(waiters, id) == at,
    decreases waiters.len(),
{
    if at > 0 {
        lemma_first_position(waiters.drop_first(), id, at - 1);
    }
}

/// What polling a pending admission comes to.
#[derive(Clone, Copy, Debug, PartialEq, Eq, Structural)]
pub enum DispatchPoll {
    /// A worker is taken; `wake_next` is the waiter to wake.
    Ready { waited: bool, wake_next: Option<u64> },
    /// The task segment waits under `waiter_id`.
    Pending { waiter_id: u64, newly_waiting: bool },
}

/// A task segment's request for a worker.
pub struct DispatchAdmission {
    waiter_id: Option<u64>,
    completed: bool,
}

impl DispatchAdmission {
    /// The number under which the request waits.
    pub closed spec fn waiter(self) -> Option<u64> {
        self.waiter_id
    }

    /// Whether the request has been granted.
    pub closed spec fn granted(self) -> bool {
        self.completed
    }

    /// Asks again for a worker. A request is granted in its turn: one that waits
    /// only at the head of the queue, a new one only when none waits.
    pub fn poll(&mut self, admission: &mut CpuAdmission) -> (result: DispatchPoll)
        requires
            old(admission)@.wf(),
            !old(self).granted(),
            old(self).waiter() matches Some(id) ==> old(admission)@.task_waiters.contains(id),
        ensures
            final(admission)@.wf(),
            ({
                let before = old(admission)@;
                let after = final(admission)@;
                let free = before.occupied < before.dispatch_capacity;
                match old(self).waiter() {
                    Some(id) => if before.task_waiters[0] == id && free {
                        &&& after == (AdmissionView {
                            occupied: before.occupied + 1,
                            task_waiters: before.task_waiters.drop_first(),
                            ..before
                        })
                        &&& result == (DispatchPoll::Ready {
                            waited: true,
                            wake_next: after.next_waiter(),
                        })
                        &&& final(self).waiter() is None
                        &&& final(self).granted()
                    } else {
                        &&& after == before
                        &&& result == (DispatchPoll::Pending {
                            waiter_id: id,
                            newly_waiting: false,
                        })
                        &&& *final(self) == *old(self)
                    },
                    None => if before.task_waiters.len() == 0 && free {
                        &&& after == (AdmissionView { occupied: before.occupied + 1, ..before })
                        &&& result == (DispatchPoll::Ready { waited: false, wake_next: None })
                        &&& final(self).waiter() is None
                        &&& final(self).granted()
                    } else {
                        &&& after == (AdmissionView {
                            next_waiter_id: before.next_waiter_id.wrapping_add(1),
                            task_waiters: before.task_waiters.push(before.next_waiter_id),
                            ..before
                        })
                        &&& result == (DispatchPoll::Pending {
                            waiter_id: before.next_waiter_id,
                            newly_waiting: true,
                        })
                        &&& final(self).waiter() == Some(before.next_waiter_id)
                        &&& !final(self).granted()
                    },
                }
            }),
    {
        match self.waiter_id {
            Some(id) => {
                if admission.task_waiters.len() > 0 && admission.task_waiters[0] == id
                    && admission.occupied < admission.dispatch_capacity {
                    let _ = admission.task_waiters.pop_front();
                    admission.occupied = admission.occupied + 1;
                    self.waiter_id = None;
                    self.completed = true;
                    let wake_next = admission.next_task_waiter();
                    assert(admission@.task_waiters =~= old(admission)@.task_waiters.drop_first());
                    DispatchPoll::Ready { waited: true, wake_next }
                } else {
                    DispatchPoll::Pending { waiter_id: id, newly_waiting: false }
                }
            },
            None => {
                if admission.task_waiters.len() == 0 && admission.occupied
                    < admission.dispatch_capacity {
                    admission.occupied = admission.occupied + 1;
                    self.completed = true;
                    DispatchPoll::Ready { waited: false, wake_next: None }
                } else {
                    let id = admission.next_waiter_id;
                    admission.next_waiter_id = id.wrapping_add(1);
                    admission.task_waiters.push_back(id);
                    self.waiter_id = Some(id);
                    DispatchPoll::Pending { waiter_id: id, newly_waiting: true }
                }
            },
        }
    }

    /// Gives the request up. A request that waits leaves the queue; where it stood
    /// at the head, the waiter to wake is returned.
    pub fn cancel(self, admission: &mut CpuAdmission) -> (wake: Option<u64>)
        requires
            old(admission)@.wf(),
        ensures
            final(admission)@.wf(),
            ({
                let before = old(admission)@;
                let after = final(admission)@;
                match self.waiter() {
                    Some(id) if !self.granted() && before.task_waiters.contains(id) => {
                        let at = first_position(before.task_waiters, id);
                        &&& after == (AdmissionView {
                            task_waiters: before.task_waiters.remove(at as int),
                            ..before
                        })
                        &&& wake == if at == 0 { after.next_waiter() } else { None }
                    },
                    _ => after == before && wake is None,
                }
            }),
    {
        if self.completed {
            return None;
        }
        match self.waiter_id {
            None => None,
            Some(id) => {
                let at = admission.position(id);
                if at >= admission.task_waiters.len() {
                    return None;
                }
                let _ = admission.task_waiters.remove(at);
                if at == 0 {
                    admission.next_task_waiter()
                } else {
                    None
                }
            },
        }
    }
}

impl View for CpuAdmission {
    type V = AdmissionView;

    closed spec fn view(&self) -> AdmissionView {
        AdmissionView {
            dispatch_capacity: self.dispatch_capacity as nat,
            relation_parallelism: self.relation_parallelism as nat,
            occupied: self.occupied as nat,
            parallel_occupied: self.parallel_occupied as nat,
            next_waiter_id: self.next_waiter_id,
            task_waiters: self.task_waiters@,
        }
    }
}

impl CpuAdmission {
    /// An admission with no worker taken.
    pub fn new(dispatch_capacity: usize, relation_parallelism: usize) -> (admission: CpuAdmission)
        requires
            dispatch_capacity > 0,
            relation_parallelism > 0,
        ensures
            admission@ == (AdmissionView {
                dispatch_capacity: dispatch_capacity as nat,
                relation_parallelism: relation_parallelism as nat,
                occupied: 0,
                parallel_occupied: 0,
                next_waiter_id: 0,
                task_waiters: Seq::empty(),
            }),
            admission@.wf(),
    {
        CpuAdmission {
            dispatch_capacity,
            relation_parallelism,
            occupied: 0,
            parallel_occupied: 0,
            next_waiter_id: 0,
            task_waiters: VecDeque::new(),
        }
    }

    /// A new request for a worker.
    pub fn acquire_dispatch(&self) -> (request: DispatchAdmission)
        ensures
            request.waiter() is None,
            !request.granted(),
    {
        DispatchAdmission { waiter_id: None, completed: false }
    }

    /// The bound on parallel relation work.
    pub fn capacity(&self) -> (capacity: usize)
        ensures
            capacity == self@.relation_parallelism,
    {
        self.relation_parallelism
    }

    /// Taken workers and waiting task segments.
    pub fn state(&self) -> (state: (usize, usize))
        ensures
            state.0 == self@.occupied,
            state.1 == self@.task_waiters.len(),
    {
        (self.occupied, self.task_waiters.len())
    }

    /// Takes workers for parallel relation work where no task segment waits and
    /// enough of them are free.
    pub fn try_reserve_parallel(&mut self, additional_workers: usize) -> (outcome:
        ParallelAdmissionOutcome)
        requires
            old(self)@.wf(),
            additional_workers > 0,
        ensures
            final(self)@.wf(),
            outcome == old(self)@.parallel_outcome(additional_workers as nat),
            final(self)@ == if outcome is Admitted {
                AdmissionView {
                    occupied: old(self)@.occupied + additional_workers as nat,
                    parallel_occupied: old(self)@.parallel_occupied + additional_workers as nat,
                    ..old(self)@
                }
            } else {
                old(self)@
            },
    {
        let relation_capacity_exhausted: bool = match self.parallel_occupied.checked_add(
            additional_workers,
        ) {
            Some(occupied) => occupied >= self.relation_parallelism,
            None => true,
        };
        let dispatch_capacity_exhausted: bool = match self.occupied.checked_add(
            additional_workers,
        ) {
            Some(occupied) => match occupied.checked_add(TASK_ADMISSION_HEADROOM) {
                Some(occupied) => occupied > self.dispatch_capacity,
                None => true,
            },
            None => true,
        };
        if self.task_waiters.len() > 0 {
            ParallelAdmissionOutcome::TaskWaiting
        } else if relation_capacity_exhausted || dispatch_capacity_exhausted {
            ParallelAdmissionOutcome::Capacity
        } else {
            self.occupied = self.occupied + additional_workers;
            self.parallel_occupied = self.parallel_occupied + additional_workers;
            ParallelAdmissionOutcome::Admitted
        }
    }

    /// Gives back workers taken by task segments and names the waiter to wake.
    pub fn release_workers(&mut self, workers: usize) -> (wake: Option<u64>)
        requires
            old(self)@.wf(),
            workers <= old(self)@.dispatched(),
        ensures
            final(self)@.wf(),
            final(self)@ == (AdmissionView {
                occupied: (old(self)@.occupied - workers) as nat,
                ..old(self)@
            }),
            wake == final(self)@.next_waiter(),
    {
        self.occupied = self.occupied - workers;
        self.next_task_waiter()
    }

    /// Gives back workers taken by parallel relation work and names the waiter to
    /// wake.
    pub fn release_parallel_workers(&mut self, workers: usize) -> (wake: Option<u64>)
        requires
            old(self)@.wf(),
            workers <= old(self)@.parallel_occupied,
        ensures
            final(self)@.wf(),
            final(self)@ == (AdmissionView {
                occupied: (old(self)@.occupied - workers) as nat,
                parallel_occupied: (old(self)@.parallel_occupied - workers) as nat,
                ..old(self)@
            }),
            wake == final(self)@.next_waiter(),
    {
        self.occupied = self.occupied - workers;
        self.parallel_occupied = self.parallel_occupied - workers;
        self.next_task_waiter()
    }

    /// The waiter that a free worker goes to.
    pub fn next_task_waiter(&self) -> (waiter: Option<u64>)
        ensures
            waiter == self@.next_waiter(),
    {
        if self.occupied < self.dispatch_capacity && self.task_waiters.len() > 0 {
            Some(self.task_waiters[0])
        } else {
            None
        }
    }

    fn position(&self, id: u64) -> (at: usize)
        ensures
            at == first_position(self@.task_waiters, id),
            at <= self@.task_waiters.len(),
            at < self@.task_waiters.len() <==> self@.task_waiters.contains(id),
            at < self@.task_waiters.len() ==> self@.task_waiters[at as int] == id,
    {
        let mut i: usize = 0;
        while i < self.task_waiters.len() && self.task_waiters[i] != id
            invariant
                i <= self@.task_waiters.len(),
                self@.task_waiters == self.task_waiters@,
                forall|j: int| 0 <= j < i ==> self@.task_waiters[j] != id,
            decreases self@.task_waiters.len() - i,
        {
            i = i + 1;
        }
        proof {
            lemma_first_position(self@.task_waiters, id, i as int);
        }
        i
    }
}

/// A parallel reservation is granted only when no task segment waits, and leaves a
/// worker free for one.
pub proof fn law_parallel_work_yields_to_tasks(before: AdmissionView, workers: nat)
    requires
        before.wf(),
        before.parallel_outcome(workers) is Admitted,
    ensures
        before.task_waiters.len() == 0,
        before.occupied + workers < before.dispatch_capacity,
        before.parallel_occupied + workers < before.relation_parallelism,
{
}

/// Whatever is free, a reservation asked for while a task segment waits is refused.
pub proof fn law_waiting_task_blocks_parallel_work(before: AdmissionView, workers: nat)
    requires
        before.task_waiters.len() > 0,
    ensures
        before.parallel_outcome(workers) is TaskWaiting,
{
}

} // verus!
