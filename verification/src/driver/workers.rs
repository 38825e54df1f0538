//! Workers that run beside the dispatcher.

use crate::driver::types::TaskId;
use crate::table::{entry_keys, entry_map, lemma_entry_map, Keyed, Table};
use vstd::prelude::*;

verus! {

/// What a worker is for.
#[derive(Clone, Copy, Debug, PartialEq, Eq, Structural)]
pub struct AsyncWorker {
    pub task_id: TaskId,
    pub timer: bool,
    pub external: bool,
}

/// The workers that run beside the dispatcher.
#[derive(Debug)]
pub struct WorkerTable {
    workers: Table<u64, AsyncWorker>,
    next_worker_id: u64,
    timer_capacity: usize,
}

/// The workers by number, the number of the next one, and how many timers may run.
pub struct WorkerTableView {
    pub workers: Map<u64, AsyncWorker>,
    pub next_worker_id: u64,
    pub timer_capacity: nat,
}

/// The numbers of the workers that are timers.
pub open spec fn timers(workers: Map<u64, AsyncWorker>) -> Set<u64> {
    workers.dom().filter(|id: u64| workers[id].timer)
}

/// The number after `id`, never zero.
pub open spec fn following(id: u64) -> u64 {
    if id == u64::MAX {
        1
    } else {
        (id + 1) as u64
    }
}

impl View for WorkerTable {
    type V = WorkerTableView;

    closed spec fn view(&self) -> WorkerTableView {
        WorkerTableView {
            workers: self.workers@,
            next_worker_id: self.next_worker_id,
            timer_capacity: self.timer_capacity as nat,
        }
    }
}

impl WorkerTableView {
    /// Whether a worker is taken on: the driver runs, and a timer finds room.
    pub open spec fn takes_on(self, worker: AsyncWorker, running: bool) -> bool {
        running && !(worker.timer && timers(self.workers).len() >= self.timer_capacity)
    }
}

impl WorkerTable {
    /// No workers.
    pub fn new(timer_capacity: usize) -> (table: WorkerTable)
        ensures
            table@ == (WorkerTableView {
                workers: Map::empty(),
                next_worker_id: 1,
                timer_capacity: timer_capacity as nat,
            }),
    {
        WorkerTable { workers: Table::new(), next_worker_id: 1, timer_capacity }
    }

    /// The number of workers, and of timers among them.
    pub fn counts(&self) -> (counts: (usize, usize))
        ensures
            counts.0 == self@.workers.dom().len(),
            counts.1 == timers(self@.workers).len(),
            timers(self@.workers).finite(),
    {
        let entries = self.workers.entries();
        let ghost keys = entry_keys(entries@);
        proof {
            lemma_entry_map(entries@);
        }
        let mut count: usize = 0;
        let mut i: usize = 0;
        let ghost mut seen: Set<u64> = Set::empty();
        while i < entries.len()
            invariant
                i <= entries@.len(),
                count <= i,
                keys == entry_keys(entries@),
                keys.no_duplicates(),
                seen.finite(),
                seen.len() == count,
                forall|id: u64| #[trigger]
                    seen.contains(id) <==> exists|j: int|
                        0 <= j < i && (#[trigger] entries@[j]).0 == id && entries@[j].1.timer,
            decreases entries@.len() - i,
        {
            let ghost before = seen;
            let entry = &entries[i];
            if entry.1.timer {
                count = count + 1;
                proof {
                    seen = seen.insert(entry.0);
                    assert(!before.contains(entry.0)) by {
                        if before.contains(entry.0) {
                            let j = choose|j: int|
                                0 <= j < i && (#[trigger] entries@[j]).0 == entry.0
                                    && entries@[j].1.timer;
                            assert(keys[j] == keys[i as int]);
                        }
                    }
                }
            }
            i = i + 1;
            assert forall|id: u64| #[trigger]
                seen.contains(id) <==> exists|j: int|
                    0 <= j < i && (#[trigger] entries@[j]).0 == id && entries@[j].1.timer by {
                if before.contains(id) {
                    let j = choose|j: int|
                        0 <= j < i - 1 && (#[trigger] entries@[j]).0 == id && entries@[j].1.timer;
                    assert(entries@[j].0 == id);
                }
                if seen.contains(id) && !before.contains(id) {
                    assert(entries@[i - 1].0 == id);
                }
            }
        }
        proof {
            assert forall|id: u64| #[trigger] timers(self@.workers).contains(id) <==> seen.contains(
                id,
            ) by {
                if timers(self@.workers).contains(id) {
                    let j = choose|j: int| 0 <= j < entries@.len() && (#[trigger] entries@[j]).0@ == id;
                    assert(entries@[j].0 == id);
                }
                if seen.contains(id) {
                    let j = choose|j: int|
                        0 <= j < i && (#[trigger] entries@[j]).0 == id && entries@[j].1.timer;
                    assert(entry_map(entries@).contains_key(entries@[j].0@));
                }
            }
            assert(timers(self@.workers) =~= seen);
        }
        (self.workers.len(), count)
    }

    /// Takes a worker on under a new number, unless the driver no longer runs or too
    /// many timers do.
    pub fn track(&mut self, worker: AsyncWorker, running: bool) -> (id: Option<u64>)
        ensures
            id == if old(self)@.takes_on(worker, running) {
                Some(old(self)@.next_worker_id)
            } else {
                None
            },
            final(self)@ == if id is Some {
                WorkerTableView {
                    workers: old(self)@.workers.insert(old(self)@.next_worker_id, worker),
                    next_worker_id: following(old(self)@.next_worker_id),
                    ..old(self)@
                }
            } else {
                old(self)@
            },
    {
        let (_, running_timers) = self.counts();
        if !running || (worker.timer && running_timers >= self.timer_capacity) {
            return None;
        }
        let id: u64 = self.next_worker_id;
        self.next_worker_id = if id == u64::MAX {
            1
        } else {
            id + 1
        };
        let _ = self.workers.insert(id, worker);
        Some(id)
    }

    /// Forgets workers that are finished.
    pub fn reap(&mut self, finished: &[u64])
        ensures
            final(self)@ == (WorkerTableView {
                workers: old(self)@.workers.remove_keys(finished@.to_set()),
                ..old(self)@
            }),
    {
        let mut i: usize = 0;
        let ghost start = self@.workers;
        assert(start.remove_keys(finished@.take(0).to_set()) =~= start);
        while i < finished.len()
            invariant
                i <= finished@.len(),
                self@.workers == start.remove_keys(finished@.take(i as int).to_set()),
                self@.next_worker_id == old(self)@.next_worker_id,
                self@.timer_capacity == old(self)@.timer_capacity,
            decreases finished@.len() - i,
        {
            let _ = self.workers.remove(&finished[i]);
            i = i + 1;
            proof {
                assert(finished@.take(i as int) =~= finished@.take(i - 1).push(finished@[i - 1]));
                crate::driver::facts::lemma_push_to_set(finished@.take(i - 1), finished@[i - 1]);
                assert(self@.workers =~= start.remove_keys(finished@.take(i as int).to_set()));
            }
        }
        assert(finished@.take(i as int) =~= finished@);
    }

    /// Forgets the workers of a task, and hands back their numbers.
    pub fn take_task_workers(&mut self, task: TaskId) -> (ids: Vec<u64>)
        ensures
            ids@.no_duplicates(),
            forall|id: u64| #[trigger]
                ids@.contains(id) <==> old(self)@.workers.contains_key(id)
                    && old(self)@.workers[id].task_id == task,
            final(self)@ == (WorkerTableView {
                workers: old(self)@.workers.remove_keys(ids@.to_set()),
                ..old(self)@
            }),
    {
        let entries = self.workers.entries();
        let ghost keys = entry_keys(entries@);
        let mut ids: Vec<u64> = Vec::new();
        let mut i: usize = 0;
        while i < entries.len()
            invariant
                i <= entries@.len(),
                keys == entry_keys(entries@),
                keys.no_duplicates(),
                ids@.no_duplicates(),
                forall|id: u64| #[trigger]
                    ids@.contains(id) <==> exists|j: int|
                        0 <= j < i && (#[trigger] entries@[j]).0 == id && entries@[j].1.task_id == task,
            decreases entries@.len() - i,
        {
            let ghost before = ids@;
            let entry = &entries[i];
            if entry.1.task_id == task {
                proof {
                    if before.contains(entry.0) {
                        let j = choose|j: int|
                            0 <= j < i && (#[trigger] entries@[j]).0 == entry.0
                                && entries@[j].1.task_id == task;
                        assert(keys[j] == keys[i as int]);
                    }
                }
                ids.push(entry.0);
            }
            i = i + 1;
            assert forall|id: u64| #[trigger]
                ids@.contains(id) <==> exists|j: int|
                    0 <= j < i && (#[trigger] entries@[j]).0 == id && entries@[j].1.task_id == task by {
                if before.contains(id) {
                    let k = choose|k: int| 0 <= k < before.len() && before[k] == id;
                    assert(ids@[k] == id);
                    let j = choose|j: int|
                        0 <= j < i - 1 && (#[trigger] entries@[j]).0 == id && entries@[j].1.task_id
                            == task;
                    assert(entries@[j].0 == id);
                }
                if entries@[i - 1].1.task_id == task {
                    assert(ids@[before.len() as int] == entries@[i - 1].0);
                }
                if ids@.contains(id) && !before.contains(id) {
                    let k = choose|k: int| 0 <= k < ids@.len() && ids@[k] == id;
                    if k < before.len() {
                        assert(before[k] == id);
                    }
                    assert(entries@[i - 1].0 == id);
                }
            }
        }
        proof {
            lemma_entry_map(entries@);
            assert forall|id: u64| #[trigger]
                ids@.contains(id) <==> self@.workers.contains_key(id) && self@.workers[id].task_id
                    == task by {
                if ids@.contains(id) {
                    let j = choose|j: int|
                        0 <= j < i && (#[trigger] entries@[j]).0 == id && entries@[j].1.task_id == task;
                    assert(entry_map(entries@).contains_key(entries@[j].0@));
                }
                if self@.workers.contains_key(id) && self@.workers[id].task_id == task {
                    let j = choose|j: int| 0 <= j < entries@.len() && (#[trigger] entries@[j]).0@ == id;
                    assert(entries@[j].0 == id);
                }
            }
        }
        self.reap(&ids);
        ids
    }

    /// Forgets every worker, and hands back their numbers.
    pub fn drain(&mut self) -> (ids: Vec<u64>)
        ensures
            ids@.no_duplicates(),
            ids@.to_set() == old(self)@.workers.dom(),
            final(self)@ == (WorkerTableView { workers: Map::empty(), ..old(self)@ }),
    {
        let entries = self.workers.entries();
        let mut ids: Vec<u64> = Vec::new();
        let mut i: usize = 0;
        while i < entries.len()
            invariant
                i <= entries@.len(),
                ids@ == entry_keys(entries@).take(i as int),
            decreases entries@.len() - i,
        {
            ids.push(entries[i].0);
            i = i + 1;
            assert(ids@ =~= entry_keys(entries@).take(i as int));
        }
        proof {
            assert(entry_keys(entries@).take(i as int) =~= entry_keys(entries@));
            assert(ids@.to_set() =~= self@.workers.dom());
        }
        self.workers = Table::new();
        ids
    }
}

} // verus!
