//! Which tasks are active, suspended or over.

use crate::driver::facts::lemma_push_to_set;
use crate::driver::types::{TaskContext, TaskId};
use crate::value::Identity;
use std::collections::{BTreeMap, HashMap, HashSet, VecDeque};
use vstd::prelude::*;
use vstd::std_specs::cmp::OrdSpec;
use vstd::std_specs::iter::IteratorSpec;

verus! {

broadcast use {
    vstd::std_specs::hash::group_hash_axioms,
    vstd::std_specs::btree::group_btree_axioms,
    vstd::laws_cmp::group_laws_cmp,
};

/// How a task ended.
#[derive(Clone, Copy, Debug, PartialEq, Eq, Structural)]
pub enum TerminalTaskKind {
    Completed,
    Aborted,
    Cancelled,
    Failed,
}

/// How many tasks the driver keeps track of.
#[derive(Clone, Copy, Debug, PartialEq, Eq, Structural)]
pub struct TaskCapacities {
    pub active_task_capacity: usize,
    pub suspended_task_capacity: usize,
    pub terminal_task_retention: usize,
}

/// The tasks that the driver keeps track of.
#[derive(Debug)]
pub struct TaskTable {
    contexts: BTreeMap<TaskId, TaskContext>,
    active: HashSet<TaskId>,
    terminal: HashMap<TaskId, TerminalTaskKind>,
    terminal_order: VecDeque<TaskId>,
    limits: TaskCapacities,
}

/// The tasks that the driver keeps track of: the contexts of suspended tasks, active
/// tasks, and how the most recent terminal tasks ended, oldest first.
pub struct TaskTableView {
    pub contexts: Map<TaskId, TaskContext>,
    pub active: Set<TaskId>,
    pub terminal: Map<TaskId, TerminalTaskKind>,
    pub terminal_order: Seq<TaskId>,
    pub limits: TaskCapacities,
}

impl TaskTableView {
    /// What every operation keeps.
    pub open spec fn wf(self) -> bool {
        &&& self.limits.terminal_task_retention > 0
        &&& self.contexts.dom().finite()
        &&& self.active.finite()
        &&& self.active.len() <= self.limits.active_task_capacity
        &&& self.contexts.dom().len() <= self.limits.suspended_task_capacity
        &&& self.terminal_order.no_duplicates()
        &&& self.terminal_order.to_set() == self.terminal.dom()
        &&& self.terminal_order.len() <= self.limits.terminal_task_retention
    }

    /// The state after a task ended. The record of the oldest ended task goes when
    /// there would be too many.
    pub open spec fn ended(self, task: TaskId, kind: TerminalTaskKind) -> TaskTableView {
        let order = if self.terminal.contains_key(task) {
            self.terminal_order
        } else {
            self.terminal_order.push(task)
        };
        let terminal = self.terminal.insert(task, kind);
        let full = order.len() > self.limits.terminal_task_retention;
        TaskTableView {
            contexts: self.contexts.remove(task),
            active: self.active.remove(task),
            terminal: if full {
                terminal.remove(order[0])
            } else {
                terminal
            },
            terminal_order: if full {
                order.drop_first()
            } else {
                order
            },
            limits: self.limits,
        }
    }

    /// Whether the task is on record as cancelled.
    pub open spec fn was_cancelled(self, task: TaskId) -> bool {
        self.terminal.contains_key(task) && self.terminal[task] is Cancelled
    }
}

impl View for TaskTable {
    type V = TaskTableView;

    closed spec fn view(&self) -> TaskTableView {
        TaskTableView {
            contexts: self.contexts@,
            active: self.active@,
            terminal: self.terminal@,
            terminal_order: self.terminal_order@,
            limits: self.limits,
        }
    }
}

proof fn lemma_drop_first_to_set(s: Seq<TaskId>)
    requires
        s.no_duplicates(),
        s.len() > 0,
    ensures
        s.drop_first().to_set() == s.to_set().remove(s[0]),
        s.drop_first().no_duplicates(),
{
    let rest = s.drop_first();
    assert forall|x: TaskId| #[trigger] rest.to_set().contains(x) <==> s.to_set().remove(
        s[0],
    ).contains(x) by {
        if rest.contains(x) {
            let i = choose|i: int| 0 <= i < rest.len() && rest[i] == x;
            assert(s[i + 1] == x);
        }
        if s.contains(x) && x != s[0] {
            let i = choose|i: int| 0 <= i < s.len() && s[i] == x;
            assert(rest[i - 1] == x);
        }
    }
    assert(rest.to_set() =~= s.to_set().remove(s[0]));
}

/// Ending a task keeps the table in order.
pub proof fn lemma_ended_wf(tasks: TaskTableView, task: TaskId, kind: TerminalTaskKind)
    requires
        tasks.wf(),
    ensures
        tasks.ended(task, kind).wf(),
{
    let order = if tasks.terminal.contains_key(task) {
        tasks.terminal_order
    } else {
        tasks.terminal_order.push(task)
    };
    let terminal = tasks.terminal.insert(task, kind);
    assert(tasks.terminal_order.contains(task) <==> tasks.terminal.contains_key(task)) by {
        assert(tasks.terminal_order.to_set().contains(task) <==> tasks.terminal.dom().contains(task));
    }
    lemma_push_to_set(tasks.terminal_order, task);
    assert(order.to_set() =~= terminal.dom());
    assert(order.no_duplicates());
    if order.len() > tasks.limits.terminal_task_retention {
        lemma_drop_first_to_set(order);
        assert(terminal.remove(order[0]).dom() =~= order.drop_first().to_set());
    }
}

proof fn lemma_increasing(keys: Seq<TaskId>)
    requires
        vstd::std_specs::btree::increasing_seq(keys),
    ensures
        forall|i: int, j: int| 0 <= i < j < keys.len() ==> keys[i] < keys[j],
{
    assert forall|i: int, j: int| 0 <= i < j < keys.len() implies keys[i] < keys[j] by {
        assert(keys[i].cmp_spec(&keys[j]) is Less);
    }
}

impl TaskTable {
    /// No tasks.
    pub fn new(limits: TaskCapacities) -> (tasks: TaskTable)
        requires
            limits.terminal_task_retention > 0,
        ensures
            tasks@ == (TaskTableView {
                contexts: Map::empty(),
                active: Set::empty(),
                terminal: Map::empty(),
                terminal_order: Seq::empty(),
                limits,
            }),
            tasks@.wf(),
    {
        let tasks = TaskTable {
            contexts: BTreeMap::new(),
            active: HashSet::new(),
            terminal: HashMap::new(),
            terminal_order: VecDeque::new(),
            limits,
        };
        assert(tasks@.terminal_order.to_set() =~= tasks@.terminal.dom());
        tasks
    }

    /// Admits a task as active, unless too many are.
    pub fn admit_active_task(&mut self, task: TaskId) -> (admitted: bool)
        requires
            old(self)@.wf(),
        ensures
            final(self)@.wf(),
            admitted == (old(self)@.active.contains(task) || old(self)@.active.len()
                < old(self)@.limits.active_task_capacity),
            final(self)@ == if admitted {
                TaskTableView { active: old(self)@.active.insert(task), ..old(self)@ }
            } else {
                old(self)@
            },
    {
        if self.active.contains(&task) {
            assert(self@.active =~= self@.active.insert(task));
            return true;
        }
        if self.active.len() >= self.limits.active_task_capacity {
            return false;
        }
        let _ = self.active.insert(task);
        true
    }

    /// Notes that a task ended.
    pub fn record_terminal_task(&mut self, task: TaskId, kind: TerminalTaskKind)
        requires
            old(self)@.wf(),
        ensures
            final(self)@ == old(self)@.ended(task, kind),
            final(self)@.wf(),
    {
        proof {
            lemma_ended_wf(self@, task, kind);
        }
        let _ = self.active.remove(&task);
        let _ = self.contexts.remove(&task);
        let known: bool = self.terminal.contains_key(&task);
        let _ = self.terminal.insert(task, kind);
        if !known {
            self.terminal_order.push_back(task);
        }
        if self.terminal_order.len() > self.limits.terminal_task_retention {
            match self.terminal_order.pop_front() {
                Some(expired) => {
                    let _ = self.terminal.remove(&expired);
                },
                None => {},
            }
        }
        proof {
            let want = old(self)@.ended(task, kind);
            assert(self@.contexts =~= want.contexts);
            assert(self@.active =~= want.active);
            assert(self@.terminal =~= want.terminal);
            assert(self@.terminal_order =~= want.terminal_order);
        }
    }

    /// The context of a suspended task.
    pub fn context(&self, task: TaskId) -> (context: Option<TaskContext>)
        ensures
            context == if self@.contexts.contains_key(task) {
                Some(self@.contexts[task])
            } else {
                None
            },
    {
        match self.contexts.get(&task) {
            Some(context) => Some(*context),
            None => None,
        }
    }

    /// Suspends a task, unless too many are.
    pub fn suspend(&mut self, task: TaskId, context: TaskContext) -> (suspended: bool)
        requires
            old(self)@.wf(),
        ensures
            final(self)@.wf(),
            suspended == (old(self)@.contexts.dom().len()
                < old(self)@.limits.suspended_task_capacity),
            final(self)@ == if suspended {
                TaskTableView { contexts: old(self)@.contexts.insert(task, context), ..old(self)@ }
            } else {
                old(self)@
            },
    {
        if self.contexts.len() >= self.limits.suspended_task_capacity {
            return false;
        }
        let _ = self.contexts.insert(task, context);
        true
    }

    /// Takes the context of a suspended task.
    pub fn take_context(&mut self, task: TaskId) -> (context: Option<TaskContext>)
        requires
            old(self)@.wf(),
        ensures
            final(self)@.wf(),
            context == if old(self)@.contexts.contains_key(task) {
                Some(old(self)@.contexts[task])
            } else {
                None
            },
            final(self)@ == (TaskTableView {
                contexts: old(self)@.contexts.remove(task),
                ..old(self)@
            }),
    {
        let taken = self.contexts.remove(&task);
        assert(self@.contexts =~= old(self)@.contexts.remove(task));
        taken
    }

    /// Whether the task is on record as cancelled.
    pub fn was_cancelled(&self, task: TaskId) -> (result: bool)
        ensures
            result == self@.was_cancelled(task),
    {
        match self.terminal.get(&task) {
            Some(kind) => matches!(kind, TerminalTaskKind::Cancelled),
            None => false,
        }
    }

    /// Whether the task is on record as ended.
    pub fn has_ended(&self, task: TaskId) -> (result: bool)
        ensures
            result == self@.terminal.contains_key(task),
    {
        self.terminal.contains_key(&task)
    }

    /// Active, suspended and ended tasks on record.
    pub fn counts(&self) -> (counts: (usize, usize, usize))
        requires
            self@.wf(),
        ensures
            counts.0 == self@.active.len(),
            counts.1 == self@.contexts.dom().len(),
            counts.2 == self@.terminal.dom().len(),
    {
        (self.active.len(), self.contexts.len(), self.terminal.len())
    }

    /// The suspended tasks, in the order of their numbers; of one endpoint where one
    /// is given.
    pub fn suspended_tasks(&self, endpoint: Option<Identity>) -> (tasks: Vec<TaskId>)
        ensures
            forall|i: int, j: int| 0 <= i < j < tasks@.len() ==> tasks@[i] < tasks@[j],
            forall|task: TaskId| #[trigger]
                tasks@.contains(task) <==> self@.contexts.contains_key(task) && (
                endpoint matches Some(at) ==> self@.contexts[task].endpoint@ == at@),
    {
        let listed = self.contexts.iter();
        let ghost all = listed.remaining();
        let ghost keys = all.map_values(|kv: (&TaskId, &TaskContext)| *kv.0);
        let mut pairs: Vec<(TaskId, TaskContext)> = Vec::new();
        for entry in iter: listed
            invariant
                iter.seq() == all,
                pairs@.len() == iter.index(),
                forall|k: int|
                    0 <= k < pairs@.len() ==> (#[trigger] pairs@[k]).0 == *all[k].0 && pairs@[k].1
                        == *all[k].1,
        {
            pairs.push((*entry.0, *entry.1));
        }
        proof {
            assert forall|a: int, b: int| 0 <= a < b < pairs@.len() implies (#[trigger] pairs@[a]).0 < (
            #[trigger] pairs@[b]).0 by {
                lemma_increasing(keys);
                assert(keys[a] < keys[b]);
            }
            assert forall|task: TaskId| self@.contexts.contains_key(task) <==> exists|k: int|
                0 <= k < pairs@.len() && (#[trigger] pairs@[k]).0 == task by {
                if self@.contexts.contains_key(task) {
                    let want = (&task, &self.contexts@[task]);
                    assert(all.contains(want));
                    let k = choose|k: int| 0 <= k < all.len() && all[k] == want;
                    assert(pairs@[k].0 == task);
                }
            }
        }
        let mut tasks: Vec<TaskId> = Vec::new();
        let mut n: usize = 0;
        while n < pairs.len()
            invariant
                n <= pairs@.len(),
                forall|a: int, b: int|
                    0 <= a < b < pairs@.len() ==> (#[trigger] pairs@[a]).0 < (#[trigger] pairs@[b]).0,
                forall|i: int, j: int| 0 <= i < j < tasks@.len() ==> tasks@[i] < tasks@[j],
                forall|i: int, k: int|
                    0 <= i < tasks@.len() && n <= k < pairs@.len() ==> #[trigger] tasks@[i] < (
                    #[trigger] pairs@[k]).0,
                forall|task: TaskId| #[trigger]
                    tasks@.contains(task) <==> exists|k: int|
                        0 <= k < n && (#[trigger] pairs@[k]).0 == task && (
                        endpoint matches Some(at) ==> pairs@[k].1.endpoint@ == at@),
            decreases pairs@.len() - n,
        {
            let ghost before = tasks@;
            let pair = pairs[n];
            let wanted: bool = match endpoint {
                Some(at) => pair.1.endpoint.same(&at),
                None => true,
            };
            if wanted {
                tasks.push(pair.0);
            }
            n = n + 1;
            assert forall|task: TaskId| #[trigger]
                tasks@.contains(task) <==> exists|k: int|
                    0 <= k < n && (#[trigger] pairs@[k]).0 == task && (
                    endpoint matches Some(at) ==> pairs@[k].1.endpoint@ == at@) by {
                if before.contains(task) {
                    let i = choose|i: int| 0 <= i < before.len() && before[i] == task;
                    assert(tasks@[i] == task);
                    let k = choose|k: int|
                        0 <= k < n - 1 && (#[trigger] pairs@[k]).0 == task && (
                        endpoint matches Some(at) ==> pairs@[k].1.endpoint@ == at@);
                    assert(pairs@[k].0 == task);
                }
                if wanted {
                    assert(tasks@[before.len() as int] == pair.0);
                    assert(pairs@[n - 1].0 == pair.0);
                }
                if tasks@.contains(task) && !before.contains(task) {
                    let i = choose|i: int| 0 <= i < tasks@.len() && tasks@[i] == task;
                    if i < before.len() {
                        assert(before[i] == task);
                    }
                    assert(pairs@[n - 1].0 == task);
                }
            }
        }
        assert forall|task: TaskId| #[trigger]
            tasks@.contains(task) <==> self@.contexts.contains_key(task) && (
            endpoint matches Some(at) ==> self@.contexts[task].endpoint@ == at@) by {
            assert forall|k: int| 0 <= k < pairs@.len() implies self@.contexts[(
            #[trigger] pairs@[k]).0] == pairs@[k].1 by {
                assert(self.contexts@.contains_key(*all[k].0));
            }
        }
        tasks
    }
}

} // verus!
