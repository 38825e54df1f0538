//! Tasks that wait for input or for a message.

use crate::driver::types::TaskId;
use crate::table::{entry_keys, entry_map, lemma_entry_map, Keyed, Table};
use crate::value::{copy_value, Value, ValueView};
use vstd::prelude::*;

verus! {

/// Something that waits on behalf of a task.
pub trait Waiter: View + Sized {
    /// The task that waits.
    spec fn task_of(waiter: Self::V) -> TaskId;

    /// The task that waits.
    fn task(&self) -> (task: TaskId)
        ensures
            task == Self::task_of(self@),
    ;
}

impl Waiter for u64 {
    open spec fn task_of(waiter: u64) -> TaskId {
        waiter
    }

    fn task(&self) -> (task: TaskId) {
        *self
    }
}

/// A task that waits for a message in any of several mailboxes.
#[derive(Debug)]
pub struct MailboxWaiter {
    pub task_id: TaskId,
    pub receivers: Vec<(u64, Value)>,
}

/// Receivers by the numbers of their mailboxes.
pub open spec fn receiver_views(receivers: Seq<(u64, Value)>) -> Seq<(u64, ValueView)> {
    receivers.map_values(|receiver: (u64, Value)| (receiver.0, receiver.1@))
}

/// A task that waits for a message, and where.
pub struct MailboxWaiterView {
    pub task_id: TaskId,
    pub receivers: Seq<(u64, ValueView)>,
}

impl View for MailboxWaiter {
    type V = MailboxWaiterView;

    open spec fn view(&self) -> MailboxWaiterView {
        MailboxWaiterView { task_id: self.task_id, receivers: receiver_views(self.receivers@) }
    }
}

impl Waiter for MailboxWaiter {
    open spec fn task_of(waiter: MailboxWaiterView) -> TaskId {
        waiter.task_id
    }

    fn task(&self) -> (task: TaskId) {
        self.task_id
    }
}

/// A copy of receivers.
pub fn copy_receivers(receivers: &[(u64, Value)]) -> (copy: Vec<(u64, Value)>)
    ensures
        receiver_views(copy@) == receiver_views(receivers@),
        copy@.len() == receivers@.len(),
{
    let mut copy: Vec<(u64, Value)> = Vec::new();
    let mut i: usize = 0;
    while i < receivers.len()
        invariant
            i <= receivers@.len(),
            copy@.len() == i,
            forall|j: int|
                0 <= j < i ==> (#[trigger] copy@[j]).0 == receivers@[j].0 && copy@[j].1@
                    == receivers@[j].1@,
        decreases receivers@.len() - i,
    {
        copy.push((receivers[i].0, copy_value(&receivers[i].1)));
        i = i + 1;
    }
    assert(receiver_views(copy@) =~= receiver_views(receivers@));
    copy
}

/// The views of what waits.
pub open spec fn waiter_views<W: Waiter>(waiters: Seq<W>) -> Seq<W::V> {
    waiters.map_values(|waiter: W| waiter@)
}

/// Lists of what waits, each at its place.
#[derive(Debug)]
pub struct WaitLists<W: Waiter> {
    lists: Table<u64, Vec<W>>,
}

impl<W: Waiter> View for WaitLists<W> {
    type V = Map<u64, Seq<W::V>>;

    closed spec fn view(&self) -> Map<u64, Seq<W::V>> {
        self.lists@.map_values(|waiters: Vec<W>| waiter_views(waiters@))
    }
}

/// What waits at a place.
pub open spec fn waiting_at<W: Waiter>(lists: Map<u64, Seq<W::V>>, place: u64) -> Seq<W::V> {
    if lists.contains_key(place) {
        lists[place]
    } else {
        Seq::empty()
    }
}

/// What waits for tasks other than `task`.
pub open spec fn others<W: Waiter>(waiters: Seq<W::V>, task: TaskId) -> Seq<W::V> {
    waiters.filter(|waiter: W::V| W::task_of(waiter) != task)
}

/// The lists without what waits for `task`, places where nothing waits left out.
pub open spec fn without_task<W: Waiter>(lists: Map<u64, Seq<W::V>>, task: TaskId) -> Map<
    u64,
    Seq<W::V>,
> {
    Map::new(
        |place: u64| lists.contains_key(place) && others::<W>(lists[place], task).len() > 0,
        |place: u64| others::<W>(lists[place], task),
    )
}

/// Whether something waits for `task` at some place.
pub open spec fn waits_anywhere<W: Waiter>(lists: Map<u64, Seq<W::V>>, task: TaskId) -> bool {
    exists|place: u64, i: int|
        #![trigger lists[place][i]]
        lists.contains_key(place) && 0 <= i < lists[place].len() && W::task_of(lists[place][i]) == task
}

fn keep_others<W: Waiter>(waiters: Vec<W>, task: TaskId) -> (kept: Vec<W>)
    ensures
        waiter_views(kept@) == others::<W>(waiter_views(waiters@), task),
{
    let ghost all = waiter_views(waiters@);
    let mut waiters = waiters;
    let mut kept: Vec<W> = Vec::new();
    let ghost whole = waiters@;
    let len: usize = waiters.len();
    let mut n: usize = 0;
    proof {
        reveal(Seq::filter);
        assert(all.take(0) =~= Seq::empty());
        assert(waiter_views(kept@) =~= others::<W>(all.take(0), task));
        assert(waiters@ =~= whole.skip(0));
    }
    while n < len
        invariant
            n <= len == whole.len(),
            all == waiter_views(whole),
            waiters@ == whole.skip(n as int),
            waiter_views(kept@) == others::<W>(all.take(n as int), task),
        decreases len - n,
    {
        let ghost before = kept@;
        let waiter = waiters.remove(0);
        proof {
            reveal(Seq::filter);
            assert(all.take(n + 1).drop_last() =~= all.take(n as int));
            assert(all.take(n + 1).last() == waiter@);
            assert(waiters@ =~= whole.skip(n + 1));
        }
        if waiter.task() != task {
            let ghost said = waiter@;
            kept.push(waiter);
            assert(waiter_views(kept@) =~= waiter_views(before).push(said));
        }
        n = n + 1;
    }
    assert(all.take(n as int) =~= all);
    kept
}

impl<W: Waiter> WaitLists<W> {
    /// Nothing waits.
    pub fn new() -> (lists: WaitLists<W>)
        ensures
            lists@ == Map::<u64, Seq<W::V>>::empty(),
    {
        let lists = WaitLists { lists: Table::new() };
        assert(lists@ =~= Map::<u64, Seq<W::V>>::empty());
        lists
    }

    /// Lets something wait at a place, behind what waits there.
    pub fn push(&mut self, place: u64, waiter: W)
        ensures
            final(self)@ == old(self)@.insert(
                place,
                waiting_at::<W>(old(self)@, place).push(waiter@),
            ),
    {
        let ghost said = waiter@;
        let mut waiters: Vec<W> = match self.lists.remove(&place) {
            Some(waiters) => waiters,
            None => Vec::new(),
        };
        assert(waiter_views(waiters@) =~= waiting_at::<W>(old(self)@, place));
        let ghost before = waiters@;
        waiters.push(waiter);
        assert(waiter_views(waiters@) =~= waiter_views(before).push(said));
        let _ = self.lists.insert(place, waiters);
        assert(self@ =~= old(self)@.insert(
            place,
            waiting_at::<W>(old(self)@, place).push(said),
        ));
    }

    /// Takes what waits at a place.
    pub fn take(&mut self, place: u64) -> (waiters: Vec<W>)
        ensures
            waiter_views(waiters@) == waiting_at::<W>(old(self)@, place),
            final(self)@ == old(self)@.remove(place),
    {
        let waiters: Vec<W> = match self.lists.remove(&place) {
            Some(waiters) => waiters,
            None => Vec::new(),
        };
        assert(waiter_views(waiters@) =~= waiting_at::<W>(old(self)@, place));
        assert(self@ =~= old(self)@.remove(place));
        waiters
    }

    /// Removes what waits for a task, wherever it waits.
    pub fn remove_task(&mut self, task: TaskId)
        ensures
            final(self)@ == without_task::<W>(old(self)@, task),
    {
        let ghost start = self@;
        let mut rest: Table<u64, Vec<W>> = Table::new();
        std::mem::swap(&mut rest, &mut self.lists);
        let ghost whole = rest@;
        let mut places: Vec<u64> = Vec::new();
        let entries = rest.entries();
        let mut i: usize = 0;
        while i < entries.len()
            invariant
                i <= entries@.len(),
                places@ == entry_keys(entries@).take(i as int),
            decreases entries@.len() - i,
        {
            places.push(entries[i].0);
            i = i + 1;
            assert(places@ =~= entry_keys(entries@).take(i as int));
        }
        proof {
            assert(entry_keys(entries@).take(i as int) =~= entry_keys(entries@));
            lemma_entry_map(entries@);
            assert(whole.dom() =~= places@.to_set());
        }
        let mut kept: Table<u64, Vec<W>> = Table::new();
        let mut n: usize = 0;
        while n < places.len()
            invariant
                n <= places@.len(),
                places@.no_duplicates(),
                forall|p: u64| #[trigger] places@.contains(p) <==> whole.contains_key(p),
                forall|p: u64| #[trigger]
                    rest@.contains_key(p) <==> whole.contains_key(p) && !places@.take(
                        n as int,
                    ).contains(p),
                forall|p: u64| #[trigger] rest@.contains_key(p) ==> rest@[p] == whole[p],
                forall|p: u64| #[trigger]
                    kept@.contains_key(p) <==> places@.take(n as int).contains(p) && others::<W>(
                        waiter_views(whole[p]@),
                        task,
                    ).len() > 0,
                forall|p: u64| #[trigger]
                    kept@.contains_key(p) ==> waiter_views(kept@[p]@) == others::<W>(
                        waiter_views(whole[p]@),
                        task,
                    ),
            decreases places@.len() - n,
        {
            let place: u64 = places[n];
            let ghost old_rest = rest@;
            let ghost old_kept = kept@;
            proof {
                assert(places@.contains(place));
                assert(!places@.take(n as int).contains(place));
                assert(places@.take(n + 1) =~= places@.take(n as int).push(place));
                assert forall|p: u64| #[trigger]
                    places@.take(n + 1).contains(p) <==> places@.take(n as int).contains(p) || p
                        == place by {
                    let short = places@.take(n as int);
                    if short.contains(p) {
                        let k = choose|k: int| 0 <= k < short.len() && short[k] == p;
                        assert(places@.take(n + 1)[k] == p);
                    }
                    if p == place {
                        assert(places@.take(n + 1)[n as int] == p);
                    }
                }
            }
            match rest.remove(&place) {
                Some(waiters) => {
                    let others_here = keep_others(waiters, task);
                    if others_here.len() > 0 {
                        let _ = kept.insert(place, others_here);
                    } else {
                        assert(waiter_views(others_here@).len() == 0);
                    }
                },
                None => {
                    assert(false);
                },
            }
            n = n + 1;
        }
        self.lists = kept;
        proof {
            assert(places@.take(n as int) =~= places@);
            assert forall|p: u64| #[trigger] self@.contains_key(p) <==> without_task::<W>(
                start,
                task,
            ).contains_key(p) by {
                assert(kept@.contains_key(p) <==> self@.contains_key(p));
                assert(places@.contains(p) <==> whole.contains_key(p));
                assert(start.contains_key(p) <==> whole.contains_key(p));
            }
            assert forall|p: u64| #[trigger] self@.contains_key(p) implies self@[p]
                == without_task::<W>(start, task)[p] by {
                assert(kept@.contains_key(p));
            }
            assert(self@ =~= without_task::<W>(start, task));
        }
    }

    /// Takes the first that waits at a place, and removes what else waits for its
    /// task.
    pub fn pop(&mut self, place: u64) -> (first: Option<W>)
        ensures
            first is Some == (waiting_at::<W>(old(self)@, place).len() > 0),
            first matches Some(waiter) ==> {
                &&& waiter@ == old(self)@[place][0]
                &&& final(self)@ == without_task::<W>(
                    old(self)@.insert(place, old(self)@[place].drop_first()),
                    W::task_of(waiter@),
                )
            },
            first is None ==> final(self)@ == old(self)@,
    {
        let ghost start = self@;
        match self.lists.remove(&place) {
            None => {
                assert(self@ =~= start);
                None
            },
            Some(waiters) => {
                let mut waiters = waiters;
                if waiters.len() == 0 {
                    let _ = self.lists.insert(place, waiters);
                    assert(waiter_views(waiters@).len() == 0);
                    assert(self@ =~= start);
                    return None;
                }
                let ghost all = waiters@;
                let first = waiters.remove(0);
                assert(waiter_views(waiters@) =~= waiter_views(all).drop_first());
                assert(waiter_views(all)[0] == first@);
                let _ = self.lists.insert(place, waiters);
                assert(self@ =~= start.insert(place, start[place].drop_first()));
                let task = first.task();
                self.remove_task(task);
                Some(first)
            },
        }
    }

    /// Whether something waits for a task at some place.
    pub fn waits(&self, task: TaskId) -> (result: bool)
        ensures
            result == waits_anywhere::<W>(self@, task),
    {
        let entries = self.lists.entries();
        proof {
            lemma_entry_map(entries@);
        }
        let mut i: usize = 0;
        while i < entries.len()
            invariant
                i <= entries@.len(),
                self.lists@ == entry_map(entries@),
                entry_keys(entries@).no_duplicates(),
                forall|k: int, j: int|
                    #![trigger entries@[k].1@[j]]
                    0 <= k < i && 0 <= j < entries@[k].1@.len() ==> W::task_of(
                        entries@[k].1@[j]@,
                    ) != task,
            decreases entries@.len() - i,
        {
            let waiters = &entries[i].1;
            let mut j: usize = 0;
            while j < waiters.len()
                invariant
                    i < entries@.len(),
                    *waiters == entries@[i as int].1,
                    j <= waiters@.len(),
                    self.lists@ == entry_map(entries@),
                    entry_keys(entries@).no_duplicates(),
                    forall|m: int| 0 <= m < j ==> W::task_of((#[trigger] waiters@[m])@) != task,
                decreases waiters@.len() - j,
            {
                if waiters[j].task() == task {
                    proof {
                        lemma_entry_map(entries@);
                        let place = entries@[i as int].0;
                        assert(entry_map(entries@).contains_key(entries@[i as int].0@));
                        assert(self@.contains_key(place));
                        assert(self@[place] == waiter_views(waiters@));
                        assert(W::task_of(self@[place][j as int]) == task);
                    }
                    return true;
                }
                j = j + 1;
            }
            i = i + 1;
        }
        proof {
            lemma_entry_map(entries@);
            if waits_anywhere::<W>(self@, task) {
                let (place, m) = choose|place: u64, m: int|
                    #![trigger self@[place][m]]
                    self@.contains_key(place) && 0 <= m < self@[place].len() && W::task_of(
                        self@[place][m],
                    ) == task;
                assert(entry_map(entries@).contains_key(place));
                let k = choose|k: int| 0 <= k < entries@.len() && (#[trigger] entries@[k]).0@ == place;
                assert(entry_map(entries@)[entries@[k].0@] == entries@[k].1);
                assert(self@[place] == waiter_views(entries@[k].1@));
                assert(W::task_of(entries@[k].1@[m]@) == task);
            }
        }
        false
    }
}

} // verus!
