//! Mailboxes through which hosts hear of subscriptions, and who owns which.

use crate::driver::lifecycle::outcome_view;
use crate::driver::types::{DriverError, ErrorView};
use crate::table::{entry_keys, entry_map, lemma_entry_map, Keyed, Table};
use crate::value::{Identity, Value, ValueView};
use vstd::prelude::*;

verus! {

/// Who owns a subscription, and where it is heard of.
#[derive(Clone, Copy, Debug, PartialEq, Eq, Structural)]
pub struct SubscriptionOwner {
    pub endpoint: Identity,
    pub mailbox: u64,
}

/// Open mailboxes and the owners of subscriptions.
#[derive(Debug)]
pub struct Subscriptions {
    mailboxes: Table<u64, Value>,
    owners: Table<Value, SubscriptionOwner>,
    mailbox_capacity: usize,
    capacity: usize,
}

/// The receiving ends of open mailboxes, the owners of subscriptions, and how many
/// there may be of each.
pub struct SubscriptionsView {
    pub mailboxes: Map<u64, ValueView>,
    pub owners: Map<ValueView, SubscriptionOwner>,
    pub mailbox_capacity: nat,
    pub capacity: nat,
}

impl View for Subscriptions {
    type V = SubscriptionsView;

    closed spec fn view(&self) -> SubscriptionsView {
        SubscriptionsView {
            mailboxes: self.mailboxes@.map_values(|receiver: Value| receiver@),
            owners: self.owners@,
            mailbox_capacity: self.mailbox_capacity as nat,
            capacity: self.capacity as nat,
        }
    }
}

impl SubscriptionsView {
    /// The subscriptions that are heard of through a mailbox.
    pub open spec fn through(self, mailbox: u64) -> Set<ValueView> {
        self.owners.dom().filter(|s: ValueView| self.owners[s].mailbox == mailbox)
    }

    /// Why a subscription through a mailbox is refused, where it is.
    pub open spec fn refusal(self, mailbox: u64) -> Option<Seq<char>> {
        if self.owners.dom().len() >= self.capacity {
            Some("driver subscription capacity is exhausted"@)
        } else if !self.mailboxes.contains_key(mailbox) {
            Some("subscription mailbox is closed"@)
        } else {
            None
        }
    }

    /// Why an endpoint may not cancel a subscription, where it may not.
    pub open spec fn cancel_refusal(self, endpoint: u64, subscription: ValueView) -> Option<
        Seq<char>,
    > {
        if !self.owners.contains_key(subscription) {
            Some("subscription is not active"@)
        } else if self.owners[subscription].endpoint@ != endpoint {
            Some("endpoint cannot cancel a subscription it does not own"@)
        } else {
            None
        }
    }
}

/// The outcome of a check that names what is wrong.
pub open spec fn checked(refusal: Option<Seq<char>>) -> Result<(), ErrorView> {
    match refusal {
        Some(text) => Err(ErrorView::Configuration(text)),
        None => Ok(()),
    }
}

/// Deliveries parted into those to tasks and those to hosts, in order.
pub open spec fn parted(deliveries: Seq<u64>, external: Set<u64>) -> (Seq<u64>, Seq<u64>) {
    (
        deliveries.filter(|mailbox: u64| !external.contains(mailbox)),
        deliveries.filter(|mailbox: u64| external.contains(mailbox)),
    )
}

impl Subscriptions {
    /// No mailbox and no subscription.
    pub fn new(mailbox_capacity: usize, capacity: usize) -> (subscriptions: Subscriptions)
        ensures
            subscriptions@ == (SubscriptionsView {
                mailboxes: Map::empty(),
                owners: Map::empty(),
                mailbox_capacity: mailbox_capacity as nat,
                capacity: capacity as nat,
            }),
    {
        let subscriptions = Subscriptions {
            mailboxes: Table::new(),
            owners: Table::new(),
            mailbox_capacity,
            capacity,
        };
        assert(subscriptions@.mailboxes =~= Map::empty());
        subscriptions
    }

    /// Open mailboxes and subscriptions.
    pub fn counts(&self) -> (counts: (usize, usize))
        ensures
            counts.0 == self@.mailboxes.dom().len(),
            counts.1 == self@.owners.dom().len(),
            self@.owners.dom().finite(),
    {
        assert(self@.mailboxes.dom() =~= self.mailboxes@.dom());
        (self.mailboxes.len(), self.owners.len())
    }

    /// Whether one more mailbox finds room.
    pub fn check_new_mailbox(&self) -> (result: Result<(), DriverError>)
        ensures
            outcome_view(result) == checked(
                if self@.mailboxes.dom().len() >= self@.mailbox_capacity {
                    Some("driver subscription mailbox capacity is exhausted"@)
                } else {
                    None
                },
            ),
    {
        let (open, _) = self.counts();
        if open >= self.mailbox_capacity {
            Err(DriverError::configuration("driver subscription mailbox capacity is exhausted"))
        } else {
            Ok(())
        }
    }

    /// Notes an open mailbox.
    pub fn add_mailbox(&mut self, mailbox: u64, receiver: Value)
        ensures
            final(self)@ == (SubscriptionsView {
                mailboxes: old(self)@.mailboxes.insert(mailbox, receiver@),
                ..old(self)@
            }),
    {
        let _ = self.mailboxes.insert(mailbox, receiver);
        assert(self@.mailboxes =~= old(self)@.mailboxes.insert(mailbox, receiver@));
    }

    /// Whether a mailbox is open.
    pub fn is_external(&self, mailbox: u64) -> (result: bool)
        ensures
            result == self@.mailboxes.contains_key(mailbox),
    {
        self.mailboxes.contains(&mailbox)
    }

    /// Whether a subscription through a mailbox finds room.
    pub fn check_register(&self, mailbox: u64) -> (result: Result<(), DriverError>)
        ensures
            outcome_view(result) == checked(self@.refusal(mailbox)),
    {
        let (_, registered) = self.counts();
        if registered >= self.capacity {
            return Err(DriverError::configuration("driver subscription capacity is exhausted"));
        }
        if !self.mailboxes.contains(&mailbox) {
            return Err(DriverError::configuration("subscription mailbox is closed"));
        }
        Ok(())
    }

    /// Notes a subscription.
    pub fn register(&mut self, subscription: Value, owner: SubscriptionOwner)
        ensures
            final(self)@ == (SubscriptionsView {
                owners: old(self)@.owners.insert(subscription@, owner),
                ..old(self)@
            }),
    {
        let _ = self.owners.insert(subscription, owner);
    }

    /// Whether an endpoint may cancel a subscription.
    pub fn check_cancel(&self, endpoint: &Identity, subscription: &Value) -> (result: Result<
        (),
        DriverError,
    >)
        ensures
            outcome_view(result) == checked(self@.cancel_refusal(endpoint@, subscription@)),
    {
        match self.owners.get(subscription) {
            None => Err(DriverError::configuration("subscription is not active")),
            Some(owner) => if !owner.endpoint.same(endpoint) {
                Err(
                    DriverError::configuration(
                        "endpoint cannot cancel a subscription it does not own",
                    ),
                )
            } else {
                Ok(())
            },
        }
    }

    /// Forgets a subscription.
    pub fn forget(&mut self, subscription: &Value)
        ensures
            final(self)@ == (SubscriptionsView {
                owners: old(self)@.owners.remove(subscription@),
                ..old(self)@
            }),
    {
        let _ = self.owners.remove(subscription);
    }

    /// The receiving end of a mailbox.
    pub fn receiver(&self, mailbox: u64) -> (receiver: Option<&Value>)
        ensures
            receiver is Some == self@.mailboxes.contains_key(mailbox),
            receiver matches Some(found) ==> found@ == self@.mailboxes[mailbox],
    {
        self.mailboxes.get(&mailbox)
    }

    /// Forgets a mailbox.
    pub fn remove_mailbox(&mut self, mailbox: u64) -> (receiver: Option<Value>)
        ensures
            receiver is Some == old(self)@.mailboxes.contains_key(mailbox),
            receiver matches Some(found) ==> found@ == old(self)@.mailboxes[mailbox],
            final(self)@ == (SubscriptionsView {
                mailboxes: old(self)@.mailboxes.remove(mailbox),
                ..old(self)@
            }),
    {
        let removed = self.mailboxes.remove(&mailbox);
        assert(self@.mailboxes =~= old(self)@.mailboxes.remove(mailbox));
        removed
    }

    /// Forgets the subscriptions through a mailbox, and hands back which they were
    /// and whose.
    pub fn forget_through(&mut self, mailbox: u64) -> (forgotten: Vec<(Value, Identity)>)
        ensures
            forall|s: ValueView| #[trigger]
                old(self)@.through(mailbox).contains(s) <==> exists|i: int|
                    0 <= i < forgotten@.len() && (#[trigger] forgotten@[i]).0@ == s,
            forall|i: int|
                0 <= i < forgotten@.len() ==> (#[trigger] forgotten@[i]).1
                    == old(self)@.owners[forgotten@[i].0@].endpoint,
            final(self)@ == (SubscriptionsView {
                owners: old(self)@.owners.remove_keys(old(self)@.through(mailbox)),
                ..old(self)@
            }),
    {
        let ghost start = self@;
        let entries = self.owners.entries();
        let mut forgotten: Vec<(Value, Identity)> = Vec::new();
        let mut i: usize = 0;
        while i < entries.len()
            invariant
                i <= entries@.len(),
                start.owners == entry_map(entries@),
                entry_keys(entries@).no_duplicates(),
                forall|s: ValueView|
                    (exists|k: int| 0 <= k < forgotten@.len() && (#[trigger] forgotten@[k]).0@ == s)
                        <==> #[trigger] heard_of(entries@, i as int, mailbox, s),
                forall|k: int|
                    0 <= k < forgotten@.len() ==> start.owners.contains_key(
                        (#[trigger] forgotten@[k]).0@,
                    ) && forgotten@[k].1 == start.owners[forgotten@[k].0@].endpoint,
            decreases entries@.len() - i,
        {
            let ghost before = forgotten@;
            let entry = &entries[i];
            proof {
                lemma_entry_map(entries@);
            }
            if entry.1.mailbox == mailbox {
                let subscription = entry.0.copy_key();
                forgotten.push((subscription, entry.1.endpoint));
            }
            i = i + 1;
            assert forall|s: ValueView|
                (exists|k: int| 0 <= k < forgotten@.len() && (#[trigger] forgotten@[k]).0@ == s)
                    <==> #[trigger] heard_of(entries@, i as int, mailbox, s) by {
                assert(heard_of(entries@, i - 1, mailbox, s) <==> exists|k: int|
                    0 <= k < before.len() && (#[trigger] before[k]).0@ == s);
                if exists|k: int| 0 <= k < before.len() && (#[trigger] before[k]).0@ == s {
                    let k = choose|k: int| 0 <= k < before.len() && (#[trigger] before[k]).0@ == s;
                    assert(forgotten@[k].0@ == s);
                    let j = choose|j: int|
                        0 <= j < i - 1 && (#[trigger] entries@[j]).0@ == s && entries@[j].1.mailbox
                            == mailbox;
                    assert(entries@[j].0@ == s);
                }
                if entries@[i - 1].1.mailbox == mailbox {
                    assert(forgotten@[before.len() as int].0@ == entries@[i - 1].0@);
                }
                if exists|k: int| 0 <= k < forgotten@.len() && (#[trigger] forgotten@[k]).0@ == s {
                    let k = choose|k: int|
                        0 <= k < forgotten@.len() && (#[trigger] forgotten@[k]).0@ == s;
                    if k < before.len() {
                        assert(before[k].0@ == s);
                    } else {
                        assert(entries@[i - 1].0@ == s);
                    }
                }
            }
        }
        proof {
            lemma_entry_map(entries@);
            assert forall|s: ValueView| #[trigger] start.through(mailbox).contains(s)
                <==> heard_of(entries@, i as int, mailbox, s) by {
                if start.through(mailbox).contains(s) {
                    let j = choose|j: int| 0 <= j < entries@.len() && (#[trigger] entries@[j]).0@ == s;
                    assert(entries@[j].0@ == s);
                }
                if heard_of(entries@, i as int, mailbox, s) {
                    let j = choose|j: int|
                        0 <= j < i && (#[trigger] entries@[j]).0@ == s && entries@[j].1.mailbox
                            == mailbox;
                    assert(entry_map(entries@).contains_key(entries@[j].0@));
                }
            }
        }
        let mut n: usize = 0;
        let ghost gone = start.through(mailbox);
        while n < forgotten.len()
            invariant
                n <= forgotten@.len(),
                self@.mailboxes == start.mailboxes,
                self@.mailbox_capacity == start.mailbox_capacity,
                self@.capacity == start.capacity,
                forall|s: ValueView| #[trigger]
                    self@.owners.contains_key(s) <==> start.owners.contains_key(s) && !(exists|k: int|
                        0 <= k < n && (#[trigger] forgotten@[k]).0@ == s),
                forall|s: ValueView| #[trigger]
                    self@.owners.contains_key(s) ==> self@.owners[s] == start.owners[s],
            decreases forgotten@.len() - n,
        {
            let ghost before = self@.owners;
            let _ = self.owners.remove(&forgotten[n].0);
            n = n + 1;
            assert forall|s: ValueView| #[trigger]
                self@.owners.contains_key(s) <==> start.owners.contains_key(s) && !(exists|k: int|
                    0 <= k < n && (#[trigger] forgotten@[k]).0@ == s) by {
                assert(before.contains_key(s) <==> start.owners.contains_key(s) && !(exists|k: int|
                    0 <= k < n - 1 && (#[trigger] forgotten@[k]).0@ == s));
                if s == forgotten@[n - 1].0@ {
                    assert(forgotten@[n - 1].0@ == s);
                }
            }
        }
        proof {
            assert forall|s: ValueView| #[trigger] self@.owners.contains_key(s)
                <==> start.owners.remove_keys(gone).contains_key(s) by {
                assert(gone.contains(s) <==> heard_of(entries@, i as int, mailbox, s));
            }
            assert(self@.owners =~= start.owners.remove_keys(gone));
        }
        forgotten
    }

    /// Parts deliveries into those to tasks and those to hosts.
    pub fn split_deliveries(&self, deliveries: &[u64]) -> (split: (Vec<u64>, Vec<u64>))
        ensures
            (split.0@, split.1@) == parted(deliveries@, self@.mailboxes.dom()),
    {
        let ghost external = self@.mailboxes.dom();
        let mut tasks: Vec<u64> = Vec::new();
        let mut hosts: Vec<u64> = Vec::new();
        let mut i: usize = 0;
        proof {
            reveal(Seq::filter);
            assert(deliveries@.take(0) =~= Seq::empty());
            assert(tasks@ =~= parted(deliveries@.take(0), external).0);
            assert(hosts@ =~= parted(deliveries@.take(0), external).1);
        }
        while i < deliveries.len()
            invariant
                i <= deliveries@.len(),
                external == self@.mailboxes.dom(),
                tasks@ == parted(deliveries@.take(i as int), external).0,
                hosts@ == parted(deliveries@.take(i as int), external).1,
            decreases deliveries@.len() - i,
        {
            proof {
                reveal(Seq::filter);
                assert(deliveries@.take(i + 1).drop_last() =~= deliveries@.take(i as int));
            }
            let mailbox: u64 = deliveries[i];
            if self.is_external(mailbox) {
                hosts.push(mailbox);
            } else {
                tasks.push(mailbox);
            }
            i = i + 1;
        }
        assert(deliveries@.take(i as int) =~= deliveries@);
        (tasks, hosts)
    }

    /// Forgets every mailbox and subscription, and hands back the receiving ends.
    pub fn drain(&mut self) -> (receivers: Vec<Value>)
        ensures
            final(self)@ == (SubscriptionsView {
                mailboxes: Map::empty(),
                owners: Map::empty(),
                ..old(self)@
            }),
            receivers@.len() == old(self)@.mailboxes.dom().len(),
            forall|m: u64| #[trigger]
                old(self)@.mailboxes.contains_key(m) ==> exists|i: int|
                    0 <= i < receivers@.len() && (#[trigger] receivers@[i])@
                        == old(self)@.mailboxes[m],
    {
        let ghost start = self@;
        let entries = self.mailboxes.entries();
        let mut receivers: Vec<Value> = Vec::new();
        let mut i: usize = 0;
        while i < entries.len()
            invariant
                i <= entries@.len(),
                receivers@.len() == i,
                forall|j: int| 0 <= j < i ==> (#[trigger] receivers@[j])@ == entries@[j].1@,
            decreases entries@.len() - i,
        {
            let receiver = entries[i].1.clone();
            receivers.push(receiver);
            i = i + 1;
        }
        proof {
            lemma_entry_map(entries@);
            assert(start.mailboxes.dom() =~= entry_map(entries@).dom());
            assert forall|m: u64| #[trigger] start.mailboxes.contains_key(m) implies exists|i: int|
                0 <= i < receivers@.len() && (#[trigger] receivers@[i])@ == start.mailboxes[m] by {
                assert(entry_map(entries@).contains_key(m));
                let j = choose|j: int| 0 <= j < entries@.len() && (#[trigger] entries@[j]).0@ == m;
                assert(receivers@[j]@ == start.mailboxes[m]);
            }
        }
        self.mailboxes = Table::new();
        self.owners = Table::new();
        assert(self@.mailboxes =~= Map::empty());
        receivers
    }
}

/// Whether one of the first `n` entries is `subscription`, heard of through
/// `mailbox`.
spec fn heard_of(
    entries: Seq<(Value, SubscriptionOwner)>,
    n: int,
    mailbox: u64,
    subscription: ValueView,
) -> bool {
    exists|j: int|
        0 <= j < n && (#[trigger] entries[j]).0@ == subscription && entries[j].1.mailbox == mailbox
}

} // verus!
