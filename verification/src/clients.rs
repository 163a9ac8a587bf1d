//! The registry of connected clients.

use std::collections::HashMap;
use vstd::prelude::*;
use vstd::std_specs::hash::spec_keys_iter;
use vstd::std_specs::iter::IteratorSpec;

use crate::network::{encode, Message};

verus! {

/// Unique identifier of a client
pub type ClientUid = u8;

/// The highest uid there is.
pub const LAST_UID: ClientUid = 255;

/// Why a client could not be registered.
#[derive(Debug, Clone, Copy, PartialEq, Eq, Structural)]
pub enum RegistryError {
    /// The highest uid is taken: there is none left above it.
    UidSpaceExhausted,
}

/// The highest of the uids in `uids` that are not above `limit`, or 0 where
/// there is none.
pub open spec fn highest_upto(uids: Set<ClientUid>, limit: nat) -> nat
    decreases limit,
{
    if limit == 0 {
        0
    } else if limit <= LAST_UID && uids.contains(limit as ClientUid) {
        limit
    } else {
        highest_upto(uids, (limit - 1) as nat)
    }
}

/// The highest uid in `uids`, or 0 where `uids` is empty.
pub open spec fn highest(uids: Set<ClientUid>) -> nat {
    highest_upto(uids, LAST_UID as nat)
}

/// `highest_upto` is an upper bound of the uids up to `limit`, and is one of
/// them unless it is 0.
pub proof fn lemma_highest_upto(uids: Set<ClientUid>, limit: nat)
    requires
        limit <= LAST_UID,
    ensures
        highest_upto(uids, limit) <= limit,
        forall|u: ClientUid| uids.contains(u) && u <= limit ==> u <= highest_upto(uids, limit),
        highest_upto(uids, limit) > 0 ==> uids.contains(highest_upto(uids, limit) as ClientUid),
    decreases limit,
{
    if limit > 0 && !uids.contains(limit as ClientUid) {
        lemma_highest_upto(uids, (limit - 1) as nat);
    }
}

/// The uid that the next client is given: one more than the highest uid in
/// `uids`, and so 1 where `uids` is empty. There is none once the highest
/// uid there is has been given out.
pub open spec fn next_uid(uids: Set<ClientUid>) -> Option<ClientUid> {
    if highest(uids) < LAST_UID {
        Some((highest(uids) + 1) as ClientUid)
    } else {
        None
    }
}

/// The uids `1` to `n`.
pub open spec fn first_uids(n: nat) -> Set<ClientUid> {
    Set::new(|u: ClientUid| 1 <= u <= n)
}

/// The uids that are registered after `n` clients have been added, one
/// after the other, to a registry without clients.
pub open spec fn uids_after_adds(n: nat) -> Set<ClientUid>
    decreases n,
{
    if n == 0 {
        Set::empty()
    } else {
        let before = uids_after_adds((n - 1) as nat);
        match next_uid(before) {
            Some(uid) => before.insert(uid),
            None => before,
        }
    }
}

/// A new uid is above every uid that is registered, and is therefore none
/// of them; it is the least such uid but 0: it is 1, or the uid before it is
/// registered. None is left exactly when the highest uid there is is
/// registered.
pub proof fn lemma_next_uid(uids: Set<ClientUid>)
    ensures
        next_uid(uids) is None <==> uids.contains(LAST_UID),
        next_uid(uids) matches Some(uid) ==> {
            &&& uid == highest(uids) + 1
            &&& uid == 1 || uids.contains((uid - 1) as ClientUid)
            &&& !uids.contains(uid)
            &&& forall|u: ClientUid| uids.contains(u) ==> u < uid
        },
{
    lemma_highest_upto(uids, LAST_UID as nat);
}

/// Clients added one after the other to an empty registry are given the
/// uids 1, 2, 3 and so on: the client that is added when `n` have been added
/// before it is given `n + 1`, and after it the uids `1` to `n + 1` are
/// registered.
pub proof fn lemma_uids_count_up(n: nat)
    requires
        n < LAST_UID,
    ensures
        uids_after_adds(n) == first_uids(n),
        next_uid(uids_after_adds(n)) == Some((n + 1) as ClientUid),
        uids_after_adds(n + 1) == first_uids(n + 1),
    decreases n,
{
    if n > 0 {
        lemma_uids_count_up((n - 1) as nat);
    }
    let uids = uids_after_adds(n);
    lemma_highest_upto(uids, LAST_UID as nat);
    if n > 0 {
        assert(uids.contains(n as ClientUid));
    }
}

/// Once the highest uid there is has been given out, a registry that only
/// grows gives out no more: the 256th client in a row is turned away.
pub proof fn lemma_uids_run_out()
    ensures
        next_uid(uids_after_adds(LAST_UID as nat)) is None,
{
    lemma_uids_count_up((LAST_UID - 1) as nat);
    lemma_next_uid(uids_after_adds(LAST_UID as nat));
}

/// After a client has been removed, the next client is still given a uid
/// above every uid that is left in the registry, whichever uid was removed.
pub proof fn lemma_add_after_remove(uids: Set<ClientUid>, removed: ClientUid)
    ensures
        next_uid(uids.remove(removed)) matches Some(uid) ==> {
            &&& uid > highest(uids.remove(removed))
            &&& forall|u: ClientUid| uids.contains(u) && u != removed ==> u < uid
        },
{
    let left = uids.remove(removed);
    lemma_next_uid(left);
    if let Some(uid) = next_uid(left) {
        assert forall|u: ClientUid| uids.contains(u) && u != removed implies u < uid by {
            assert(left.contains(u));
        }
    }
}

/// Queue of connected network clients
pub struct Clients<H> {
    list: HashMap<ClientUid, H>,
}

impl<H> View for Clients<H> {
    type V = Map<ClientUid, H>;

    closed spec fn view(&self) -> Map<ClientUid, H> {
        self.list@
    }
}

impl<H> Clients<H> {
    /// A registry without clients.
    pub fn new() -> (clients: Clients<H>)
        ensures
            clients@ == Map::<ClientUid, H>::empty(),
    {
        Clients { list: HashMap::new() }
    }

    /// The number of registered clients.
    pub fn len(&self) -> (n: usize)
        ensures
            n == self@.len(),
    {
        self.list.len()
    }

    /// Whether a client is registered under `uid`.
    pub fn contains(&self, uid: ClientUid) -> (registered: bool)
        ensures
            registered == self@.contains_key(uid),
    {
        self.list.contains_key(&uid)
    }

    /// The handle of the client registered under `uid`.
    pub fn get(&self, uid: ClientUid) -> (handle: Option<&H>)
        ensures
            match handle {
                Some(h) => self@.contains_key(uid) && *h == self@[uid],
                None => !self@.contains_key(uid),
            },
    {
        self.list.get(&uid)
    }

    /// The highest registered uid, or 0 where no client is registered.
    fn highest_uid(&self) -> (top: ClientUid)
        ensures
            top == highest(self@.dom()),
    {
        let mut top: ClientUid = 0;
        let ghost uids = self@.dom();
        let ghost order = spec_keys_iter(&self.list).remaining();
        for uid in it: self.list.keys()
            invariant
                uids == self.list@.dom(),
                it.seq() == order,
                order.unref().to_set() == uids,
                top == 0 || uids.contains(top),
                forall|k: int| 0 <= k < it.index() ==> *order[k] <= top,
        {
            if *uid > top {
                top = *uid;
            }
        }
        proof {
            lemma_highest_upto(uids, LAST_UID as nat);
            assert forall|u: ClientUid| uids.contains(u) implies u <= top by {
                let k = choose|k: int| 0 <= k < order.unref().len() && order.unref()[k] == u;
            }
        }
        top
    }

    /// Add a client to the queue, returning the uid
    ///
    /// The uid is one more than the highest uid registered, and 1 for the
    /// first client. Where the highest uid there is is registered, the
    /// client is turned away and the registry stays as it is.
    pub fn add(&mut self, client: H) -> (result: Result<ClientUid, RegistryError>)
        ensures
            match next_uid(old(self)@.dom()) {
                Some(uid) => result == Ok::<ClientUid, RegistryError>(uid) && final(self)@ == old(
                    self,
                )@.insert(uid, client),
                None => result == Err::<ClientUid, RegistryError>(RegistryError::UidSpaceExhausted)
                    && final(self)@ == old(self)@,
            },
    {
        let top = self.highest_uid();
        if top == LAST_UID {
            return Err(RegistryError::UidSpaceExhausted);
        }
        let uid = top + 1;
        self.list.insert(uid, client);
        Ok(uid)
    }

    /// Remove a client from the queue
    ///
    /// Returns the handle of the client, or nothing where no client was
    /// registered under the uid.
    pub fn remove(&mut self, client: ClientUid) -> (handle: Option<H>)
        ensures
            final(self)@ == old(self)@.remove(client),
            match handle {
                Some(h) => old(self)@.contains_key(client) && h == old(self)@[client],
                None => !old(self)@.contains_key(client),
            },
    {
        self.list.remove(&client)
    }
}

/// The mathematical value of a delivery.
pub struct DeliveryView {
    /// The clients to write to, in the order in which they come up.
    pub recipients: Seq<ClientUid>,
    /// The bytes to write to each of them.
    pub wire: Seq<u8>,
    /// How many of the recipients have been written to.
    pub attempted: nat,
    /// The recipients the write to which failed, in the order of the
    /// attempts.
    pub failed: Seq<ClientUid>,
}

impl DeliveryView {
    /// A delivery of which nothing has been attempted yet.
    pub open spec fn fresh(recipients: Seq<ClientUid>, wire: Seq<u8>) -> DeliveryView {
        DeliveryView { recipients, wire, attempted: 0, failed: Seq::empty() }
    }

    /// The client to write to next, if any is left.
    pub open spec fn recipient(self) -> Option<ClientUid> {
        if self.attempted < self.recipients.len() {
            Some(self.recipients[self.attempted as int])
        } else {
            None
        }
    }

    /// The delivery after the write to the next recipient has succeeded or
    /// failed. Either way the recipient after it comes up.
    pub open spec fn record(self, delivered: bool) -> DeliveryView {
        if self.attempted < self.recipients.len() {
            DeliveryView {
                recipients: self.recipients,
                wire: self.wire,
                attempted: self.attempted + 1,
                failed: if delivered {
                    self.failed
                } else {
                    self.failed.push(self.recipients[self.attempted as int])
                },
            }
        } else {
            self
        }
    }

    /// The delivery after one write for each entry of `outcomes`, in order.
    pub open spec fn run(self, outcomes: Seq<bool>) -> DeliveryView
        decreases outcomes.len(),
    {
        if outcomes.len() == 0 {
            self
        } else {
            self.run(outcomes.drop_last()).record(outcomes.last())
        }
    }
}

/// One message on its way to a set of clients.
///
/// The registry says to whom the message goes and what is written; the
/// caller does the writing, one recipient after the other, and reports how
/// each write ended.
#[derive(Debug)]
pub struct Delivery {
    recipients: Vec<ClientUid>,
    wire: Vec<u8>,
    next: usize,
    failed: Vec<ClientUid>,
}

impl View for Delivery {
    type V = DeliveryView;

    closed spec fn view(&self) -> DeliveryView {
        DeliveryView {
            recipients: self.recipients@,
            wire: self.wire@,
            attempted: self.next as nat,
            failed: self.failed@,
        }
    }
}

impl Delivery {
    /// The bytes to write to each recipient.
    pub fn wire(&self) -> (bytes: &[u8])
        ensures
            bytes@ == self@.wire,
    {
        self.wire.as_slice()
    }

    /// The client to write to next, or nothing once every recipient has
    /// had its turn.
    pub fn recipient(&self) -> (next: Option<ClientUid>)
        ensures
            next == self@.recipient(),
    {
        if self.next < self.recipients.len() {
            Some(self.recipients[self.next])
        } else {
            None
        }
    }

    /// Takes note of how the write to the recipient whose turn it is has
    /// ended, and moves on to the next recipient: a failed write stops
    /// nothing.
    pub fn record(&mut self, delivered: bool)
        ensures
            final(self)@ == old(self)@.record(delivered),
    {
        if self.next < self.recipients.len() {
            if !delivered {
                let uid = self.recipients[self.next];
                self.failed.push(uid);
            }
            self.next = self.next + 1;
        }
    }

    /// The recipients the write to which has failed so far.
    pub fn failed(&self) -> (uids: &[ClientUid])
        ensures
            uids@ == self@.failed,
    {
        self.failed.as_slice()
    }
}

impl<H> Clients<H> {
    /// The uids of the registered clients, without `skip` where one is
    /// given, each of them once, in no particular order.
    fn uids_except(&self, skip: Option<ClientUid>) -> (uids: Vec<ClientUid>)
        ensures
            uids@.no_duplicates(),
            forall|u: ClientUid|
                uids@.contains(u) <==> self@.contains_key(u) && skip != Some(u),
    {
        let mut uids: Vec<ClientUid> = Vec::new();
        let ghost order = spec_keys_iter(&self.list).remaining();
        for uid in it: self.list.keys()
            invariant
                it.seq() == order,
                order.no_duplicates(),
                order.unref().to_set() == self.list@.dom(),
                forall|u: ClientUid|
                    uids@.contains(u) <==> skip != Some(u) && exists|k: int|
                        0 <= k < it.index() && *order[k] == u,
                uids@.no_duplicates(),
        {
            let ghost before = uids@;
            if skip != Some(*uid) {
                uids.push(*uid);
                proof {
                    assert forall|u: ClientUid| uids@.contains(u) <==> skip != Some(u) && exists|
                        k: int,
                    |
                        0 <= k < it.index() + 1 && *order[k] == u by {
                        if uids@.contains(u) {
                            let j = choose|j: int| 0 <= j < uids@.len() && uids@[j] == u;
                            if j < before.len() {
                                assert(before[j] == u);
                                assert(before.contains(u));
                            } else {
                                assert(*order[it.index()] == u);
                            }
                        }
                        if skip != Some(u) && exists|k: int|
                            0 <= k < it.index() + 1 && *order[k] == u {
                            let k = choose|k: int| 0 <= k < it.index() + 1 && *order[k] == u;
                            if k < it.index() {
                                assert(before.contains(u));
                                let j = choose|j: int| 0 <= j < before.len() && before[j] == u;
                                assert(uids@[j] == u);
                            } else {
                                assert(uids@[before.len() as int] == u);
                            }
                        }
                    }
                    assert(!before.contains(*uid)) by {
                        if before.contains(*uid) {
                            let k = choose|k: int| 0 <= k < it.index() && *order[k] == *uid;
                            assert(order[k] == order[it.index()]);
                        }
                    }
                }
            } else {
                proof {
                    assert forall|u: ClientUid| uids@.contains(u) <==> skip != Some(u) && exists|
                        k: int,
                    |
                        0 <= k < it.index() + 1 && *order[k] == u by {
                        if skip != Some(u) && exists|k: int|
                            0 <= k < it.index() + 1 && *order[k] == u {
                            let k = choose|k: int| 0 <= k < it.index() + 1 && *order[k] == u;
                            assert(k < it.index());
                        }
                    }
                }
            }
        }
        proof {
            assert forall|u: ClientUid|
                uids@.contains(u) <==> self@.contains_key(u) && skip != Some(u) by {
                if self@.contains_key(u) {
                    assert(order.unref().contains(u));
                    let k = choose|k: int| 0 <= k < order.unref().len() && order.unref()[k] == u;
                    assert(*order[k] == u);
                }
                if uids@.contains(u) {
                    let k = choose|k: int| 0 <= k < order.len() && *order[k] == u;
                    assert(order.unref()[k] == u);
                }
            }
        }
        uids
    }

    /// Send a message to all clients but one (usually the sender)
    ///
    /// The delivery names every registered client but `client` once, and
    /// holds the wire form of `msg`.
    pub fn send(&self, client: ClientUid, msg: &Message) -> (delivery: Delivery)
        ensures
            delivery@ == DeliveryView::fresh(delivery@.recipients, encode(msg@)),
            delivery@.recipients.no_duplicates(),
            forall|u: ClientUid|
                delivery@.recipients.contains(u) <==> self@.contains_key(u) && u != client,
    {
        Delivery {
            recipients: self.uids_except(Some(client)),
            wire: msg.encode(),
            next: 0,
            failed: Vec::new(),
        }
    }

    /// Send a message to all clients
    ///
    /// The delivery names every registered client once, and holds the wire
    /// form of `msg`.
    pub fn broadcast(&self, msg: &Message) -> (delivery: Delivery)
        ensures
            delivery@ == DeliveryView::fresh(delivery@.recipients, encode(msg@)),
            delivery@.recipients.no_duplicates(),
            forall|u: ClientUid| delivery@.recipients.contains(u) <==> self@.contains_key(u),
    {
        Delivery {
            recipients: self.uids_except(None),
            wire: msg.encode(),
            next: 0,
            failed: Vec::new(),
        }
    }
}

/// The recipients among the first `n` whose write failed, in order.
pub open spec fn failures(recipients: Seq<ClientUid>, outcomes: Seq<bool>) -> Seq<ClientUid>
    decreases outcomes.len(),
{
    if outcomes.len() == 0 {
        Seq::empty()
    } else if outcomes.last() {
        failures(recipients, outcomes.drop_last())
    } else {
        failures(recipients, outcomes.drop_last()).push(recipients[outcomes.len() - 1])
    }
}

/// Whatever the outcomes of the writes so far, the next recipient of a
/// delivery is the next on its list: after `n` writes, failed or not, the
/// first `n` recipients have had their turn, the one after them comes up,
/// and exactly those whose write failed are on record.
pub proof fn lemma_failed_write_stops_nothing(
    recipients: Seq<ClientUid>,
    wire: Seq<u8>,
    outcomes: Seq<bool>,
)
    requires
        outcomes.len() <= recipients.len(),
    ensures
        DeliveryView::fresh(recipients, wire).run(outcomes) == (DeliveryView {
            recipients,
            wire,
            attempted: outcomes.len(),
            failed: failures(recipients, outcomes),
        }),
        DeliveryView::fresh(recipients, wire).run(outcomes).recipient() == if outcomes.len()
            < recipients.len() {
            Some(recipients[outcomes.len() as int])
        } else {
            None
        },
    decreases outcomes.len(),
{
    if outcomes.len() > 0 {
        lemma_failed_write_stops_nothing(recipients, wire, outcomes.drop_last());
    }
}

/// A recipient is on the record of failures exactly if it has had its turn
/// and its write failed.
pub proof fn lemma_failures(recipients: Seq<ClientUid>, outcomes: Seq<bool>, uid: ClientUid)
    requires
        outcomes.len() <= recipients.len(),
        recipients.no_duplicates(),
    ensures
        failures(recipients, outcomes).contains(uid) <==> exists|i: int|
            0 <= i < outcomes.len() && recipients[i] == uid && !outcomes[i],
    decreases outcomes.len(),
{
    if outcomes.len() > 0 {
        let head = outcomes.drop_last();
        let last = outcomes.len() - 1;
        lemma_failures(recipients, head, uid);
        let before = failures(recipients, head);
        if failures(recipients, outcomes).contains(uid) {
            if before.contains(uid) {
                let i = choose|i: int| 0 <= i < head.len() && recipients[i] == uid && !head[i];
                assert(outcomes[i] == head[i]);
            } else {
                assert(!outcomes.last());
                let after = before.push(recipients[last]);
                let j = choose|j: int| 0 <= j < after.len() && after[j] == uid;
                if j < before.len() {
                    assert(before[j] == uid);
                }
                assert(recipients[last] == uid);
            }
        }
        if exists|i: int| 0 <= i < outcomes.len() && recipients[i] == uid && !outcomes[i] {
            let i = choose|i: int| 0 <= i < outcomes.len() && recipients[i] == uid && !outcomes[i];
            if i < last {
                assert(head[i] == outcomes[i]);
                assert(before.contains(uid));
                let j = choose|j: int| 0 <= j < before.len() && before[j] == uid;
                if !outcomes.last() {
                    assert(before.push(recipients[last])[j] == uid);
                }
            } else {
                assert(before.push(recipients[last])[before.len() as int] == uid);
            }
        }
    }
}

} // verus!
