//! The append-only, transaction-grouped event log.
//!
//! This type is the in-memory model of the durable log; reading it from and
//! writing it to the embedded store is the embedding program's concern. The
//! log is only ever appended to or read whole, never reordered.

use vstd::prelude::*;

use crate::event::{Event, EventTransactionId};

verus! {

/// The record kept for one allocated transaction: its id, the wall-clock
/// time of allocation, and the command that triggered it (for diagnostics
/// and undo listings).
pub struct Transaction {
    pub id: u64,
    pub timestamp: u64,
    pub command_name: String,
}

/// Append-only sequence of events plus the transactions allocated so far.
pub struct EventLog {
    pub events: Vec<Event>,
    pub transactions: Vec<Transaction>,
}

impl EventLog {
    /// Well-formed: transaction ids are 1, 2, ... in allocation order (hence
    /// monotonically increasing), and every event belongs to a transaction
    /// that was allocated before the event was appended.
    pub open spec fn wf(&self) -> bool {
        &&& forall|k: int|
            0 <= k < self.transactions@.len() ==> #[trigger] self.transactions@[k].id == k + 1
        &&& forall|i: int|
            0 <= i < self.events@.len() ==> (#[trigger] self.events@[i]).wf() && 1 <= self.events@[
                i
            ].tx_id() <= self.transactions@.len()
    }

    /// A new, empty log.
    pub fn new() -> (r: EventLog)
        ensures
            r.wf(),
            r.events@.len() == 0,
            r.transactions@.len() == 0,
    {
        EventLog { events: Vec::new(), transactions: Vec::new() }
    }

    /// Allocates a fresh transaction id, recording the wall-clock time and
    /// the triggering command name. The id is strictly greater than every
    /// previously allocated id. Call once per logical operation, before
    /// constructing any of its events, so they all share the id.
    pub fn make_transaction_id(&mut self, now: u64, command_name: String) -> (tx: EventTransactionId)
        requires
            old(self).wf(),
            old(self).transactions@.len() < u64::MAX,
        ensures
            final(self).wf(),
            tx.0 == old(self).transactions@.len() + 1,
            final(self).events@ == old(self).events@,
            final(self).transactions@.len() == old(self).transactions@.len() + 1,
            final(self).transactions@ == old(self).transactions@.push(
                Transaction { id: tx.0, timestamp: now, command_name },
            ),
            forall|k: int|
                0 <= k < old(self).transactions@.len() ==> #[trigger] old(self).transactions@[k].id
                    < tx.0,
    {
        let id: u64 = (self.transactions.len() as u64) + 1;
        self.transactions.push(Transaction { id, timestamp: now, command_name });
        EventTransactionId(id)
    }

    /// Appends all given events, atomically and in order. Every event must
    /// belong to an already-allocated transaction.
    pub fn add_events(&mut self, events: Vec<Event>)
        requires
            old(self).wf(),
            forall|i: int|
                0 <= i < events@.len() ==> (#[trigger] events@[i]).wf() && 1 <= events@[i].tx_id()
                    <= old(self).transactions@.len(),
        ensures
            final(self).wf(),
            final(self).events@ == old(self).events@ + events@,
            final(self).transactions@ == old(self).transactions@,
    {
        let mut events = events;
        self.events.append(&mut events);
    }

    /// The full log, in append order.
    pub fn all_events(&self) -> (r: &Vec<Event>)
        ensures
            r@ == self.events@,
    {
        &self.events
    }
}

} // verus!
