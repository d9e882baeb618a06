//! Events: immutable records of one observed change to the repository.

use vstd::prelude::*;

use crate::oid::{MaybeZeroOid, NonZeroOid};

verus! {

/// Identifier of the logical operation (one hook invocation or one user
/// command) that produced an event. Allocated monotonically by the log.
#[derive(Clone, Copy, Debug, PartialEq, Eq, Structural)]
pub struct EventTransactionId(pub u64);

/// One observed change. Events are immutable once appended to the log;
/// their order in the log is logical time order. Timestamps are whole
/// seconds since the epoch.
#[derive(Clone, Debug, PartialEq, Eq)]
pub enum Event {
    /// A new commit was created.
    CommitEvent { timestamp: u64, event_tx_id: EventTransactionId, commit_oid: NonZeroOid },
    /// A commit was rewritten or replaced; a zero new id means it was dropped.
    RewriteEvent {
        timestamp: u64,
        event_tx_id: EventTransactionId,
        old_commit_oid: NonZeroOid,
        new_commit_oid: MaybeZeroOid,
    },
    /// A reference moved.
    RefUpdateEvent {
        timestamp: u64,
        event_tx_id: EventTransactionId,
        ref_name: Vec<u8>,
        old_oid: MaybeZeroOid,
        new_oid: MaybeZeroOid,
        message: Option<Vec<u8>>,
    },
    /// A commit was explicitly marked hidden.
    HideEvent {
        timestamp: u64,
        event_tx_id: EventTransactionId,
        commit_oid: NonZeroOid,
        reason: Option<Vec<u8>>,
    },
    /// A commit was explicitly marked visible again.
    UnhideEvent {
        timestamp: u64,
        event_tx_id: EventTransactionId,
        commit_oid: NonZeroOid,
        reason: Option<Vec<u8>>,
    },
}

impl Event {
    /// The transaction that produced this event.
    pub open spec fn tx_id(&self) -> u64 {
        match self {
            Event::CommitEvent { event_tx_id, .. } => event_tx_id.0,
            Event::RewriteEvent { event_tx_id, .. } => event_tx_id.0,
            Event::RefUpdateEvent { event_tx_id, .. } => event_tx_id.0,
            Event::HideEvent { event_tx_id, .. } => event_tx_id.0,
            Event::UnhideEvent { event_tx_id, .. } => event_tx_id.0,
        }
    }

    /// Well-formed: every id carried by the event is well-formed.
    pub open spec fn wf(&self) -> bool {
        match self {
            Event::CommitEvent { commit_oid, .. } => commit_oid.wf(),
            Event::RewriteEvent { old_commit_oid, new_commit_oid, .. } => old_commit_oid.wf()
                && new_commit_oid.wf(),
            Event::RefUpdateEvent { old_oid, new_oid, .. } => old_oid.wf() && new_oid.wf(),
            Event::HideEvent { commit_oid, .. } => commit_oid.wf(),
            Event::UnhideEvent { commit_oid, .. } => commit_oid.wf(),
        }
    }

    /// The transaction that produced this event (executable form).
    pub fn transaction_id(&self) -> (r: EventTransactionId)
        ensures
            r.0 == self.tx_id(),
    {
        match self {
            Event::CommitEvent { event_tx_id, .. } => *event_tx_id,
            Event::RewriteEvent { event_tx_id, .. } => *event_tx_id,
            Event::RefUpdateEvent { event_tx_id, .. } => *event_tx_id,
            Event::HideEvent { event_tx_id, .. } => *event_tx_id,
            Event::UnhideEvent { event_tx_id, .. } => *event_tx_id,
        }
    }
}

} // verus!
