use vstd::prelude::*;

verus! {

/// Identity of a connected participant.
///
/// The engine only ever compares, stores and hands back addresses, so the
/// identity is carried as a plain numeric key; the session layer owns the
/// full address material and the mapping to live connections.
#[derive(Clone, Copy, PartialEq, Eq, Hash, Debug)]
pub struct Address {
    pub id: u64,
}

/// A queue-position message for one waiting participant: its zero-based rank,
/// how many participants are ranked, the bid of the current leader, and the
/// participant's own bid.
#[derive(Clone, Copy, PartialEq, Eq, Debug)]
pub struct Notification {
    pub address: Address,
    pub rank: usize,
    pub total: usize,
    pub leader_bid: u128,
    pub own_bid: u128,
}

/// The unrecoverable ways a ceremony run ends.
///
/// Participant faults (timeouts, declined or invalid contributions) are never
/// errors: they close the attempt with a strike and the run goes on.
#[derive(Clone, Copy, PartialEq, Eq, Debug)]
pub enum CeremonyError {
    /// The merged event stream closed while the run was still going.
    EventStreamClosed,
    /// The handler task ended without carrying an error.
    HandlerFinishedNoReason,
    /// A storage or phase collaborator failed; continuing could corrupt the
    /// ceremony's state.
    StorageFault,
    /// A parent state was needed but the phase was never initialized.
    PhaseUninitialized,
    /// The participant's session failed outright while producing a candidate.
    SessionFault,
    /// The admission channel to the contribution handler closed.
    HandlerChannelClosed,
    /// A ranked address was missing from the queue: a logic bug, surfaced
    /// rather than silently continued from.
    InternalInvariant,
}

} // verus!
