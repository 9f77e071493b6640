use vstd::prelude::*;

use crate::queue::{
    ParticipantQueue, all_to, addr_set, is_ranking, lemma_inform_only_filtered,
    lemma_inform_reaches_everyone, note_at, notes_upto,
};
use crate::types::{Address, CeremonyError, Notification};

verus! {

/// One event of the merged stream the coordinator serves: the three sources
/// are new arrivals, completions of the outstanding attempt, and the handler
/// task ending.
pub enum CoordinatorEvent {
    /// A new participant arrived with its bid.
    Arrival(Address, u128),
    /// The handler closed the outstanding attempt, successfully or not.
    Completion,
    /// The handler task itself ended; always fatal, possibly with an error.
    HandlerTerminated(Option<CeremonyError>),
}

/// What the queue holds after the event is admitted and dead entries are
/// pruned: an arrival is inserted, then everything outside `live` goes.
pub open spec fn queue_after(
    pre: Map<u64, u128>,
    event: CoordinatorEvent,
    live: Seq<Address>,
) -> Map<u64, u128> {
    let admitted = match event {
        CoordinatorEvent::Arrival(a, b) => pre.insert(a.id, b),
        _ => pre,
    };
    admitted.restrict(addr_set(live))
}

/// Whether a contribution is wanted after the event: a completion always
/// renews the want; nothing else changes it.
pub open spec fn want_after(pre: bool, event: CoordinatorEvent) -> bool {
    match event {
        CoordinatorEvent::Completion => true,
        _ => pre,
    }
}

/// Who is specially notified this iteration: a fresh arrival and nobody
/// else, so queue churn cannot be used to probe the queue's state.
pub open spec fn filter_of(event: CoordinatorEvent) -> Option<Address> {
    match event {
        CoordinatorEvent::Arrival(a, _) => Some(a),
        _ => None,
    }
}

/// The error a handler-terminated event carries, or the synthesized one when
/// the handler ended without a reason.
pub open spec fn fatal_of(carried: Option<CeremonyError>) -> CeremonyError {
    match carried {
        Some(e) => e,
        None => CeremonyError::HandlerFinishedNoReason,
    }
}

/// What one iteration decided.
pub enum Advance {
    /// The run must end with this error; the queue was left untouched.
    Fatal(CeremonyError),
    /// Nobody is left after pruning; there is nothing to schedule or say.
    Idle,
    /// The queue was re-ranked: the notifications to deliver, the ranking
    /// itself, the head candidate and the candidate's bid.
    Ready {
        notes: Vec<Notification>,
        ranked: Vec<Address>,
        candidate: Address,
        leader_bid: u128,
    },
}

/// The coordinator's own state: the participant queue and whether a
/// contribution is currently wanted, true exactly while no attempt is in
/// flight.
pub struct Coordinator {
    pub queue: ParticipantQueue,
    pub want_contribution: bool,
}

impl Coordinator {
    pub open spec fn wf(self) -> bool {
        self.queue.wf()
    }

    /// True while no contribution attempt is outstanding.
    pub open spec fn wants_contribution(self) -> bool {
        self.want_contribution
    }

    /// A coordinator starts empty and wanting its first contribution.
    pub fn new() -> (c: Coordinator)
        ensures
            c.wf(),
            c.queue@ == Map::<u64, u128>::empty(),
            c.queue.count() == 0,
            c.wants_contribution(),
    {
        Coordinator { queue: ParticipantQueue::new(), want_contribution: true }
    }

    /// Serves one event of the merged stream: admits an arrival, renews the
    /// want on a completion, or ends the run on handler termination; then
    /// prunes dead entries (`live` lists the addresses whose connections
    /// passed the liveness check), recomputes the ranking and builds the
    /// notifications under the anti-amplification filter.
    pub fn advance(&mut self, event: CoordinatorEvent, live: &Vec<Address>) -> (r: Advance)
        requires
            old(self).wf(),
        ensures
            final(self).wf(),
            event matches CoordinatorEvent::HandlerTerminated(carried) ==> ({
                &&& r == Advance::Fatal(fatal_of(carried))
                &&& *final(self) == *old(self)
            }),
            !(event is HandlerTerminated) ==> ({
                &&& !(r is Fatal)
                &&& final(self).queue@ == queue_after(old(self).queue@, event, live@)
                &&& final(self).wants_contribution() == want_after(
                    old(self).wants_contribution(),
                    event,
                )
                &&& (r is Idle <==> final(self).queue@.dom() == Set::<u64>::empty())
                &&& (r is Idle ==> final(self).queue.count() == 0)
                &&& (r matches Advance::Ready { notes, ranked, candidate, leader_bid } ==> ({
                    &&& is_ranking(final(self).queue@, ranked@)
                    &&& ranked@.len() == final(self).queue.count()
                    &&& ranked@.len() > 0
                    &&& candidate == ranked@[0]
                    &&& final(self).queue@.dom().contains(candidate.id)
                    &&& leader_bid == final(self).queue@[candidate.id]
                    &&& notes@ == notes_upto(
                        final(self).queue@,
                        ranked@,
                        leader_bid,
                        filter_of(event),
                        ranked@.len() as int,
                    )
                }))
            }),
    {
        let filter: Option<Address>;
        match event {
            CoordinatorEvent::HandlerTerminated(carried) => {
                return Advance::Fatal(
                    match carried {
                        Some(e) => e,
                        None => CeremonyError::HandlerFinishedNoReason,
                    },
                );
            },
            CoordinatorEvent::Arrival(a, b) => {
                self.queue.add(a, b);
                filter = Some(a);
            },
            CoordinatorEvent::Completion => {
                self.want_contribution = true;
                filter = None;
            },
        }
        self.queue.prune(live);
        let ranked = self.queue.score();
        if ranked.len() == 0 {
            return Advance::Idle;
        }
        let candidate = ranked[0];
        let leader_bid = match self.queue.bid(&candidate) {
            Some(b) => b,
            None => {
                proof {
                    assert(false);
                }
                0
            },
        };
        let notes = self.queue.inform(&ranked, leader_bid, filter);
        proof {
            assert(Set::<u64>::empty().contains(candidate.id) == false);
        }
        Advance::Ready { notes, ranked, candidate, leader_bid }
    }

    /// When a contribution is wanted, pulls the candidate out of the queue to
    /// hand it to the handler and clears the want, so no second dispatch can
    /// happen before the next completion. A candidate that the queue no
    /// longer holds is a logic bug and ends the run instead of being ignored.
    pub fn dispatch(&mut self, candidate: Address) -> (r: Result<Option<Address>, CeremonyError>)
        requires
            old(self).wf(),
        ensures
            final(self).wf(),
            !old(self).wants_contribution() ==> ({
                &&& r == Ok::<Option<Address>, CeremonyError>(None::<Address>)
                &&& *final(self) == *old(self)
            }),
            old(self).wants_contribution() && old(self).queue@.dom().contains(candidate.id) ==> ({
                &&& r == Ok::<Option<Address>, CeremonyError>(Some(candidate))
                &&& final(self).queue@ == old(self).queue@.remove(candidate.id)
                &&& final(self).queue.count() == old(self).queue.count() - 1
                &&& !final(self).wants_contribution()
            }),
            old(self).wants_contribution() && !old(self).queue@.dom().contains(candidate.id) ==> ({
                &&& r == Err::<Option<Address>, CeremonyError>(CeremonyError::InternalInvariant)
                &&& *final(self) == *old(self)
            }),
            r matches Ok(Some(a)) ==> a == candidate && old(self).wants_contribution()
                && !final(self).wants_contribution(),
    {
        if !self.want_contribution {
            return Ok(None);
        }
        match self.queue.remove(&candidate) {
            Some(_) => {
                self.want_contribution = false;
                Ok(Some(candidate))
            },
            None => Err(CeremonyError::InternalInvariant),
        }
    }
}

/// Anti-amplification at the event level: the notes an iteration builds
/// under `filter_of` go to the newly arrived address alone on an arrival,
/// and to every ranked address on a completion — and `advance` builds
/// exactly these notes.
pub proof fn lemma_anti_amplification(
    bids: Map<u64, u128>,
    ranked: Seq<Address>,
    leader_bid: u128,
    event: CoordinatorEvent,
    n: int,
)
    requires
        0 <= n,
    ensures
        event matches CoordinatorEvent::Arrival(a, b) ==> all_to(
            notes_upto(bids, ranked, leader_bid, filter_of(event), n),
            a,
        ),
        event is Completion ==> notes_upto(bids, ranked, leader_bid, filter_of(event), n).len()
            == n,
        event is Completion ==> forall|k: int|
            0 <= k < n ==> notes_upto(bids, ranked, leader_bid, filter_of(event), n)[k] == note_at(
                bids,
                ranked,
                leader_bid,
                k,
            ),
{
    match event {
        CoordinatorEvent::Arrival(a, _) => {
            lemma_inform_only_filtered(bids, ranked, leader_bid, a, n);
        },
        CoordinatorEvent::Completion => {
            lemma_inform_reaches_everyone(bids, ranked, leader_bid, n);
        },
        CoordinatorEvent::HandlerTerminated(_) => {
        },
    }
}

} // verus!
