use summoner::coordinator::{Advance, Coordinator, CoordinatorEvent};
use summoner::handler::{close_attempt, plan_attempt, AttemptOutcome};
use summoner::queue::{contains_address, ParticipantQueue};
use summoner::types::{Address, CeremonyError, Notification};

fn addr(id: u64) -> Address {
    Address { id }
}

#[test]
fn add_latest_bid_wins() {
    let mut q = ParticipantQueue::new();
    q.add(addr(7), 5);
    q.add(addr(7), 9);
    assert_eq!(q.len(), 1);
    assert_eq!(q.bid(&addr(7)), Some(9));
}

#[test]
fn remove_returns_bid_once() {
    let mut q = ParticipantQueue::new();
    q.add(addr(1), 10);
    q.add(addr(2), 20);
    assert_eq!(q.remove(&addr(1)), Some(10));
    assert_eq!(q.remove(&addr(1)), None);
    assert_eq!(q.len(), 1);
    assert_eq!(q.bid(&addr(2)), Some(20));
}

#[test]
fn score_orders_by_bid_descending() {
    let mut q = ParticipantQueue::new();
    q.add(addr(1), 10);
    q.add(addr(2), 5);
    q.add(addr(3), 7);
    assert_eq!(q.score(), vec![addr(1), addr(3), addr(2)]);
}

#[test]
fn score_breaks_ties_by_address() {
    let mut q = ParticipantQueue::new();
    q.add(addr(9), 10);
    q.add(addr(2), 10);
    q.add(addr(5), 10);
    assert_eq!(q.score(), vec![addr(2), addr(5), addr(9)]);
}

#[test]
fn score_is_deterministic() {
    let mut q = ParticipantQueue::new();
    q.add(addr(4), 3);
    q.add(addr(1), 8);
    q.add(addr(6), 8);
    let first = q.score();
    let second = q.score();
    assert_eq!(first, second);
}

#[test]
fn score_of_empty_queue_is_empty() {
    let q = ParticipantQueue::new();
    assert!(q.score().is_empty());
}

#[test]
fn prune_keeps_live_drops_dead() {
    let mut q = ParticipantQueue::new();
    q.add(addr(1), 10);
    q.add(addr(2), 20);
    q.add(addr(3), 30);
    q.prune(&vec![addr(1), addr(3)]);
    assert_eq!(q.len(), 2);
    assert_eq!(q.bid(&addr(1)), Some(10));
    assert_eq!(q.bid(&addr(2)), None);
    assert_eq!(q.bid(&addr(3)), Some(30));
}

#[test]
fn evict_drops_failed_only() {
    let mut q = ParticipantQueue::new();
    q.add(addr(1), 10);
    q.add(addr(2), 20);
    q.evict(&vec![addr(2)]);
    assert_eq!(q.len(), 1);
    assert_eq!(q.bid(&addr(1)), Some(10));
    assert_eq!(q.bid(&addr(2)), None);
}

#[test]
fn contains_address_scans() {
    let list = vec![addr(1), addr(5)];
    assert!(contains_address(&list, addr(5)));
    assert!(!contains_address(&list, addr(2)));
}

#[test]
fn inform_without_filter_reaches_everyone() {
    let mut q = ParticipantQueue::new();
    q.add(addr(1), 10);
    q.add(addr(2), 5);
    let ranked = q.score();
    let notes = q.inform(&ranked, 10, None);
    assert_eq!(
        notes,
        vec![
            Notification { address: addr(1), rank: 0, total: 2, leader_bid: 10, own_bid: 10 },
            Notification { address: addr(2), rank: 1, total: 2, leader_bid: 10, own_bid: 5 },
        ]
    );
}

#[test]
fn inform_with_filter_reaches_only_the_newcomer() {
    let mut q = ParticipantQueue::new();
    q.add(addr(1), 10);
    q.add(addr(2), 5);
    let ranked = q.score();
    let notes = q.inform(&ranked, 10, Some(addr(2)));
    assert_eq!(
        notes,
        vec![Notification { address: addr(2), rank: 1, total: 2, leader_bid: 10, own_bid: 5 }]
    );
}

#[test]
fn timeout_earns_one_strike_and_stays_alive() {
    let plan = plan_attempt(&AttemptOutcome::TimedOut);
    assert!(plan.strike);
    assert!(!plan.commit);
    assert!(!plan.confirm);
    assert_eq!(plan.fatal, None);
    assert_eq!(close_attempt(&plan, true), Ok(()));
}

#[test]
fn declined_protocol_earns_one_strike() {
    let plan = plan_attempt(&AttemptOutcome::Declined);
    assert!(plan.strike);
    assert!(!plan.commit);
    assert_eq!(plan.fatal, None);
}

#[test]
fn invalid_candidate_earns_one_strike_no_commit() {
    let plan = plan_attempt(&AttemptOutcome::Submitted { well_formed: false, linked: true });
    assert!(plan.strike);
    assert!(!plan.commit);
    let plan = plan_attempt(&AttemptOutcome::Submitted { well_formed: true, linked: false });
    assert!(plan.strike);
    assert!(!plan.commit);
    assert!(!plan.confirm);
    assert_eq!(plan.fatal, None);
}

#[test]
fn valid_candidate_commits_confirms_no_strike() {
    let plan = plan_attempt(&AttemptOutcome::Submitted { well_formed: true, linked: true });
    assert!(!plan.strike);
    assert!(plan.commit);
    assert!(plan.confirm);
    assert_eq!(plan.fatal, None);
    assert_eq!(close_attempt(&plan, true), Ok(()));
}

#[test]
fn missing_parent_is_fatal_not_a_strike() {
    let plan = plan_attempt(&AttemptOutcome::ParentMissing);
    assert!(!plan.strike);
    assert_eq!(plan.fatal, Some(CeremonyError::PhaseUninitialized));
    assert_eq!(close_attempt(&plan, true), Err(CeremonyError::PhaseUninitialized));
}

#[test]
fn session_failure_is_fatal_not_a_strike() {
    let plan = plan_attempt(&AttemptOutcome::SessionFailed);
    assert!(!plan.strike);
    assert_eq!(close_attempt(&plan, true), Err(CeremonyError::SessionFault));
}

#[test]
fn commit_failure_ends_the_run() {
    let plan = plan_attempt(&AttemptOutcome::Submitted { well_formed: true, linked: true });
    // the storage commit fails underneath an otherwise accepted candidate
    assert_eq!(close_attempt(&plan, false), Err(CeremonyError::StorageFault));
    let mut c = Coordinator::new();
    let fatal = c.advance(
        CoordinatorEvent::HandlerTerminated(Some(CeremonyError::StorageFault)),
        &vec![],
    );
    assert!(matches!(fatal, Advance::Fatal(CeremonyError::StorageFault)));
}

#[test]
fn handler_end_without_reason_is_fatal() {
    let mut c = Coordinator::new();
    let fatal = c.advance(CoordinatorEvent::HandlerTerminated(None), &vec![]);
    assert!(matches!(fatal, Advance::Fatal(CeremonyError::HandlerFinishedNoReason)));
}

#[test]
fn advance_on_empty_queue_is_idle() {
    let mut c = Coordinator::new();
    let advance = c.advance(CoordinatorEvent::Completion, &vec![]);
    assert!(matches!(advance, Advance::Idle));
}

#[test]
fn arrival_notifies_only_the_newcomer() {
    let mut c = Coordinator::new();
    let live = vec![addr(1), addr(2)];
    match c.advance(CoordinatorEvent::Arrival(addr(1), 10), &live) {
        Advance::Ready { notes, candidate, leader_bid, .. } => {
            assert_eq!(candidate, addr(1));
            assert_eq!(leader_bid, 10);
            assert_eq!(notes.len(), 1);
            assert_eq!(notes[0].address, addr(1));
        },
        _ => panic!("expected a ready advance"),
    }
    assert_eq!(c.dispatch(addr(1)), Ok(Some(addr(1))));
    // a second arrival is told its own position, nobody else is updated
    match c.advance(CoordinatorEvent::Arrival(addr(2), 5), &live) {
        Advance::Ready { notes, candidate, .. } => {
            assert_eq!(candidate, addr(2));
            assert_eq!(notes.len(), 1);
            assert_eq!(notes[0].address, addr(2));
        },
        _ => panic!("expected a ready advance"),
    }
    // but no second dispatch happens while one attempt is in flight
    assert_eq!(c.dispatch(addr(2)), Ok(None));
}

#[test]
fn dispatch_of_missing_candidate_is_internal_error() {
    let mut c = Coordinator::new();
    assert_eq!(c.dispatch(addr(9)), Err(CeremonyError::InternalInvariant));
}

#[test]
fn two_participants_timeout_then_next_is_dispatched() {
    // A (bid 10) and B (bid 5) join; the ranking puts A first
    let mut q = ParticipantQueue::new();
    q.add(addr(1), 10);
    q.add(addr(2), 5);
    assert_eq!(q.score(), vec![addr(1), addr(2)]);

    let mut c = Coordinator::new();
    let live = vec![addr(1), addr(2)];
    match c.advance(CoordinatorEvent::Arrival(addr(1), 10), &live) {
        Advance::Ready { candidate, .. } => assert_eq!(candidate, addr(1)),
        _ => panic!("expected a ready advance"),
    }
    // A is dispatched
    assert_eq!(c.dispatch(addr(1)), Ok(Some(addr(1))));
    match c.advance(CoordinatorEvent::Arrival(addr(2), 5), &live) {
        Advance::Ready { candidate, .. } => assert_eq!(candidate, addr(2)),
        _ => panic!("expected a ready advance"),
    }
    assert_eq!(c.dispatch(addr(2)), Ok(None));

    // A's attempt times out: exactly one strike, the attempt closes cleanly
    let plan = plan_attempt(&AttemptOutcome::TimedOut);
    assert!(plan.strike && !plan.commit);
    assert_eq!(close_attempt(&plan, true), Ok(()));

    // on completion the queue is re-scored; B is now head and is dispatched
    match c.advance(CoordinatorEvent::Completion, &vec![addr(2)]) {
        Advance::Ready { notes, candidate, leader_bid, .. } => {
            assert_eq!(candidate, addr(2));
            assert_eq!(leader_bid, 5);
            assert_eq!(
                notes,
                vec![Notification {
                    address: addr(2),
                    rank: 0,
                    total: 1,
                    leader_bid: 5,
                    own_bid: 5,
                }]
            );
        },
        _ => panic!("expected a ready advance"),
    }
    assert_eq!(c.dispatch(addr(2)), Ok(Some(addr(2))));
    assert_eq!(c.queue.len(), 0);
}
