use vstd::prelude::*;

use crate::types::CeremonyError;

verus! {

/// What one contribution attempt amounted to, as observed once the protocol
/// resolved, the deadline expired, or a collaborator failed.
pub enum AttemptOutcome {
    /// Storage had no current reference state: the phase was never
    /// initialized, which is an internal fault, not a participant fault.
    ParentMissing,
    /// The deadline elapsed before the participant's protocol resolved.
    TimedOut,
    /// The participant's session failed outright while producing a candidate.
    SessionFailed,
    /// The protocol finished without a candidate: the participant declined.
    Declined,
    /// The participant submitted a candidate in time; the two verdicts say
    /// whether it is well-formed against the root and whether it links to the
    /// parent it was meant to extend.
    Submitted { well_formed: bool, linked: bool },
}

/// Everything the handler owes once an attempt is classified. At most one of
/// `strike` and `commit` is set, and `confirm` accompanies `commit` exactly.
pub struct AttemptPlan {
    /// Record exactly one strike against the contributor's address.
    pub strike: bool,
    /// Commit the validated contribution under the contributor's address.
    pub commit: bool,
    /// Send the contributor a confirmation carrying the post-commit slot.
    pub confirm: bool,
    /// End the handler with this error instead of closing the attempt.
    pub fatal: Option<CeremonyError>,
}

/// An attempt is accepted exactly when the candidate arrived in time, is
/// well-formed and is linked to its parent.
pub open spec fn accepts(outcome: AttemptOutcome) -> bool {
    outcome matches AttemptOutcome::Submitted { well_formed, linked } && well_formed && linked
}

/// The collaborator faults that end the handler instead of closing the
/// attempt; participant faults never appear here.
pub open spec fn fault_of(outcome: AttemptOutcome) -> Option<CeremonyError> {
    match outcome {
        AttemptOutcome::ParentMissing => Some(CeremonyError::PhaseUninitialized),
        AttemptOutcome::SessionFailed => Some(CeremonyError::SessionFault),
        _ => None,
    }
}

/// The plan owed for each outcome: accepted attempts commit and confirm;
/// every other non-fatal outcome strikes; faults carry their error.
pub open spec fn plan_spec(outcome: AttemptOutcome) -> AttemptPlan {
    AttemptPlan {
        strike: fault_of(outcome) is None && !accepts(outcome),
        commit: accepts(outcome),
        confirm: accepts(outcome),
        fatal: fault_of(outcome),
    }
}

/// Classifies one closed contribution attempt: timeouts, declined protocols
/// and candidates that fail either validation predicate earn exactly one
/// strike and no commit; a candidate that passes both is committed and
/// confirmed with no strike; collaborator faults are passed on as fatal.
pub fn plan_attempt(outcome: &AttemptOutcome) -> (p: AttemptPlan)
    ensures
        p == plan_spec(*outcome),
        p.commit == accepts(*outcome),
        p.confirm == accepts(*outcome),
        p.fatal == fault_of(*outcome),
        p.strike <==> (fault_of(*outcome) is None && !accepts(*outcome)),
        !(p.strike && p.commit),
{
    match outcome {
        AttemptOutcome::ParentMissing => AttemptPlan {
            strike: false,
            commit: false,
            confirm: false,
            fatal: Some(CeremonyError::PhaseUninitialized),
        },
        AttemptOutcome::TimedOut => AttemptPlan {
            strike: true,
            commit: false,
            confirm: false,
            fatal: None,
        },
        AttemptOutcome::SessionFailed => AttemptPlan {
            strike: false,
            commit: false,
            confirm: false,
            fatal: Some(CeremonyError::SessionFault),
        },
        AttemptOutcome::Declined => AttemptPlan {
            strike: true,
            commit: false,
            confirm: false,
            fatal: None,
        },
        AttemptOutcome::Submitted { well_formed, linked } => {
            if *well_formed && *linked {
                AttemptPlan { strike: false, commit: true, confirm: true, fatal: None }
            } else {
                AttemptPlan { strike: true, commit: false, confirm: false, fatal: None }
            }
        },
    }
}

/// Closes the attempt once the plan's effects ran. A collaborator fault ends
/// the handler with its error; a failed storage effect (strike write, commit,
/// slot read or confirmation send) is fatal too, since the ceremony's state
/// can no longer be trusted; otherwise the attempt is closed and a completion
/// signal is owed to the coordinator.
pub fn close_attempt(plan: &AttemptPlan, effects_ok: bool) -> (r: Result<(), CeremonyError>)
    ensures
        plan.fatal matches Some(e) ==> r == Err::<(), CeremonyError>(e),
        plan.fatal is None && !effects_ok ==> r == Err::<(), CeremonyError>(
            CeremonyError::StorageFault,
        ),
        plan.fatal is None && effects_ok ==> r == Ok::<(), CeremonyError>(()),
{
    match plan.fatal {
        Some(e) => Err(e),
        None => {
            if effects_ok {
                Ok(())
            } else {
                Err(CeremonyError::StorageFault)
            }
        },
    }
}

/// Strike-on-timeout: a participant whose protocol never resolves inside the
/// budget earns exactly one strike, no commit, and the run stays alive.
pub proof fn lemma_strike_on_timeout(outcome: AttemptOutcome)
    requires
        outcome is TimedOut,
    ensures
        plan_spec(outcome).strike,
        !plan_spec(outcome).commit,
        !plan_spec(outcome).confirm,
        plan_spec(outcome).fatal is None,
{
}

/// Strike-on-invalid: a candidate that fails the validation predicate or the
/// parent-link predicate, or a declined protocol, earns exactly one strike
/// and is never committed.
pub proof fn lemma_strike_on_invalid(outcome: AttemptOutcome)
    requires
        !accepts(outcome),
        fault_of(outcome) is None,
    ensures
        plan_spec(outcome).strike,
        !plan_spec(outcome).commit,
        !plan_spec(outcome).confirm,
        plan_spec(outcome).fatal is None,
{
}

/// Successful path: a candidate that validates and links is committed and
/// confirmed exactly once, with zero strikes for its address.
pub proof fn lemma_accept_commits_once(outcome: AttemptOutcome)
    requires
        accepts(outcome),
    ensures
        plan_spec(outcome).commit,
        plan_spec(outcome).confirm,
        !plan_spec(outcome).strike,
        plan_spec(outcome).fatal is None,
{
}

} // verus!
