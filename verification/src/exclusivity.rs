use vstd::prelude::*;

use crate::coordinator::{CoordinatorEvent, want_after};

verus! {

/// Whether a contribution is wanted before iteration `i` of a run, given the
/// events served and which iterations dispatched a contributor. A run starts
/// wanting a contribution; each iteration first applies its event and then,
/// if it dispatched, clears the want.
pub open spec fn want_at(events: Seq<CoordinatorEvent>, dispatched: Seq<bool>, i: int) -> bool
    decreases i,
{
    if i <= 0 {
        true
    } else if dispatched[i - 1] {
        false
    } else {
        want_after(want_at(events, dispatched, i - 1), events[i - 1])
    }
}

/// How many contributors were dispatched before iteration `i`.
pub open spec fn dispatches_before(dispatched: Seq<bool>, i: int) -> int
    decreases i,
{
    if i <= 0 {
        0
    } else {
        dispatches_before(dispatched, i - 1) + (if dispatched[i - 1] {
            1int
        } else {
            0int
        })
    }
}

/// How many completion signals arrived before iteration `i`.
pub open spec fn completions_before(events: Seq<CoordinatorEvent>, i: int) -> int
    decreases i,
{
    if i <= 0 {
        0
    } else {
        completions_before(events, i - 1) + (if events[i - 1] is Completion {
            1int
        } else {
            0int
        })
    }
}

/// A trace is valid when every dispatch happened only while a contribution
/// was wanted after the iteration's event was applied — exactly what
/// `Coordinator::dispatch` ensures of a dispatch it reports.
pub open spec fn valid_trace(events: Seq<CoordinatorEvent>, dispatched: Seq<bool>) -> bool {
    &&& events.len() == dispatched.len()
    &&& forall|i: int|
        0 <= i < events.len() && #[trigger] dispatched[i] ==> want_after(
            want_at(events, dispatched, i),
            events[i],
        )
}

/// The completion channel has capacity one and the handler only signals
/// after being handed a contributor, so a completion can only arrive while
/// an attempt is outstanding.
pub open spec fn channel_consistent(events: Seq<CoordinatorEvent>, dispatched: Seq<bool>) -> bool {
    forall|i: int|
        0 <= i < events.len() && (#[trigger] events[i]) is Completion ==> completions_before(
            events,
            i,
        ) < dispatches_before(dispatched, i)
}

/// At most one contribution in flight: along any valid trace, the number of
/// dispatched-but-unfinished attempts is zero exactly while a contribution
/// is wanted, and never exceeds one, whatever order arrivals and completions
/// interleave in.
pub proof fn lemma_at_most_one_in_flight(
    events: Seq<CoordinatorEvent>,
    dispatched: Seq<bool>,
    i: int,
)
    requires
        valid_trace(events, dispatched),
        channel_consistent(events, dispatched),
        0 <= i <= events.len(),
    ensures
        dispatches_before(dispatched, i) - completions_before(events, i) == (if want_at(
            events,
            dispatched,
            i,
        ) {
            0int
        } else {
            1int
        }),
        0 <= dispatches_before(dispatched, i) - completions_before(events, i) <= 1,
    decreases i,
{
    if i > 0 {
        lemma_at_most_one_in_flight(events, dispatched, i - 1);
        let e = events[i - 1];
        if e is Completion {
            assert(completions_before(events, i - 1) < dispatches_before(dispatched, i - 1));
            assert(!want_at(events, dispatched, i - 1));
        }
        if dispatched[i - 1] {
            assert(want_after(want_at(events, dispatched, i - 1), e));
        }
    }
}

/// The want before iteration `i` only looks at iterations before `i`, so a
/// longer trace agrees with its prefixes.
proof fn lemma_want_at_prefix(
    events: Seq<CoordinatorEvent>,
    dispatched: Seq<bool>,
    e: CoordinatorEvent,
    d: bool,
    i: int,
)
    requires
        events.len() == dispatched.len(),
        0 <= i <= events.len(),
    ensures
        want_at(events.push(e), dispatched.push(d), i) == want_at(events, dispatched, i),
    decreases i,
{
    if i > 0 {
        lemma_want_at_prefix(events, dispatched, e, d, i - 1);
        assert(events.push(e)[i - 1] == events[i - 1]);
        assert(dispatched.push(d)[i - 1] == dispatched[i - 1]);
    }
}

/// One more iteration keeps a trace valid, provided it dispatched only while
/// a contribution was wanted after its event — which is exactly what
/// `Coordinator::dispatch` reports. So any run assembled from `advance` and
/// `dispatch` calls falls under `lemma_at_most_one_in_flight`.
pub proof fn lemma_trace_extend(
    events: Seq<CoordinatorEvent>,
    dispatched: Seq<bool>,
    e: CoordinatorEvent,
    d: bool,
)
    requires
        valid_trace(events, dispatched),
        d ==> want_after(want_at(events, dispatched, events.len() as int), e),
    ensures
        valid_trace(events.push(e), dispatched.push(d)),
{
    let events2 = events.push(e);
    let dispatched2 = dispatched.push(d);
    assert forall|i: int|
        0 <= i < events2.len() && #[trigger] dispatched2[i] implies want_after(
        want_at(events2, dispatched2, i),
        events2[i],
    ) by {
        lemma_want_at_prefix(events, dispatched, e, d, i);
        if i < events.len() {
            assert(dispatched2[i] == dispatched[i]);
            assert(events2[i] == events[i]);
        } else {
            assert(events2[i] == e);
        }
    }
}

} // verus!
