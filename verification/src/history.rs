//! What holds of every queue, whatever was done to it: the life of a queue
//! as a sequence of events, and what that sequence hands out.
use vstd::prelude::*;
use crate::order_wrapper::OrderWrapper;
use crate::state::{QueueState, Report, Step};

verus! {

/// One thing that happens to a queue.
pub enum Event<V> {
    /// A task is submitted.
    Push,
    /// A poll begins and looks for the next result among those put aside.
    PollQueued,
    /// During a poll, the unordered set is polled and answers with a report.
    PollInProgress(Report<V>),
}

impl<V> QueueState<V> {
    /// Whether `event` can happen in this state: a submission needs a free
    /// sequence number, and a report must be one the state admits.
    pub open spec fn allows(self, event: Event<V>) -> bool {
        match event {
            Event::Push => self.next_incoming < usize::MAX,
            Event::PollQueued => true,
            Event::PollInProgress(report) => self.admits(report),
        }
    }

    /// The state that `event` leaves behind.
    pub open spec fn after(self, event: Event<V>) -> Self {
        match event {
            Event::Push => self.push(),
            Event::PollQueued => self.poll_queued().0,
            Event::PollInProgress(report) => self.poll_in_progress(report).0,
        }
    }

    /// The result that `event` hands to the caller, if it hands one out.
    pub open spec fn hands_out(self, event: Event<V>) -> Option<V> {
        match event {
            Event::Push => None,
            Event::PollQueued => self.poll_queued().1,
            Event::PollInProgress(report) => match self.poll_in_progress(report).1 {
                Step::Yield(value) => Some(value),
                _ => None,
            },
        }
    }
}

/// The state of a queue that was new before `events` happened to it.
pub open spec fn state_after<V>(events: Seq<Event<V>>) -> QueueState<V>
    decreases events.len(),
{
    if events.len() == 0 {
        QueueState::empty()
    } else {
        state_after(events.drop_last()).after(events.last())
    }
}

/// Whether each of `events` could happen when it did.
pub open spec fn possible<V>(events: Seq<Event<V>>) -> bool
    decreases events.len(),
{
    events.len() > 0 ==> possible(events.drop_last()) && state_after(events.drop_last()).allows(
        events.last(),
    )
}

/// The results that `events` handed out, first to last.
pub open spec fn handed_out<V>(events: Seq<Event<V>>) -> Seq<V>
    decreases events.len(),
{
    if events.len() == 0 {
        Seq::empty()
    } else {
        match state_after(events.drop_last()).hands_out(events.last()) {
            Some(value) => handed_out(events.drop_last()).push(value),
            None => handed_out(events.drop_last()),
        }
    }
}

/// The number of tasks that `events` submitted.
pub open spec fn submitted<V>(events: Seq<Event<V>>) -> nat
    decreases events.len(),
{
    if events.len() == 0 {
        0
    } else if events.last() is Push {
        submitted(events.drop_last()) + 1
    } else {
        submitted(events.drop_last())
    }
}

/// The event at place `j` is the unordered set reporting `value` as the
/// result of the task numbered `index`.
pub open spec fn reported_at<V>(events: Seq<Event<V>>, j: int, index: usize, value: V) -> bool {
    0 <= j < events.len() && events[j] == Event::PollInProgress(
        Report::Completed(OrderWrapper { item: value, index }),
    )
}

/// Somewhere in `events` the unordered set reported `value` as the result of
/// the task numbered `index`.
pub open spec fn reported<V>(events: Seq<Event<V>>, index: usize, value: V) -> bool {
    exists|j: int| #[trigger] reported_at(events, j, index, value)
}

/// What a history keeps true: the state is well formed, the counters count
/// the submissions and the results handed out, every result handed out or
/// put aside was reported under its number, and the result of every task
/// that was reported has been handed out or is put aside.
spec fn coherent<V>(events: Seq<Event<V>>) -> bool {
    let state = state_after(events);
    let out = handed_out(events);
    &&& state.wf()
    &&& state.next_incoming == submitted(events)
    &&& state.next_outgoing == out.len()
    &&& forall|k: int| 0 <= k < out.len() ==> reported(events, k as usize, #[trigger] out[k])
    &&& forall|i: usize| #[trigger]
        state.queued.contains_key(i) ==> reported(events, i, state.queued[i])
    &&& forall|j: int, i: usize, value: V| #[trigger]
        reported_at(events, j, i, value) ==> i < state.next_outgoing || state.queued.contains_key(
            i,
        )
}

proof fn lemma_reported_extends<V>(events: Seq<Event<V>>, index: usize, value: V)
    requires
        events.len() > 0,
        reported(events.drop_last(), index, value),
    ensures
        reported(events, index, value),
{
    let j = choose|j: int| #[trigger] reported_at(events.drop_last(), j, index, value);
    assert(reported_at(events, j, index, value));
}

proof fn lemma_coherent<V>(events: Seq<Event<V>>)
    requires
        possible(events),
    ensures
        coherent(events),
    decreases events.len(),
{
    if events.len() > 0 {
        let earlier = events.drop_last();
        let event = events.last();
        lemma_coherent(earlier);
        let before = state_after(earlier);
        let state = state_after(events);
        let out_before = handed_out(earlier);
        let out = handed_out(events);
        let last = events.len() - 1;
        assert forall|k: int| 0 <= k < out.len() implies reported(
            events,
            k as usize,
            #[trigger] out[k],
        ) by {
            if k < out_before.len() {
                lemma_reported_extends(events, k as usize, out[k]);
            } else {
                match event {
                    Event::PollQueued => {
                        lemma_reported_extends(events, k as usize, out[k]);
                    },
                    _ => {
                        assert(reported_at(events, last, k as usize, out[k]));
                    },
                }
            }
        }
        assert forall|i: usize| #[trigger] state.queued.contains_key(i) implies reported(
            events,
            i,
            state.queued[i],
        ) by {
            if before.queued.contains_key(i) {
                lemma_reported_extends(events, i, state.queued[i]);
            } else {
                assert(reported_at(events, last, i, state.queued[i]));
            }
        }
        assert forall|j: int, i: usize, value: V| #[trigger]
            reported_at(events, j, i, value) implies i < state.next_outgoing
            || state.queued.contains_key(i) by {
            if j < last {
                assert(reported_at(earlier, j, i, value));
            }
        }
    }
}

proof fn lemma_possible_prefix<V>(events: Seq<Event<V>>, n: int)
    requires
        possible(events),
        0 <= n <= events.len(),
    ensures
        possible(events.take(n)),
    decreases events.len(),
{
    if n == events.len() {
        assert(events.take(n) =~= events);
    } else {
        assert(events.drop_last().take(n) =~= events.take(n));
        lemma_possible_prefix(events.drop_last(), n);
    }
}

/// Whatever happens to a queue, its state stays well formed.
pub proof fn lemma_state_stays_well_formed<V>(events: Seq<Event<V>>)
    requires
        possible(events),
    ensures
        state_after(events).wf(),
{
    lemma_coherent(events);
}

/// Tasks are numbered in the order of their submission: a task submitted
/// after `n` others gets the number `n`.
pub proof fn lemma_numbered_by_submission<V>(events: Seq<Event<V>>, j: int)
    requires
        possible(events),
        0 <= j < events.len(),
        events[j] is Push,
    ensures
        state_after(events.take(j)).next_incoming == submitted(events.take(j)),
        submitted(events.take(j + 1)) == submitted(events.take(j)) + 1,
{
    lemma_possible_prefix(events, j);
    lemma_coherent(events.take(j));
    assert(events.take(j + 1).drop_last() =~= events.take(j));
}

/// A queue holds the tasks that were submitted less those whose result was
/// handed out: after `k` submissions and `m` results, its length is `k - m`.
pub proof fn lemma_len_counts<V>(events: Seq<Event<V>>)
    requires
        possible(events),
    ensures
        handed_out(events).len() <= submitted(events),
        state_after(events).len() == submitted(events) - handed_out(events).len(),
{
    lemma_coherent(events);
}

/// Results leave in the order of submission: the result handed out in place
/// `k` is the one that the unordered set reported for the task numbered `k`,
/// which is the task submitted in place `k`, whenever that report came.
pub proof fn lemma_results_in_submission_order<V>(events: Seq<Event<V>>, k: int)
    requires
        possible(events),
        0 <= k < handed_out(events).len(),
    ensures
        k < submitted(events) <= usize::MAX,
        reported(events, k as usize, handed_out(events)[k]),
{
    lemma_coherent(events);
}

/// The unordered set reports each task at most once.
pub proof fn lemma_reported_once<V>(
    events: Seq<Event<V>>,
    index: usize,
    j1: int,
    value1: V,
    j2: int,
    value2: V,
)
    requires
        possible(events),
        reported_at(events, j1, index, value1),
        reported_at(events, j2, index, value2),
    ensures
        j1 == j2,
{
    if j1 != j2 {
        let (first, second, value) = if j1 < j2 {
            (j1, j2, value1)
        } else {
            (j2, j1, value2)
        };
        let earlier = events.take(second);
        lemma_possible_prefix(events, second);
        lemma_possible_prefix(events, second + 1);
        lemma_coherent(earlier);
        assert(events.take(second + 1).drop_last() =~= earlier);
        assert(reported_at(earlier, first, index, value));
        assert(state_after(earlier).allows(events[second]));
    }
}

/// No result leaves ahead of its turn: when the unordered set reports a
/// task, no more results have been handed out than tasks were submitted
/// before it; if fewer have, the report hands nothing out and the result is
/// put aside.
pub proof fn lemma_no_early_release<V>(events: Seq<Event<V>>, j: int, result: OrderWrapper<V>)
    requires
        possible(events),
        0 <= j < events.len(),
        events[j] == Event::PollInProgress(Report::Completed(result)),
    ensures
        handed_out(events.take(j)).len() <= result.index,
        handed_out(events.take(j)).len() < result.index ==> {
            &&& handed_out(events.take(j + 1)) == handed_out(events.take(j))
            &&& state_after(events.take(j + 1)).queued.contains_key(result.index)
            &&& state_after(events.take(j + 1)).queued[result.index] == result.item
        },
        handed_out(events.take(j)).len() == result.index ==> handed_out(events.take(j + 1))
            == handed_out(events.take(j)).push(result.item),
{
    let earlier = events.take(j);
    lemma_possible_prefix(events, j);
    lemma_possible_prefix(events, j + 1);
    lemma_coherent(earlier);
    assert(events.take(j + 1).drop_last() =~= earlier);
    assert(events.take(j + 1).last() == events[j]);
    assert(state_after(earlier).allows(events[j]));
}

/// When a poll ends because the unordered set is exhausted, every result has
/// been handed out: if the last of `events` is the report of exhaustion, the
/// set indeed held nothing, and the poll had found nothing to release among
/// the results put aside, then as many results were handed out as tasks
/// were submitted.
pub proof fn lemma_finished_after_all_results<V>(events: Seq<Event<V>>)
    requires
        possible(events),
        events.len() > 0,
        events.last() == Event::<V>::PollInProgress(Report::Exhausted),
        state_after(events.drop_last()).in_progress().is_empty(),
        state_after(events.drop_last()).poll_queued().1 is None,
    ensures
        handed_out(events).len() == submitted(events),
        state_after(events).len() == 0,
{
    lemma_coherent(events);
    state_after(events).lemma_exhausted_is_empty();
}

} // verus!
