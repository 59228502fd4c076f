//! The queue itself: the bookkeeping that turns results arriving in any
//! order into results leaving in the order of submission.
use vstd::prelude::*;
use futures_core::Future;
use crate::order_wrapper::OrderWrapper;
use crate::reorder_buffer::ReorderBuffer;
use crate::state::{QueueState, Report, Step};

verus! {

/// An unbounded queue of futures whose results come out in the order in
/// which the futures went in.
///
/// The futures race to completion in a set that knows no order. The queue
/// numbers them on their way in, puts aside each result that arrives ahead
/// of its turn, and hands results out strictly by number.
///
/// The queue does not drive the futures itself. `push` tags a future and
/// hands it back for the caller to add to the unordered set. A poll of the
/// queue starts with `poll_queued`; if that has nothing to release, the
/// caller polls the unordered set and passes each answer to
/// `poll_in_progress`, until that says how the poll ends.
///
/// The view of a queue is its `QueueState`, which is always well formed.
#[must_use]
pub struct FuturesOrdered<T: Future> {
    queued_results: ReorderBuffer<T::Output>,
    next_incoming_index: usize,
    next_outgoing_index: usize,
}

/// The queue never pins what it holds: it can be moved freely whatever the
/// futures and their results are.
impl<T: Future> Unpin for FuturesOrdered<T> {

}

impl<T: Future> View for FuturesOrdered<T> {
    type V = QueueState<T::Output>;

    closed spec fn view(&self) -> QueueState<T::Output> {
        QueueState {
            queued: self.queued_results@,
            next_incoming: self.next_incoming_index as nat,
            next_outgoing: self.next_outgoing_index as nat,
        }
    }
}

impl<T: Future> FuturesOrdered<T> {
    /// The state of a queue is well formed at all times.
    #[verifier::type_invariant]
    spec fn well_formed(&self) -> bool {
        self@.wf()
    }

    /// Constructs a new, empty queue.
    pub fn new() -> (queue: FuturesOrdered<T>)
        ensures
            queue@ == QueueState::<T::Output>::empty(),
    {
        FuturesOrdered {
            queued_results: ReorderBuffer::new(),
            next_incoming_index: 0,
            next_outgoing_index: 0,
        }
    }

    /// Returns the number of futures contained in the queue: those still
    /// running and those that have completed but wait for earlier ones.
    pub fn len(&self) -> (n: usize)
        ensures
            self@.wf(),
            n == self@.len(),
            n == self@.in_progress().len() + self@.queued.len(),
    {
        proof {
            use_type_invariant(self);
            self@.lemma_len_is_sum();
        }
        self.next_incoming_index - self.next_outgoing_index
    }

    /// Returns `true` if the queue contains no futures.
    pub fn is_empty(&self) -> (b: bool)
        ensures
            self@.wf(),
            b <==> self@.len() == 0,
            b <==> self@.in_progress().is_empty() && self@.queued.is_empty(),
    {
        proof {
            use_type_invariant(self);
            self@.lemma_len_is_sum();
        }
        self.next_incoming_index == self.next_outgoing_index
    }

    /// The number of futures pushed so far, which is the sequence number
    /// that the next one gets.
    pub fn next_incoming(&self) -> (n: usize)
        ensures
            n == self@.next_incoming,
    {
        self.next_incoming_index
    }

    /// The number of results handed out so far, which is the sequence number
    /// of the result to hand out next.
    pub fn next_outgoing(&self) -> (n: usize)
        ensures
            n == self@.next_outgoing,
    {
        self.next_outgoing_index
    }

    /// Takes a future into the queue: it gets the next sequence number and
    /// comes back tagged with it, to be added to the unordered set. Nothing
    /// is polled.
    ///
    /// Sequence numbers do not wrap: the queue takes no more futures once
    /// `usize::MAX` of them have been pushed.
    pub fn push(&mut self, future: T) -> (wrapped: OrderWrapper<T>)
        requires
            old(self)@.next_incoming < usize::MAX,
        ensures
            final(self)@ == old(self)@.push(),
            final(self)@.wf(),
            wrapped.item == future,
            wrapped.index == old(self)@.next_incoming,
    {
        proof {
            use_type_invariant(&*self);
            assert(self@.push().wf());
        }
        let wrapped = OrderWrapper { item: future, index: self.next_incoming_index };
        self.next_incoming_index = self.next_incoming_index + 1;
        wrapped
    }

    /// Begins a poll: releases the result whose turn it is if it has already
    /// arrived. On `None` the unordered set is to be polled.
    pub fn poll_queued(&mut self) -> (released: Option<T::Output>)
        ensures
            (final(self)@, released) == old(self)@.poll_queued(),
            final(self)@.wf(),
    {
        proof {
            use_type_invariant(&*self);
        }
        let ghost before = self@;
        let mut queued = ReorderBuffer::new();
        core::mem::swap(&mut queued, &mut self.queued_results);
        assert(queued.min_is(self.next_outgoing_index) <==> before.queued.contains_key(
            self.next_outgoing_index,
        ));
        let released = queued.peek_min_if_matches(self.next_outgoing_index);
        if released.is_some() {
            self.next_outgoing_index = self.next_outgoing_index + 1;
        }
        self.queued_results = queued;
        released
    }

    /// Whether `report` can be taken in: a result that is reported must
    /// belong to a future that is still running.
    pub fn admits(&self, report: &Report<T::Output>) -> (b: bool)
        ensures
            b == self@.admits(*report),
    {
        match report {
            Report::Completed(result) => {
                self.next_outgoing_index <= result.index && result.index
                    < self.next_incoming_index && !self.queued_results.contains(result.index)
            },
            _ => true,
        }
    }

    /// Takes in what the unordered set answered when it was polled, and says
    /// how the poll goes on: a result whose turn it is goes out at once, one
    /// that is ahead of its turn is put aside and the set is to be polled
    /// again, and on any other answer the poll ends with that answer.
    pub fn poll_in_progress(&mut self, report: Report<T::Output>) -> (step: Step<T::Output>)
        requires
            old(self)@.admits(report),
        ensures
            (final(self)@, step) == old(self)@.poll_in_progress(report),
            final(self)@.wf(),
    {
        proof {
            use_type_invariant(&*self);
        }
        match report {
            Report::Completed(result) => {
                if result.index == self.next_outgoing_index {
                    self.next_outgoing_index = self.next_outgoing_index + 1;
                    Step::Yield(result.item)
                } else {
                    let mut queued = ReorderBuffer::new();
                    core::mem::swap(&mut queued, &mut self.queued_results);
                    queued.insert(result.index, result.item);
                    self.queued_results = queued;
                    Step::PollAgain
                }
            },
            Report::Exhausted => Step::Finished,
            Report::Pending => Step::Pending,
        }
    }
}

impl<T: Future> Default for FuturesOrdered<T> {
    fn default() -> (queue: FuturesOrdered<T>)
        ensures
            queue@ == QueueState::<T::Output>::empty(),
    {
        FuturesOrdered::new()
    }
}

/// Makes a queue of a list of futures: each is pushed in turn, so that the
/// first of the list gets the sequence number zero. The queue comes back
/// together with the tagged futures, in the same order, for the unordered
/// set to run.
///
/// More futures can be pushed into the queue later.
pub fn futures_ordered<T: Future>(futures: Vec<T>) -> (made: (
    FuturesOrdered<T>,
    Vec<OrderWrapper<T>>,
))
    ensures
        made.0@ == (QueueState::<T::Output> {
            queued: Map::empty(),
            next_incoming: futures@.len(),
            next_outgoing: 0,
        }),
        made.0@.wf(),
        made.1@.len() == futures@.len(),
        forall|i: int|
            0 <= i < futures@.len() ==> (#[trigger] made.1@[i]).item == futures@[i]
                && made.1@[i].index == i,
{
    let mut queue: FuturesOrdered<T> = FuturesOrdered::new();
    let mut wrapped: Vec<OrderWrapper<T>> = Vec::new();
    assert(futures@.len() == futures.len());
    for future in it: futures
        invariant
            queue@ == (QueueState::<T::Output> {
                queued: Map::empty(),
                next_incoming: wrapped@.len(),
                next_outgoing: 0,
            }),
            wrapped@.len() == it.index(),
            it.seq() == futures@,
            futures@.len() <= usize::MAX,
            forall|i: int|
                0 <= i < wrapped@.len() ==> (#[trigger] wrapped@[i]).item == it.seq()[i]
                    && wrapped@[i].index == i,
    {
        let tagged = queue.push(future);
        wrapped.push(tagged);
    }
    (queue, wrapped)
}

} // verus!
