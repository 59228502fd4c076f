//! The queue as mathematics: what it holds, and how each operation changes
//! it.
use vstd::prelude::*;
use vstd::set_lib::{lemma_set_difference_len, range_set_properties};
use crate::order_wrapper::OrderWrapper;

verus! {

/// What the unordered set of running tasks answers when it is polled.
#[derive(Debug)]
pub enum Report<V> {
    /// A task has completed; its result comes tagged with the task's
    /// sequence number.
    Completed(OrderWrapper<V>),
    /// The set holds no task.
    Exhausted,
    /// Tasks are running and none of them has completed.
    Pending,
}

/// What a poll of the queue comes to once the unordered set has answered.
#[derive(Debug)]
pub enum Step<V> {
    /// The next result in line is handed out.
    Yield(V),
    /// Nothing is left to wait for.
    Finished,
    /// The next result is not there yet: the poll suspends.
    Pending,
    /// A result came in ahead of its turn and was put aside: the unordered
    /// set is to be polled again.
    PollAgain,
}

/// The state of a queue.
///
/// Tasks are numbered in the order of their submission, from zero. The tasks
/// numbered below `next_outgoing` have had their results handed out; those
/// from `next_outgoing` up to `next_incoming` have a result either put aside
/// in `queued` or still to come.
pub struct QueueState<V> {
    /// The results that came in ahead of their turn, by sequence number.
    pub queued: Map<usize, V>,
    /// The number of tasks submitted so far, which is the sequence number the
    /// next task gets.
    pub next_incoming: nat,
    /// The number of results handed out so far, which is the sequence number
    /// of the result to hand out next.
    pub next_outgoing: nat,
}

impl<V> QueueState<V> {
    /// The state of a new queue.
    pub open spec fn empty() -> Self {
        QueueState { queued: Map::empty(), next_incoming: 0, next_outgoing: 0 }
    }

    /// Sequence numbers fit the machine, nothing is handed out before it is
    /// submitted, and every result put aside belongs to a task that was
    /// submitted and whose turn has not passed.
    pub open spec fn wf(self) -> bool {
        &&& self.next_outgoing <= self.next_incoming <= usize::MAX
        &&& forall|k: usize|
            self.queued.contains_key(k) ==> self.next_outgoing <= k < self.next_incoming
    }

    /// The sequence numbers of the tasks that are still running.
    pub open spec fn in_progress(self) -> Set<usize> {
        Set::new(
            |k: usize| self.next_outgoing <= k < self.next_incoming && !self.queued.contains_key(k),
        )
    }

    /// The number of tasks whose result has not been handed out.
    pub open spec fn len(self) -> nat {
        (self.next_incoming - self.next_outgoing) as nat
    }

    /// A task is submitted. It gets the sequence number `self.next_incoming`.
    pub open spec fn push(self) -> Self {
        QueueState { next_incoming: self.next_incoming + 1, ..self }
    }

    /// A poll begins: if the result whose turn it is has been put aside, it
    /// is taken out and handed over.
    pub open spec fn poll_queued(self) -> (Self, Option<V>) {
        let turn = self.next_outgoing as usize;
        if self.queued.contains_key(turn) {
            (
                QueueState {
                    queued: self.queued.remove(turn),
                    next_outgoing: self.next_outgoing + 1,
                    ..self
                },
                Some(self.queued[turn]),
            )
        } else {
            (self, None)
        }
    }

    /// Whether `report` can come from the unordered set in this state: a
    /// result that is reported belongs to a task that is still running.
    pub open spec fn admits(self, report: Report<V>) -> bool {
        report matches Report::Completed(result) ==> self.in_progress().contains(result.index)
    }

    /// The unordered set has answered `report`: a result whose turn it is
    /// goes out, one that is ahead of its turn is put aside, and anything
    /// else ends the poll.
    pub open spec fn poll_in_progress(self, report: Report<V>) -> (Self, Step<V>) {
        match report {
            Report::Completed(result) => {
                if result.index == self.next_outgoing {
                    (
                        QueueState { next_outgoing: self.next_outgoing + 1, ..self },
                        Step::Yield(result.item),
                    )
                } else {
                    (
                        QueueState {
                            queued: self.queued.insert(result.index, result.item),
                            ..self
                        },
                        Step::PollAgain,
                    )
                }
            },
            Report::Exhausted => (self, Step::Finished),
            Report::Pending => (self, Step::Pending),
        }
    }

    /// The tasks still running and the results put aside add up to `len`.
    pub proof fn lemma_len_is_sum(self)
        requires
            self.wf(),
        ensures
            self.in_progress().finite(),
            self.queued.dom().finite(),
            self.in_progress().len() + self.queued.len() == self.len(),
    {
        let all = Set::<usize>::range(self.next_outgoing as usize, self.next_incoming as usize);
        range_set_properties::<usize>(self.next_outgoing as usize, self.next_incoming as usize);
        assert(self.queued.dom().subset_of(all));
        lemma_set_difference_len(all, self.queued.dom());
        assert(all.intersect(self.queued.dom()) =~= self.queued.dom());
        assert(all.difference(self.queued.dom()) =~= self.in_progress());
    }

    /// A queue that holds nothing is finished, and stays so: a poll finds
    /// nothing put aside, no task is running, and when the unordered set
    /// reports that it is exhausted the poll ends with `Finished` and the
    /// state as it was. This is how a new queue answers its first poll.
    pub proof fn lemma_empty_queue_is_finished(self)
        requires
            self.wf(),
            self.len() == 0,
        ensures
            self.poll_queued() == (self, None::<V>),
            self.in_progress().is_empty(),
            self.poll_in_progress(Report::Exhausted) == (self, Step::<V>::Finished),
    {
    }

    /// A state in which no task is running and the result whose turn it is
    /// has not been put aside holds nothing at all.
    pub proof fn lemma_exhausted_is_empty(self)
        requires
            self.wf(),
            self.in_progress().is_empty(),
            self.poll_queued().1 is None,
        ensures
            self.len() == 0,
            self.queued.is_empty(),
    {
        if self.next_outgoing < self.next_incoming {
            assert(self.in_progress().contains(self.next_outgoing as usize));
        }
    }

    /// No result waits longer than it must: if something is owed and the
    /// task whose turn it is runs no more, its result has been put aside, and
    /// the next poll hands it out without asking the unordered set.
    pub proof fn lemma_completed_turn_is_released(self)
        requires
            self.wf(),
            self.len() > 0,
            !self.in_progress().contains(self.next_outgoing as usize),
        ensures
            self.queued.contains_key(self.next_outgoing as usize),
            self.poll_queued().1 == Some(self.queued[self.next_outgoing as usize]),
            self.poll_queued().0.wf(),
            self.poll_queued().0.len() == self.len() - 1,
            self.poll_queued().0.in_progress() == self.in_progress(),
    {
        assert(self.poll_queued().0.in_progress() =~= self.in_progress());
    }

    /// A queue that has finished takes up work again. Say a poll found
    /// nothing put aside and the unordered set was exhausted, so that the
    /// poll ended with `Finished`. Then the next task submitted is the next
    /// in line: a poll finds nothing put aside, and hands the task's result
    /// out as soon as the set reports it.
    pub proof fn lemma_resumes_after_exhaustion(self, value: V)
        requires
            self.wf(),
            self.poll_queued().1 is None,
            self.in_progress().is_empty(),
            self.next_incoming < usize::MAX,
        ensures
            self.poll_in_progress(Report::Exhausted) == (self, Step::<V>::Finished),
            ({
                let resumed = self.push();
                let report = Report::Completed(
                    OrderWrapper { item: value, index: self.next_incoming as usize },
                );
                &&& resumed.wf()
                &&& resumed.len() == 1
                &&& resumed.poll_queued() == (resumed, None::<V>)
                &&& resumed.admits(report)
                &&& resumed.poll_in_progress(report).1 == Step::Yield(value)
                &&& resumed.poll_in_progress(report).0.len() == 0
            }),
    {
        self.lemma_exhausted_is_empty();
    }

    /// Each result that the unordered set reports takes its task out of the
    /// running ones, so a poll that starts with `n` tasks running asks the
    /// set at most `n + 1` times.
    pub proof fn lemma_report_shrinks_in_progress(self, result: OrderWrapper<V>)
        requires
            self.wf(),
            self.admits(Report::Completed(result)),
        ensures
            ({
                let next = self.poll_in_progress(Report::Completed(result)).0;
                &&& next.wf()
                &&& self.in_progress().finite()
                &&& next.in_progress() == self.in_progress().remove(result.index)
                &&& next.in_progress().len() + 1 == self.in_progress().len()
            }),
    {
        let next = self.poll_in_progress(Report::Completed(result)).0;
        self.lemma_len_is_sum();
        assert(next.in_progress() =~= self.in_progress().remove(result.index));
    }
}

} // verus!
