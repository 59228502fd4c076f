use futures_ordered::order_wrapper::OrderWrapper;
use futures_ordered::queue::{futures_ordered, FuturesOrdered};
use futures_ordered::state::{Report, Step};
use std::future::{ready, Ready};
use std::task::Poll;

/// A stand-in for the unordered set: every task completes a given number of
/// rounds after the script started.
struct Script<V> {
    running: Vec<(OrderWrapper<Ready<V>>, u32)>,
    round: u32,
}

impl<V> Script<V> {
    fn new() -> Self {
        Script { running: Vec::new(), round: 0 }
    }

    fn add(&mut self, task: OrderWrapper<Ready<V>>, rounds: u32) {
        self.running.push((task, self.round + rounds));
    }

    fn poll(&mut self) -> Report<V> {
        if self.running.is_empty() {
            return Report::Exhausted;
        }
        match self.running.iter().position(|(_, due)| *due <= self.round) {
            Some(at) => {
                let (task, _) = self.running.swap_remove(at);
                let index = task.index;
                Report::Completed(OrderWrapper { item: task.item.into_inner(), index })
            }
            None => Report::Pending,
        }
    }
}

/// One poll of the queue against the script, then one round passes.
fn poll<V>(queue: &mut FuturesOrdered<Ready<V>>, script: &mut Script<V>) -> Poll<Option<V>> {
    let outcome = poll_once(queue, script);
    script.round += 1;
    outcome
}

fn poll_once<V>(queue: &mut FuturesOrdered<Ready<V>>, script: &mut Script<V>) -> Poll<Option<V>> {
    if let Some(value) = queue.poll_queued() {
        return Poll::Ready(Some(value));
    }
    loop {
        let report = script.poll();
        assert!(queue.admits(&report));
        match queue.poll_in_progress(report) {
            Step::Yield(value) => return Poll::Ready(Some(value)),
            Step::Finished => return Poll::Ready(None),
            Step::Pending => return Poll::Pending,
            Step::PollAgain => {}
        }
    }
}

fn submit<V>(queue: &mut FuturesOrdered<Ready<V>>, script: &mut Script<V>, value: V, rounds: u32) {
    assert!(queue.next_incoming() < usize::MAX);
    let task = queue.push(ready(value));
    script.add(task, rounds);
}

/// Polls until the queue is finished and collects what it hands out.
fn drain<V>(queue: &mut FuturesOrdered<Ready<V>>, script: &mut Script<V>) -> Vec<V> {
    let mut out = Vec::new();
    loop {
        match poll(queue, script) {
            Poll::Ready(Some(value)) => out.push(value),
            Poll::Ready(None) => return out,
            Poll::Pending => {}
        }
    }
}

#[test]
fn new_queue_is_finished_on_first_poll() {
    let mut queue: FuturesOrdered<Ready<u32>> = FuturesOrdered::new();
    let mut script = Script::new();
    assert_eq!(queue.len(), 0);
    assert!(queue.is_empty());
    assert_eq!(queue.poll_queued(), None);
    assert!(matches!(queue.poll_in_progress(Report::Exhausted), Step::Finished));
    assert_eq!(poll(&mut queue, &mut script), Poll::Ready(None));
}

#[test]
fn finished_queue_stays_finished() {
    let mut queue: FuturesOrdered<Ready<u32>> = FuturesOrdered::new();
    let mut script = Script::new();
    submit(&mut queue, &mut script, 7, 0);
    assert_eq!(poll(&mut queue, &mut script), Poll::Ready(Some(7)));
    for _ in 0..3 {
        assert_eq!(poll(&mut queue, &mut script), Poll::Ready(None));
        assert!(queue.is_empty());
    }
}

#[test]
fn resumes_after_exhaustion() {
    let mut queue: FuturesOrdered<Ready<&str>> = FuturesOrdered::new();
    let mut script = Script::new();
    assert_eq!(poll(&mut queue, &mut script), Poll::Ready(None));
    submit(&mut queue, &mut script, "late", 0);
    assert_eq!(queue.len(), 1);
    assert_eq!(poll(&mut queue, &mut script), Poll::Ready(Some("late")));
    assert_eq!(poll(&mut queue, &mut script), Poll::Ready(None));
    submit(&mut queue, &mut script, "later", 2);
    assert_eq!(poll(&mut queue, &mut script), Poll::Pending);
    assert_eq!(poll(&mut queue, &mut script), Poll::Pending);
    assert_eq!(poll(&mut queue, &mut script), Poll::Ready(Some("later")));
    assert_eq!(poll(&mut queue, &mut script), Poll::Ready(None));
}

#[test]
fn len_is_submitted_less_released() {
    let mut queue: FuturesOrdered<Ready<usize>> = FuturesOrdered::new();
    let mut script = Script::new();
    for k in 0..5 {
        assert_eq!(queue.len(), k);
        submit(&mut queue, &mut script, k, (5 - k) as u32);
    }
    assert_eq!(queue.len(), 5);
    assert!(!queue.is_empty());
    let mut released = 0;
    while released < 5 {
        if let Poll::Ready(Some(value)) = poll(&mut queue, &mut script) {
            assert_eq!(value, released);
            released += 1;
        }
        assert_eq!(queue.len(), 5 - released);
        assert_eq!(queue.next_incoming(), 5);
        assert_eq!(queue.next_outgoing(), released);
    }
    assert!(queue.is_empty());
}

#[test]
fn len_counts_results_put_aside() {
    let mut queue: FuturesOrdered<Ready<u8>> = FuturesOrdered::new();
    let _a = queue.push(ready(1));
    let _b = queue.push(ready(2));
    let _c = queue.push(ready(3));
    assert_eq!(queue.poll_queued(), None);
    let report = Report::Completed(OrderWrapper { item: 3, index: 2 });
    assert!(matches!(queue.poll_in_progress(report), Step::PollAgain));
    assert_eq!(queue.len(), 3);
    let report = Report::Completed(OrderWrapper { item: 1, index: 0 });
    assert!(matches!(queue.poll_in_progress(report), Step::Yield(1)));
    assert_eq!(queue.len(), 2);
}

#[test]
fn no_early_release() {
    let mut queue: FuturesOrdered<Ready<&str>> = FuturesOrdered::new();
    let mut script = Script::new();
    submit(&mut queue, &mut script, "zero", 3);
    submit(&mut queue, &mut script, "one", 5);
    submit(&mut queue, &mut script, "two", 0);
    assert_eq!(poll(&mut queue, &mut script), Poll::Pending);
    assert_eq!(queue.len(), 3);
    assert_eq!(queue.next_outgoing(), 0);
    assert_eq!(poll(&mut queue, &mut script), Poll::Pending);
    assert_eq!(poll(&mut queue, &mut script), Poll::Pending);
    assert_eq!(poll(&mut queue, &mut script), Poll::Ready(Some("zero")));
    assert_eq!(poll(&mut queue, &mut script), Poll::Pending);
    assert_eq!(poll(&mut queue, &mut script), Poll::Ready(Some("one")));
    assert_eq!(poll(&mut queue, &mut script), Poll::Ready(Some("two")));
    assert_eq!(poll(&mut queue, &mut script), Poll::Ready(None));
}

#[test]
fn three_tasks_last_one_first() {
    let mut queue: FuturesOrdered<Ready<char>> = FuturesOrdered::new();
    let mut script = Script::new();
    submit(&mut queue, &mut script, 'A', 2);
    submit(&mut queue, &mut script, 'B', 3);
    submit(&mut queue, &mut script, 'C', 0);
    assert_eq!(poll(&mut queue, &mut script), Poll::Pending);
    assert_eq!(poll(&mut queue, &mut script), Poll::Pending);
    assert_eq!(poll(&mut queue, &mut script), Poll::Ready(Some('A')));
    assert_eq!(poll(&mut queue, &mut script), Poll::Ready(Some('B')));
    // C has been waiting: it needs nothing from the unordered set.
    assert!(script.running.is_empty());
    assert_eq!(queue.poll_queued(), Some('C'));
    assert_eq!(poll(&mut queue, &mut script), Poll::Ready(None));
}

#[test]
fn three_tasks_with_a_wait_between() {
    let mut queue: FuturesOrdered<Ready<char>> = FuturesOrdered::new();
    let mut script = Script::new();
    submit(&mut queue, &mut script, 'A', 1);
    submit(&mut queue, &mut script, 'B', 4);
    submit(&mut queue, &mut script, 'C', 0);
    assert_eq!(poll(&mut queue, &mut script), Poll::Pending);
    assert_eq!(poll(&mut queue, &mut script), Poll::Ready(Some('A')));
    assert_eq!(poll(&mut queue, &mut script), Poll::Pending);
    assert_eq!(poll(&mut queue, &mut script), Poll::Pending);
    assert_eq!(poll(&mut queue, &mut script), Poll::Ready(Some('B')));
    assert_eq!(poll(&mut queue, &mut script), Poll::Ready(Some('C')));
    assert_eq!(poll(&mut queue, &mut script), Poll::Ready(None));
}

#[test]
fn results_come_in_submission_order() {
    let n: usize = 200;
    let mut queue: FuturesOrdered<Ready<usize>> = FuturesOrdered::new();
    let mut script = Script::new();
    let mut seed: u32 = 12345;
    for k in 0..n {
        seed = seed.wrapping_mul(1103515245).wrapping_add(12345);
        submit(&mut queue, &mut script, k * 10, (seed >> 16) % 50);
    }
    let out = drain(&mut queue, &mut script);
    let expected: Vec<usize> = (0..n).map(|k| k * 10).collect();
    assert_eq!(out, expected);
    assert!(queue.is_empty());
}

#[test]
fn reverse_completion_still_leaves_in_order() {
    let n: u32 = 64;
    let mut queue: FuturesOrdered<Ready<u32>> = FuturesOrdered::new();
    let mut script = Script::new();
    for k in 0..n {
        submit(&mut queue, &mut script, k, n - k);
    }
    let out = drain(&mut queue, &mut script);
    assert_eq!(out, (0..n).collect::<Vec<u32>>());
}

#[test]
fn all_ready_at_once_come_out_in_one_sweep() {
    let mut queue: FuturesOrdered<Ready<u32>> = FuturesOrdered::new();
    let mut script = Script::new();
    for k in 0..10 {
        submit(&mut queue, &mut script, k, 0);
    }
    for k in 0..10 {
        assert_eq!(poll(&mut queue, &mut script), Poll::Ready(Some(k)));
    }
    assert_eq!(poll(&mut queue, &mut script), Poll::Ready(None));
}

#[test]
fn push_while_polling_keeps_the_order() {
    let mut queue: FuturesOrdered<Ready<&str>> = FuturesOrdered::new();
    let mut script = Script::new();
    submit(&mut queue, &mut script, "first", 2);
    assert_eq!(poll(&mut queue, &mut script), Poll::Pending);
    submit(&mut queue, &mut script, "second", 0);
    assert_eq!(poll(&mut queue, &mut script), Poll::Pending);
    submit(&mut queue, &mut script, "third", 0);
    assert_eq!(queue.len(), 3);
    assert_eq!(poll(&mut queue, &mut script), Poll::Ready(Some("first")));
    assert_eq!(poll(&mut queue, &mut script), Poll::Ready(Some("second")));
    assert_eq!(poll(&mut queue, &mut script), Poll::Ready(Some("third")));
    assert_eq!(poll(&mut queue, &mut script), Poll::Ready(None));
}

#[test]
fn failures_travel_like_any_other_result() {
    let mut queue: FuturesOrdered<Ready<Result<u8, String>>> = FuturesOrdered::new();
    let mut script = Script::new();
    submit(&mut queue, &mut script, Ok(1), 2);
    submit(&mut queue, &mut script, Err(String::from("broken")), 0);
    submit(&mut queue, &mut script, Ok(3), 1);
    let out = drain(&mut queue, &mut script);
    assert_eq!(out, vec![Ok(1), Err(String::from("broken")), Ok(3)]);
}

#[test]
fn push_tags_with_consecutive_numbers() {
    let mut queue: FuturesOrdered<Ready<u8>> = FuturesOrdered::new();
    assert_eq!(queue.next_incoming(), 0);
    let a = queue.push(ready(10));
    let b = queue.push(ready(20));
    assert_eq!(a.index, 0);
    assert_eq!(b.index, 1);
    assert_eq!(a.item.into_inner(), 10);
    assert_eq!(b.item.into_inner(), 20);
    assert_eq!(queue.next_incoming(), 2);
    assert_eq!(queue.next_outgoing(), 0);
    // Nothing was polled: both are still counted.
    assert_eq!(queue.len(), 2);
}

#[test]
fn bulk_construction_is_pushing_in_order() {
    let (mut queue, tasks) = futures_ordered(vec![ready('x'), ready('y'), ready('z')]);
    assert_eq!(queue.len(), 3);
    assert_eq!(queue.next_incoming(), 3);
    assert_eq!(queue.next_outgoing(), 0);
    let tagged: Vec<(usize, char)> =
        tasks.into_iter().map(|task| (task.index, task.item.into_inner())).collect();
    assert_eq!(tagged, vec![(0, 'x'), (1, 'y'), (2, 'z')]);
    let later = queue.push(ready('w'));
    assert_eq!(later.index, 3);
}

#[test]
fn bulk_construction_of_nothing_is_a_new_queue() {
    let (mut queue, tasks) = futures_ordered(Vec::<Ready<u8>>::new());
    assert!(tasks.is_empty());
    assert!(queue.is_empty());
    assert_eq!(queue.poll_queued(), None);
    assert!(matches!(queue.poll_in_progress(Report::Exhausted), Step::Finished));
}

#[test]
fn default_is_a_new_queue() {
    let queue: FuturesOrdered<Ready<u8>> = Default::default();
    assert!(queue.is_empty());
    assert_eq!(queue.next_incoming(), 0);
    assert_eq!(queue.next_outgoing(), 0);
}

#[test]
fn admits_only_results_of_running_tasks() {
    let mut queue: FuturesOrdered<Ready<u8>> = FuturesOrdered::new();
    let completed = |index: usize| Report::Completed(OrderWrapper { item: 0u8, index });
    assert!(!queue.admits(&completed(0)));
    assert!(queue.admits(&Report::Exhausted));
    assert!(queue.admits(&Report::Pending));
    let _a = queue.push(ready(1));
    let _b = queue.push(ready(2));
    let _c = queue.push(ready(3));
    assert!(queue.admits(&completed(0)));
    assert!(queue.admits(&completed(2)));
    assert!(!queue.admits(&completed(3)));
    // A result that was put aside is not running any more.
    assert!(matches!(queue.poll_in_progress(completed(2)), Step::PollAgain));
    assert!(!queue.admits(&completed(2)));
    // Neither is one that was handed out.
    assert!(matches!(queue.poll_in_progress(completed(0)), Step::Yield(0)));
    assert!(!queue.admits(&completed(0)));
    assert!(queue.admits(&completed(1)));
}

#[test]
fn pending_and_exhausted_change_nothing() {
    let mut queue: FuturesOrdered<Ready<u8>> = FuturesOrdered::new();
    let _a = queue.push(ready(1));
    let _b = queue.push(ready(2));
    assert!(matches!(
        queue.poll_in_progress(Report::Completed(OrderWrapper { item: 2, index: 1 })),
        Step::PollAgain
    ));
    assert!(matches!(queue.poll_in_progress(Report::Pending), Step::Pending));
    assert!(matches!(queue.poll_in_progress(Report::Exhausted), Step::Finished));
    assert_eq!(queue.len(), 2);
    assert_eq!(queue.next_incoming(), 2);
    assert_eq!(queue.next_outgoing(), 0);
    assert_eq!(queue.poll_queued(), None);
    assert!(matches!(
        queue.poll_in_progress(Report::Completed(OrderWrapper { item: 1, index: 0 })),
        Step::Yield(1)
    ));
    assert_eq!(queue.poll_queued(), Some(2));
}
