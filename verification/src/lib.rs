//! An unbounded queue of asynchronous tasks whose results are handed out in
//! the order in which the tasks were submitted, whatever the order in which
//! they complete.
//!
//! The tasks themselves run in an unordered set that is not part of this
//! library: anything that drives a number of tasks and reports each result
//! once will do. The library is the bookkeeping around it.
//!
//! * [`order_wrapper`] has the tag that gives a task, and later its result,
//!   its sequence number.
//! * [`reorder_buffer`] keeps the results that arrived ahead of their turn
//!   and releases the least of them when its turn has come.
//! * [`queue`] is the queue: it numbers the tasks, and decides for each
//!   answer of the unordered set whether a result goes out, is put aside, or
//!   the poll ends.
//! * [`state`] says in mathematical terms what a queue holds and what each
//!   operation does to it; the contracts of [`queue`] are stated over it.
//! * [`history`] proves what holds of a queue over its whole life: results
//!   leave in the order of submission, none leaves early, and the queue
//!   counts what it still owes.
pub mod history;
pub mod order_wrapper;
pub mod queue;
pub mod reorder_buffer;
pub mod state;

pub use order_wrapper::OrderWrapper;
pub use queue::{futures_ordered, FuturesOrdered};
pub use reorder_buffer::ReorderBuffer;
pub use state::{QueueState, Report, Step};
