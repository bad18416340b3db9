//! The cooperative executor: a ready ring of task ids.
//!
//! A waker pushes its task's id onto the ring; the run loop drains the
//! ring and polls each task.  Polling itself — driving the keyboard and
//! mouse consumers — is the caller's step, so the executor is exactly
//! the decision state: which ids are ready, and whether the processor
//! may halt.

use vstd::prelude::*;

verus! {

use crate::queues::{id_queue_view, id_queue_cap, new_id_queue, id_queue_push, id_queue_pop};

/// Capacity of the ready ring.
pub const TASK_QUEUE_CAPACITY: usize = 100;

/// The executor's ready ring.
pub struct Executor {
    /// Ids of tasks woken since they were last polled.
    pub task_queue: crossbeam_queue::ArrayQueue<u64>,
}

/// A waker: it knows which task to mark ready.
pub struct TaskWaker {
    /// The task this waker belongs to.
    pub task_id: u64,
}

impl TaskWaker {
    /// A waker for the given task.
    pub fn new(task_id: u64) -> (r: TaskWaker)
        ensures
            r.task_id == task_id,
    {
        TaskWaker { task_id }
    }

    /// Marks the task ready; on a full ring the wake is lost.
    pub fn wake(&self, executor: &mut Executor) -> (r: bool)
        requires
            old(executor).wf(),
        ensures
            final(executor).wf(),
            old(executor).ready().len() < TASK_QUEUE_CAPACITY ==> r && final(executor).ready()
                == old(executor).ready().push(self.task_id),
            old(executor).ready().len() >= TASK_QUEUE_CAPACITY ==> !r && final(executor).ready()
                == old(executor).ready(),
    {
        id_queue_push(&mut executor.task_queue, self.task_id)
    }
}

impl Executor {
    /// The woken task ids, oldest first.
    pub open spec fn ready(&self) -> Seq<u64> {
        id_queue_view(self.task_queue)
    }

    /// The ring keeps its capacity.
    pub open spec fn wf(&self) -> bool {
        id_queue_cap(self.task_queue) == TASK_QUEUE_CAPACITY
    }

    /// An executor with an empty ready ring.
    pub fn new() -> (r: Executor)
        ensures
            r.wf(),
            r.ready() == Seq::<u64>::empty(),
    {
        Executor { task_queue: new_id_queue(TASK_QUEUE_CAPACITY) }
    }

    /// Admits a task by marking it ready once.
    pub fn spawn(&mut self, task_id: u64) -> (r: bool)
        requires
            old(self).wf(),
        ensures
            final(self).wf(),
            old(self).ready().len() < TASK_QUEUE_CAPACITY ==> r && final(self).ready() == old(
                self,
            ).ready().push(task_id),
            old(self).ready().len() >= TASK_QUEUE_CAPACITY ==> !r && final(self).ready() == old(
                self,
            ).ready(),
    {
        id_queue_push(&mut self.task_queue, task_id)
    }

    /// The oldest woken task, to be polled next.
    pub fn next_ready(&mut self) -> (r: Option<u64>)
        requires
            old(self).wf(),
        ensures
            final(self).wf(),
            old(self).ready().len() > 0 ==> r == Some(old(self).ready()[0]) && final(self).ready()
                == old(self).ready().drop_first(),
            old(self).ready().len() == 0 ==> r is None && final(self).ready() == old(
                self,
            ).ready(),
    {
        id_queue_pop(&mut self.task_queue)
    }

    /// Whether the processor may halt: no task is ready.  The caller
    /// re-checks with interrupts disabled before halting.
    pub fn should_sleep(&self) -> (r: bool)
        requires
            self.wf(),
        ensures
            r == (self.ready().len() == 0),
    {
        crate::queues::id_queue_len(&self.task_queue) == 0
    }
}

} // verus!
