//! The round-robin scheduler: a new queue for never-run tasks, a ready
//! queue, and the one running task.
//!
//! The timer interrupt and the exit syscall drive [`Scheduler::schedule`],
//! which is the decision alone: what to do with the task that was
//! running, and which task runs next.  The caller performs the decision —
//! writing CR3, switching stacks — and the fairness of the decision is
//! proved here.

use vstd::prelude::*;

verus! {

use crate::queues::{id_queue_view, id_queue_cap, new_id_queue, id_queue_push, id_queue_pop};
use crate::task::{Task, TaskID, TaskState};

/// Capacity of the ready queue.
pub const PROCESS_CAPACITY: usize = 1000;

/// Capacity of the new queue.
pub const NEW_CAPACITY: usize = 100;

/// What the caller must do after a scheduling decision.
#[derive(Clone, Copy, Debug, PartialEq, Eq, Structural)]
pub enum SchedDecision {
    /// Jump to a never-run task's entry point in its address space.
    EnterNew(u64),
    /// Context-switch to a previously run task.
    ResumeReady(u64),
    /// Nothing to run: halt until the next interrupt.
    Idle,
}

/// The scheduler state: both queues hold task ids; the tasks themselves
/// live in the table.
pub struct Scheduler {
    /// Ids of tasks that have never run, scheduled first.
    pub new_queue: crossbeam_queue::ArrayQueue<u64>,
    /// Ids of tasks waiting for their next slice.
    pub ready_queue: crossbeam_queue::ArrayQueue<u64>,
    /// Every admitted task, looked up by id.
    pub tasks: Vec<Task>,
    /// Id of the running task, if any.
    pub running_task: Option<u64>,
    /// The next process id to hand out.
    pub next_pid: usize,
}

/// The state of the task with the given id, if it is in the table.
pub open spec fn task_state_of(tasks: Seq<Task>, id: u64) -> Option<TaskState> {
    if exists|i: int| 0 <= i < tasks.len() && (#[trigger] tasks[i]).task_id.pid == id {
        Some(
            tasks[choose|i: int|
                0 <= i < tasks.len() && (#[trigger] tasks[i]).task_id.pid == id].state,
        )
    } else {
        None
    }
}

/// One round-robin step over the ready ids: the running task goes to the
/// back, the head of the queue runs next.
pub open spec fn spec_schedule(rq: Seq<u64>, running: Option<u64>) -> (Seq<u64>, Option<u64>) {
    let rq1 = match running {
        Some(r) => rq.push(r),
        None => rq,
    };
    if rq1.len() > 0 {
        (rq1.drop_first(), Some(rq1[0]))
    } else {
        (rq1, None)
    }
}

/// `k` round-robin steps.
pub open spec fn spec_schedule_n(rq: Seq<u64>, running: Option<u64>, k: nat) -> (
    Seq<u64>,
    Option<u64>,
)
    decreases k,
{
    if k == 0 {
        (rq, running)
    } else {
        let p = spec_schedule_n(rq, running, (k - 1) as nat);
        spec_schedule(p.0, p.1)
    }
}

/// Round-robin fairness: with a running task and `n` ready tasks, and no
/// new tasks arriving, the task at position `k` of the ready queue is
/// the running task after exactly `k + 1` timer ticks — so every ready
/// task runs within `n` ticks.
pub proof fn lemma_round_robin(rq: Seq<u64>, r0: u64, k: int)
    requires
        0 <= k < rq.len(),
    ensures
        spec_schedule_n(rq, Some(r0), (k + 1) as nat).1 == Some(rq[k]),
    decreases k,
{
    if k == 0 {
        assert(spec_schedule_n(rq, Some(r0), 0) == (rq, Some(r0)));
        assert(spec_schedule_n(rq, Some(r0), 1) == spec_schedule(rq, Some(r0)));
        assert(rq.push(r0)[0] == rq[0]);
    } else {
        lemma_schedule_shift(rq, r0, k);
    }
}

/// The queue after `k + 1` steps is a rotation: the untouched tail, then
/// the first running task, then the tasks already re-queued.
proof fn lemma_schedule_shift(rq: Seq<u64>, r0: u64, k: int)
    requires
        0 <= k < rq.len(),
    ensures
        spec_schedule_n(rq, Some(r0), (k + 1) as nat).1 == Some(rq[k]),
        spec_schedule_n(rq, Some(r0), (k + 1) as nat).0 =~= rq.skip(k + 1) + seq![r0] + rq.take(
            k,
        ),
    decreases k,
{
    if k == 0 {
        let rq1 = rq.push(r0);
        assert(spec_schedule_n(rq, Some(r0), 0) == (rq, Some(r0)));
        assert(rq1[0] == rq[0]);
        assert(spec_schedule_n(rq, Some(r0), 1).0 =~= rq.skip(1) + seq![r0] + rq.take(0));
    } else {
        lemma_schedule_shift(rq, r0, k - 1);
        let p = spec_schedule_n(rq, Some(r0), k as nat);
        let prev_q = rq.skip(k) + seq![r0] + rq.take(k - 1);
        assert(p.0 == prev_q);
        assert(p.1 == Some(rq[k - 1]));
        let rq1 = p.0.push(rq[k - 1]);
        assert(rq1[0] == rq[k]);
        assert(rq1.drop_first() =~= rq.skip(k + 1) + seq![r0] + rq.take(k));
    }
}

/// When every task of a given id has taken the state `st`, and the ids
/// have not moved, the table reads that state for the id.
proof fn lemma_task_state_pointwise(a: Seq<Task>, b: Seq<Task>, id: u64, st: TaskState)
    requires
        a.len() == b.len(),
        forall|i: int| 0 <= i < a.len() ==> (#[trigger] b[i]).task_id == a[i].task_id,
        forall|i: int|
            0 <= i < a.len() && a[i].task_id.pid == id ==> (#[trigger] b[i]).state == st,
        task_state_of(a, id) is Some,
    ensures
        task_state_of(b, id) == Some(st),
{
    let i0 = choose|i: int| 0 <= i < a.len() && (#[trigger] a[i]).task_id.pid == id;
    assert(b[i0].task_id.pid == id);
    let i1 = choose|i: int| 0 <= i < b.len() && (#[trigger] b[i]).task_id.pid == id;
    assert(a[i1].task_id.pid == id);
    assert(b[i1].state == st);
}

impl Scheduler {
    /// The ids waiting in the new queue, oldest first.
    pub open spec fn new_ids(&self) -> Seq<u64> {
        id_queue_view(self.new_queue)
    }

    /// The ids waiting in the ready queue, oldest first.
    pub open spec fn ready_ids(&self) -> Seq<u64> {
        id_queue_view(self.ready_queue)
    }

    /// The queues keep their capacities and no two admitted tasks share
    /// an id.
    pub open spec fn wf(&self) -> bool {
        &&& id_queue_cap(self.new_queue) == NEW_CAPACITY
        &&& id_queue_cap(self.ready_queue) == PROCESS_CAPACITY
        &&& forall|i: int, j: int|
            0 <= i < self.tasks@.len() && 0 <= j < self.tasks@.len() && i != j ==> (
            #[trigger] self.tasks@[i]).task_id.pid != (#[trigger] self.tasks@[j]).task_id.pid
    }

    /// An empty scheduler.
    pub fn init() -> (r: Scheduler)
        ensures
            r.wf(),
            r.new_ids() == Seq::<u64>::empty(),
            r.ready_ids() == Seq::<u64>::empty(),
            r.running_task is None,
            r.tasks@.len() == 0,
            r.next_pid == 1,
    {
        Scheduler {
            new_queue: new_id_queue(NEW_CAPACITY),
            ready_queue: new_id_queue(PROCESS_CAPACITY),
            tasks: Vec::new(),
            running_task: None,
            next_pid: 1,
        }
    }

    /// Admits a task: it joins the table and the new queue.  A full new
    /// queue refuses the task and hands it back.
    pub fn add_task(&mut self, task: Task) -> (r: Result<(), Task>)
        requires
            old(self).wf(),
            forall|i: int|
                0 <= i < old(self).tasks@.len() ==> (#[trigger] old(self).tasks@[i]).task_id.pid
                    != task.task_id.pid,
        ensures
            final(self).wf(),
            final(self).running_task == old(self).running_task,
            final(self).ready_ids() == old(self).ready_ids(),
            old(self).new_ids().len() < NEW_CAPACITY ==> r is Ok && final(self).new_ids() == old(
                self,
            ).new_ids().push(task.task_id.pid as u64) && final(self).tasks@ == old(
                self,
            ).tasks@.push(task),
            old(self).new_ids().len() >= NEW_CAPACITY ==> (r matches Err(t) && t == task)
                && final(self).new_ids() == old(self).new_ids() && final(self).tasks@ == old(
                self,
            ).tasks@,
    {
        if id_queue_push(&mut self.new_queue, task.task_id.pid as u64) {
            self.tasks.push(task);
            Ok(())
        } else {
            Err(task)
        }
    }

    /// Index of the task with the given id.
    fn find_task(&self, id: u64) -> (r: Option<usize>)
        ensures
            (match r {
                Some(i) => i < self.tasks@.len() && self.tasks@[i as int].task_id.pid == id,
                None => forall|i: int|
                    0 <= i < self.tasks@.len() ==> (#[trigger] self.tasks@[i]).task_id.pid != id,
            }),
    {
        let n = self.tasks.len();
        let mut i: usize = 0;
        while i < n
            invariant
                i <= n,
                n == self.tasks@.len(),
                forall|m: int|
                    0 <= m < i ==> (#[trigger] self.tasks@[m]).task_id.pid != id,
            decreases n - i,
        {
            if self.tasks[i].task_id.get_id() as u64 == id {
                return Some(i);
            }
            i = i + 1;
        }
        None
    }

    /// The running task's id.
    pub fn running_task(&self) -> (r: Option<u64>)
        ensures
            r == self.running_task,
    {
        self.running_task
    }

    /// Replaces the running task's id.
    pub fn set_running_task(&mut self, running: Option<u64>)
        ensures
            *final(self) == (Scheduler { running_task: running, ..*old(self) }),
    {
        self.running_task = running;
    }

    /// Marks the task with the given id, if admitted.
    pub fn set_task_state(&mut self, id: u64, state: TaskState)
        ensures
            final(self).new_queue == old(self).new_queue,
            final(self).ready_queue == old(self).ready_queue,
            final(self).running_task == old(self).running_task,
            final(self).next_pid == old(self).next_pid,
            final(self).tasks@.len() == old(self).tasks@.len(),
            forall|i: int|
                0 <= i < old(self).tasks@.len() ==> (#[trigger] final(self).tasks@[i]).task_id
                    == old(self).tasks@[i].task_id,
            forall|i: int|
                0 <= i < old(self).tasks@.len() && old(self).tasks@[i].task_id.pid != id ==> (
                #[trigger] final(self).tasks@[i]) == old(self).tasks@[i],
            forall|i: int|
                0 <= i < old(self).tasks@.len() && old(self).tasks@[i].task_id.pid == id ==> (
                #[trigger] final(self).tasks@[i]).state == state,
    {
        let n = self.tasks.len();
        let mut i: usize = 0;
        while i < n
            invariant
                i <= n,
                n == self.tasks@.len(),
                self.new_queue == old(self).new_queue,
                self.ready_queue == old(self).ready_queue,
                self.running_task == old(self).running_task,
                self.next_pid == old(self).next_pid,
                self.tasks@.len() == old(self).tasks@.len(),
                forall|m: int|
                    0 <= m < self.tasks@.len() ==> (#[trigger] self.tasks@[m]).task_id == old(
                        self,
                    ).tasks@[m].task_id,
                forall|m: int|
                    0 <= m < self.tasks@.len() && old(self).tasks@[m].task_id.pid != id ==> (
                    #[trigger] self.tasks@[m]) == old(self).tasks@[m],
                forall|m: int|
                    0 <= m < i && old(self).tasks@[m].task_id.pid == id ==> (#[trigger]
                    self.tasks@[m]).state == state,
            decreases n - i,
        {
            if self.tasks[i].task_id.get_id() as u64 == id {
                let t = &mut self.tasks[i];
                t.state = state;
            }
            i = i + 1;
        }
    }

    /// The scheduling decision on a timer tick or an exit: re-queue or
    /// drop the task that was running, then run the oldest new task, or
    /// the oldest ready task, or report idleness.  A `Finished` task is
    /// dropped; a still-`Running` task goes to the back of the ready
    /// queue.
    pub fn schedule(&mut self) -> (r: SchedDecision)
        requires
            old(self).wf(),
        ensures
            final(self).wf(),
            final(self).tasks@.len() == old(self).tasks@.len(),
            // with no new tasks and a well-behaved running task, the
            // decision is exactly one round-robin step
            (old(self).new_ids().len() == 0 && (match old(self).running_task {
                Some(rid) => task_state_of(old(self).tasks@, rid) == Some(TaskState::Running)
                    && old(self).ready_ids().len() < PROCESS_CAPACITY,
                None => true,
            })) ==> ({
                let step = spec_schedule(old(self).ready_ids(), old(self).running_task);
                &&& final(self).ready_ids() == step.0
                &&& final(self).running_task == step.1
                &&& (step.1 is None ==> r == SchedDecision::Idle)
            }),
            // a finished task is dropped, never re-queued
            (old(self).new_ids().len() == 0 && (match old(self).running_task {
                Some(rid) => task_state_of(old(self).tasks@, rid) == Some(TaskState::Finished),
                None => false,
            })) ==> ({
                &&& (old(self).ready_ids().len() == 0 ==> final(self).running_task is None && r
                    == SchedDecision::Idle && final(self).ready_ids() == old(self).ready_ids())
                &&& (old(self).ready_ids().len() > 0 ==> final(self).running_task == Some(
                    old(self).ready_ids()[0],
                ) && final(self).ready_ids() == old(self).ready_ids().drop_first())
            }),
            // new tasks run first
            old(self).new_ids().len() > 0 && (match old(self).running_task {
                Some(rid) => task_state_of(old(self).tasks@, rid) == Some(TaskState::Running)
                    && old(self).ready_ids().len() < PROCESS_CAPACITY,
                None => true,
            }) ==> final(self).running_task == Some(old(self).new_ids()[0])
                && final(self).new_ids() == old(self).new_ids().drop_first()
                && final(self).ready_ids() == (match old(self).running_task {
                Some(rid) => old(self).ready_ids().push(rid),
                None => old(self).ready_ids(),
            }),
            // state recording: the displaced task is marked ready unless
            // it is the one that runs again
            (match old(self).running_task {
                Some(rid) => task_state_of(old(self).tasks@, rid) == Some(TaskState::Running)
                    && final(self).running_task != Some(rid) ==> task_state_of(
                    final(self).tasks@,
                    rid,
                ) == Some(TaskState::Ready),
                None => true,
            }),
            // the successor, if admitted, is marked running
            (final(self).running_task matches Some(nid) ==> (task_state_of(
                final(self).tasks@,
                nid,
            ) is Some ==> task_state_of(final(self).tasks@, nid) == Some(TaskState::Running))),
            // a displaced task that meets a full ready queue leaves the
            // rotation: the queue only loses its head
            (old(self).new_ids().len() == 0 && (match old(self).running_task {
                Some(rid) => task_state_of(old(self).tasks@, rid) == Some(TaskState::Running)
                    && old(self).ready_ids().len() >= PROCESS_CAPACITY,
                None => false,
            })) ==> final(self).running_task == Some(old(self).ready_ids()[0])
                && final(self).ready_ids() == old(self).ready_ids().drop_first(),
    {
        let ghost o = *old(self);
        // re-queue or drop the task that was running
        let prev = self.running_task;
        match prev {
            Some(rid) => {
                match self.task_state(rid) {
                    Some(TaskState::Running) => {
                        self.set_task_state(rid, TaskState::Ready);
                        let _ = id_queue_push(&mut self.ready_queue, rid);
                    },
                    _ => {
                        // a finished or unknown task is dropped
                    },
                }
            },
            None => {},
        }
        self.running_task = None;
        // prefer a never-run task
        match id_queue_pop(&mut self.new_queue) {
            Some(id) => {
                let ghost s2 = *self;
                self.set_task_state(id, TaskState::Running);
                self.running_task = Some(id);
                proof {
                    Self::lemma_schedule_states(o, s2, *self, prev, id);
                }
                return SchedDecision::EnterNew(id);
            },
            None => {},
        }
        match id_queue_pop(&mut self.ready_queue) {
            Some(id) => {
                let ghost s2 = *self;
                self.set_task_state(id, TaskState::Running);
                self.running_task = Some(id);
                proof {
                    Self::lemma_schedule_states(o, s2, *self, prev, id);
                }
                SchedDecision::ResumeReady(id)
            },
            None => {
                proof {
                    match prev {
                        Some(rid) => {
                            if task_state_of(o.tasks@, rid) == Some(TaskState::Running) {
                                lemma_task_state_pointwise(
                                    o.tasks@,
                                    self.tasks@,
                                    rid,
                                    TaskState::Ready,
                                );
                            }
                        },
                        None => {},
                    }
                }
                SchedDecision::Idle
            },
        }
    }

    /// After a reschedule the displaced task reads ready and the
    /// successor reads running.
    proof fn lemma_schedule_states(
        o: Scheduler,
        s2: Scheduler,
        f: Scheduler,
        prev: Option<u64>,
        id: u64,
    )
        requires
            o.tasks@.len() == s2.tasks@.len() == f.tasks@.len(),
            forall|i: int|
                0 <= i < o.tasks@.len() ==> (#[trigger] s2.tasks@[i]).task_id
                    == o.tasks@[i].task_id,
            forall|i: int|
                0 <= i < s2.tasks@.len() ==> (#[trigger] f.tasks@[i]).task_id
                    == s2.tasks@[i].task_id,
            forall|i: int|
                0 <= i < s2.tasks@.len() && s2.tasks@[i].task_id.pid != id ==> (
                #[trigger] f.tasks@[i]) == s2.tasks@[i],
            forall|i: int|
                0 <= i < s2.tasks@.len() && s2.tasks@[i].task_id.pid == id ==> (
                #[trigger] f.tasks@[i]).state == TaskState::Running,
            (match prev {
                Some(rid) => task_state_of(o.tasks@, rid) == Some(TaskState::Running)
                    ==> forall|i: int|
                    0 <= i < o.tasks@.len() && o.tasks@[i].task_id.pid == rid ==> (
                    #[trigger] s2.tasks@[i]).state == TaskState::Ready,
                None => true,
            }),
        ensures
            (match prev {
                Some(rid) => task_state_of(o.tasks@, rid) == Some(TaskState::Running) && id
                    != rid ==> task_state_of(f.tasks@, rid) == Some(TaskState::Ready),
                None => true,
            }),
            task_state_of(f.tasks@, id) is Some ==> task_state_of(f.tasks@, id) == Some(
                TaskState::Running,
            ),
    {
        match prev {
            Some(rid) => {
                if task_state_of(o.tasks@, rid) == Some(TaskState::Running) && id != rid {
                    assert forall|i: int|
                        0 <= i < o.tasks@.len() && o.tasks@[i].task_id.pid == rid implies (
                    #[trigger] f.tasks@[i]).state == TaskState::Ready by {
                        assert(s2.tasks@[i].task_id == o.tasks@[i].task_id);
                        assert(f.tasks@[i] == s2.tasks@[i]);
                    }
                    lemma_task_state_pointwise(o.tasks@, f.tasks@, rid, TaskState::Ready);
                }
            },
            None => {},
        }
        if task_state_of(f.tasks@, id) is Some {
            let i1 = choose|i: int|
                0 <= i < f.tasks@.len() && (#[trigger] f.tasks@[i]).task_id.pid == id;
            assert(s2.tasks@[i1].task_id.pid == id);
            lemma_task_state_pointwise(s2.tasks@, f.tasks@, id, TaskState::Running);
        }
    }

    /// The state of the task with the given id, if admitted.
    pub fn task_state(&self, id: u64) -> (r: Option<TaskState>)
        requires
            self.wf(),
        ensures
            r == task_state_of(self.tasks@, id),
    {
        match self.find_task(id) {
            Some(i) => {
                proof {
                    let c = choose|m: int|
                        0 <= m < self.tasks@.len() && (#[trigger] self.tasks@[m]).task_id.pid
                            == id;
                    assert(c == i);
                }
                Some(self.tasks[i].state())
            },
            None => None,
        }
    }
}

/// The process-id rotation queue of the shell's scheduler: the active id
/// sits at the front.
pub struct PidQueue {
    /// The ids, the active one first.
    pub ids: Vec<TaskID>,
}

impl PidQueue {
    /// An empty rotation queue.
    pub fn new() -> (r: PidQueue)
        ensures
            r.ids@.len() == 0,
    {
        PidQueue { ids: Vec::new() }
    }
}

/// Appends a process id at the back of the rotation.
pub fn add(queue: &mut PidQueue, id: TaskID)
    ensures
        final(queue).ids@ == old(queue).ids@.push(id),
{
    queue.ids.push(id);
}

/// Rotates the queue left by one: the active id goes to the back.
pub fn change_active_pid(queue: &mut PidQueue)
    requires
        old(queue).ids@.len() > 0,
    ensures
        final(queue).ids@ == old(queue).ids@.drop_first().push(old(queue).ids@[0]),
{
    let front = queue.ids.remove(0);
    queue.ids.push(front);
}

/// The id whose task is active: the front of the rotation.
pub fn active_pid(queue: &PidQueue) -> (r: TaskID)
    requires
        queue.ids@.len() > 0,
    ensures
        r == queue.ids@[0],
{
    queue.ids[0]
}

/// Takes the active id out of the rotation.
pub fn pop(queue: &mut PidQueue) -> (r: TaskID)
    requires
        old(queue).ids@.len() > 0,
    ensures
        r == old(queue).ids@[0],
        final(queue).ids@ == old(queue).ids@.drop_first(),
{
    queue.ids.remove(0)
}

} // verus!
