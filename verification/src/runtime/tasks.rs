//! The queue behind the task scheduler: tasks with priorities, run in priority order,
//! cancellable while they wait.
//!
//! Tasks are assigned priorities and executed in priority order, rather than FIFO, and
//! tasks that are queued but have not yet started executing can be cancelled. The
//! worker threads and their synchronisation live with the caller, which keeps one
//! `Tasks` behind a lock and asks it, for each step, which task runs next.

use vstd::prelude::*;

verus! {

/// Identifier for a task submitted to `Tasks`
/// The IDs monotically increase for each new task, so a task ID will never be reused unless an
/// usize overflow occurs
#[derive(Clone, Copy, Debug, PartialEq, Eq, Structural)]
pub struct TaskId(pub usize);

/// Priority of a task submitted to `Tasks`
/// As is tradition, smaller priority values represent higher priorities
#[derive(Clone, Copy, Debug, PartialEq, Eq, Structural, PartialOrd, Ord)]
pub struct TaskPriority {
    /// The priority of this "class" of tasks. Tasks with a smaller class priority value are always
    /// executed before those with a higher class priority value
    pub class_priority: i32,
    /// Additional priority allowing tasks to be ordered within classes
    pub priority_within_class: i32,
}

impl Default for TaskPriority {
    fn default() -> (r: Self)
        ensures
            r.class_priority == 0 && r.priority_within_class == 0,
    {
        TaskPriority { class_priority: 0, priority_within_class: 0 }
    }
}

/// `a` runs strictly before `b`: a smaller class, or the same class and a smaller
/// priority within it.
pub open spec fn runs_before(a: TaskPriority, b: TaskPriority) -> bool {
    a.class_priority < b.class_priority || (a.class_priority == b.class_priority
        && a.priority_within_class < b.priority_within_class)
}

impl TaskPriority {
    /// True if a task with this priority runs strictly before one with `other`.
    pub fn runs_before(&self, other: &TaskPriority) -> (r: bool)
        ensures
            r == runs_before(*self, *other),
    {
        self.class_priority < other.class_priority || (self.class_priority == other.class_priority
            && self.priority_within_class < other.priority_within_class)
    }
}

/// Represents a task that has been submitted to `Tasks` and is waiting to be executed
pub struct PendingTask<T> {
    pub task: T,
    pub priority: TaskPriority,
}

/// The pending tasks of a thread pool and its count of busy workers.
/// NB: once termination is requested, workers take no further task; any currently
/// executing tasks finish normally
pub struct Tasks<T> {
    /// Vec of tasks waiting to be executed, in submission order
    pending_tasks: Vec<(TaskId, PendingTask<T>)>,
    /// Number of worker threads that are currently executing a task
    active_worker_threads: usize,
    /// Flag for the worker threads to terminate themselves after the `Tasks` is dropped
    terminate: bool,
    /// Number of worker threads in the pool
    thread_count: usize,
    /// Total number of tasks submitted so far, used to assign Task IDs
    total_tasks_submitted: usize,
}

impl<T> Tasks<T> {
    /// The waiting tasks, in submission order.
    pub closed spec fn pending(&self) -> Seq<(TaskId, PendingTask<T>)> {
        self.pending_tasks@
    }

    /// Number of tasks being executed.
    pub closed spec fn active(&self) -> nat {
        self.active_worker_threads as nat
    }

    /// Number of tasks submitted so far; the next task gets this ID.
    pub closed spec fn submitted(&self) -> nat {
        self.total_tasks_submitted as nat
    }

    /// Number of worker threads.
    pub closed spec fn workers(&self) -> nat {
        self.thread_count as nat
    }

    /// Termination has been requested.
    pub closed spec fn terminating(&self) -> bool {
        self.terminate
    }

    /// Waiting tasks have increasing IDs, all below the number of tasks submitted, and
    /// no more tasks execute than there are workers.
    pub open spec fn wf(&self) -> bool {
        &&& self.active() <= self.workers()
        &&& forall|i: int, j: int|
            0 <= i < j < self.pending().len() ==> (#[trigger] self.pending()[i]).0.0 < (
            #[trigger] self.pending()[j]).0.0
        &&& forall|i: int| 0 <= i < self.pending().len() ==> (#[trigger] self.pending()[i]).0.0 < self.submitted()
    }

    /// Create a new `Tasks` queue for the given number of worker threads
    pub fn new(thread_count: usize) -> (r: Self)
        ensures
            r.wf(),
            r.pending().len() == 0,
            r.active() == 0,
            r.submitted() == 0,
            r.workers() == thread_count,
            !r.terminating(),
    {
        Tasks {
            pending_tasks: Vec::new(),
            active_worker_threads: 0,
            terminate: false,
            thread_count,
            total_tasks_submitted: 0,
        }
    }

    /// Submit a new task to the queue, returning its ID
    pub fn submit(&mut self, priority: TaskPriority, task: T) -> (r: TaskId)
        requires
            old(self).wf(),
            old(self).submitted() < usize::MAX,
        ensures
            final(self).wf(),
            r == TaskId(old(self).submitted() as usize),
            final(self).submitted() == old(self).submitted() + 1,
            final(self).pending() == old(self).pending().push((r, PendingTask { task, priority })),
            final(self).active() == old(self).active(),
            final(self).workers() == old(self).workers(),
            final(self).terminating() == old(self).terminating(),
    {
        let task_id = TaskId(self.total_tasks_submitted);
        let ghost before = self.pending();
        self.total_tasks_submitted = self.total_tasks_submitted + 1;
        self.pending_tasks.push((task_id, PendingTask { task, priority }));
        proof {
            assert forall|i: int, j: int|
                0 <= i < j < self.pending().len() implies (#[trigger] self.pending()[i]).0.0 < (
            #[trigger] self.pending()[j]).0.0 by {
                assert(self.pending()[i] == before[i]);
                if j < before.len() {
                    assert(self.pending()[j] == before[j]);
                }
            }
            assert forall|i: int| 0 <= i < self.pending().len() implies (#[trigger] self.pending()[i]).0.0 < self.submitted() by {
                if i < before.len() {
                    assert(self.pending()[i] == before[i]);
                }
            }
        }
        task_id
    }

    /// One check of the wait for all tasks to finish: true once no task is waiting or
    /// executing, when the waiting thread may return
    pub fn block_until_finished(&self) -> (r: bool)
        ensures
            r == (self.pending().len() == 0 && self.active() == 0),
    {
        self.pending_tasks.len() == 0 && self.active_worker_threads == 0
    }

    /// Attempt to cancel a submitted task if it is still pending execution
    /// Returns true if the task was successfully cancelled
    pub fn cancel_if_pending(&mut self, task_id: TaskId) -> (r: bool)
        requires
            old(self).wf(),
        ensures
            final(self).wf(),
            r == exists|k: int| 0 <= k < old(self).pending().len() && (#[trigger] old(self).pending()[k]).0 == task_id,
            r ==> exists|k: int|
                0 <= k < old(self).pending().len() && (#[trigger] old(self).pending()[k]).0 == task_id
                    && final(self).pending() == old(self).pending().remove(k),
            !r ==> final(self).pending() == old(self).pending(),
            forall|k: int| 0 <= k < final(self).pending().len() ==> (#[trigger] final(self).pending()[k]).0 != task_id,
            final(self).active() == old(self).active(),
            final(self).submitted() == old(self).submitted(),
            final(self).workers() == old(self).workers(),
            final(self).terminating() == old(self).terminating(),
    {
        let mut i: usize = 0;
        while i < self.pending_tasks.len()
            invariant
                self.wf(),
                self.pending() == old(self).pending(),
                self.active() == old(self).active(),
                self.submitted() == old(self).submitted(),
                self.workers() == old(self).workers(),
                self.terminating() == old(self).terminating(),
                i <= self.pending().len(),
                forall|k: int| 0 <= k < i ==> (#[trigger] self.pending()[k]).0 != task_id,
            decreases self.pending().len() - i,
        {
            if self.pending_tasks[i].0.0 == task_id.0 {
                let ghost before = self.pending();
                let _cancelled = self.pending_tasks.remove(i);
                proof {
                    assert forall|k: int| 0 <= k < self.pending().len() implies (#[trigger] self.pending()[k]).0 != task_id by {
                        if k < i {
                            assert(self.pending()[k] == before[k]);
                        } else {
                            assert(self.pending()[k] == before[k + 1]);
                            assert(before[i as int].0.0 < before[k + 1].0.0);
                        }
                    }
                    assert(before[i as int].0 == task_id);
                    assert forall|a: int, b: int|
                        0 <= a < b < self.pending().len() implies (#[trigger] self.pending()[a]).0.0 < (
                        #[trigger] self.pending()[b]).0.0 by {
                        let aa = if a < i { a } else { a + 1 };
                        let bb = if b < i { b } else { b + 1 };
                        assert(self.pending()[a] == before[aa] && self.pending()[b] == before[bb]);
                    }
                    assert forall|a: int| 0 <= a < self.pending().len() implies (#[trigger] self.pending()[a]).0.0 < self.submitted() by {
                        let aa = if a < i { a } else { a + 1 };
                        assert(self.pending()[a] == before[aa]);
                    }
                }
                return true;
            }
            i = i + 1;
        }
        false
    }

    /// Returns the number of workers in the pool
    pub fn total_worker_count(&mut self) -> (r: usize)
        ensures
            r == old(self).workers(),
            final(self).pending() == old(self).pending(),
            final(self).active() == old(self).active(),
            final(self).submitted() == old(self).submitted(),
            final(self).workers() == old(self).workers(),
            final(self).terminating() == old(self).terminating(),
    {
        self.thread_count
    }

    /// Returns the current number of active workers in the pool
    pub fn active_worker_count(&mut self) -> (r: usize)
        ensures
            r == old(self).active(),
            final(self).pending() == old(self).pending(),
            final(self).active() == old(self).active(),
            final(self).submitted() == old(self).submitted(),
            final(self).workers() == old(self).workers(),
            final(self).terminating() == old(self).terminating(),
    {
        self.active_worker_threads
    }

    /// Index of the waiting task that runs first: the one with the smallest priority,
    /// the earliest submitted among equals.
    fn next_task_index(&self) -> (r: usize)
        requires
            self.pending().len() > 0,
        ensures
            r < self.pending().len(),
            forall|j: int| 0 <= j < self.pending().len() ==> !runs_before(
                (#[trigger] self.pending()[j]).1.priority,
                self.pending()[r as int].1.priority,
            ),
            forall|j: int| 0 <= j < r ==> runs_before(
                self.pending()[r as int].1.priority,
                (#[trigger] self.pending()[j]).1.priority,
            ),
    {
        let mut best: usize = 0;
        let mut i: usize = 1;
        while i < self.pending_tasks.len()
            invariant
                self.pending().len() > 0,
                best < i <= self.pending().len(),
                forall|j: int| 0 <= j < i ==> !runs_before(
                    (#[trigger] self.pending()[j]).1.priority,
                    self.pending()[best as int].1.priority,
                ),
                forall|j: int| 0 <= j < best ==> runs_before(
                    self.pending()[best as int].1.priority,
                    (#[trigger] self.pending()[j]).1.priority,
                ),
            decreases self.pending().len() - i,
        {
            if self.pending_tasks[i].1.priority.runs_before(&self.pending_tasks[best].1.priority) {
                best = i;
            }
            i = i + 1;
        }
        best
    }

    /// A worker takes the next task to execute: the waiting task with the lowest
    /// priority value (the earliest submitted among equal priorities), which is removed
    /// from the queue and counted as executing. Returns `None` when no task waits or
    /// termination was requested.
    pub fn take_next_task(&mut self) -> (r: Option<(TaskId, T)>)
        requires
            old(self).wf(),
            old(self).active() < old(self).workers(),
        ensures
            final(self).wf(),
            final(self).submitted() == old(self).submitted(),
            final(self).workers() == old(self).workers(),
            final(self).terminating() == old(self).terminating(),
            (old(self).pending().len() == 0 || old(self).terminating()) ==> r is None && final(self).pending()
                == old(self).pending() && final(self).active() == old(self).active(),
            !(old(self).pending().len() == 0 || old(self).terminating()) ==> exists|k: int| {
                &&& 0 <= k < old(self).pending().len()
                &&& r == Some(((#[trigger] old(self).pending()[k]).0, old(self).pending()[k].1.task))
                &&& final(self).pending() == old(self).pending().remove(k)
                &&& forall|j: int| 0 <= j < old(self).pending().len() ==> !runs_before(
                    (#[trigger] old(self).pending()[j]).1.priority,
                    old(self).pending()[k].1.priority,
                )
                &&& forall|j: int| 0 <= j < k ==> runs_before(
                    old(self).pending()[k].1.priority,
                    (#[trigger] old(self).pending()[j]).1.priority,
                )
            },
            !(old(self).pending().len() == 0 || old(self).terminating()) ==> final(self).active() == old(self).active() + 1,
    {
        if self.terminate || self.pending_tasks.len() == 0 {
            return None;
        }
        // get the task with the lowest priority value and remove it from the list
        let next_task_index = self.next_task_index();
        let ghost before = self.pending();
        let (task_id, next_task) = self.pending_tasks.remove(next_task_index);
        self.active_worker_threads = self.active_worker_threads + 1;
        proof {
            assert forall|i: int, j: int|
                0 <= i < j < self.pending().len() implies (#[trigger] self.pending()[i]).0.0 < (
            #[trigger] self.pending()[j]).0.0 by {
                let ii = if i < next_task_index { i } else { i + 1 };
                let jj = if j < next_task_index { j } else { j + 1 };
                assert(self.pending()[i] == before[ii] && self.pending()[j] == before[jj]);
            }
            assert forall|i: int| 0 <= i < self.pending().len() implies (#[trigger] self.pending()[i]).0.0 < self.submitted() by {
                let ii = if i < next_task_index { i } else { i + 1 };
                assert(self.pending()[i] == before[ii]);
            }
        }
        Some((task_id, next_task.task))
    }

    /// A worker reports that its task has finished executing
    pub fn finish_task(&mut self)
        requires
            old(self).wf(),
            old(self).active() > 0,
        ensures
            final(self).wf(),
            final(self).active() == old(self).active() - 1,
            final(self).pending() == old(self).pending(),
            final(self).submitted() == old(self).submitted(),
            final(self).workers() == old(self).workers(),
            final(self).terminating() == old(self).terminating(),
    {
        self.active_worker_threads = self.active_worker_threads - 1;
        proof {
            assert(self.pending() =~= old(self).pending());
        }
    }

    /// Ask the workers to stop taking tasks: pending tasks are abandoned, executing ones
    /// finish normally
    pub fn request_termination(&mut self)
        ensures
            final(self).terminating(),
            final(self).pending() == old(self).pending(),
            final(self).active() == old(self).active(),
            final(self).submitted() == old(self).submitted(),
            final(self).workers() == old(self).workers(),
    {
        self.terminate = true;
    }

    /// Termination has been requested.
    pub fn is_terminating(&self) -> (r: bool)
        ensures
            r == self.terminating(),
    {
        self.terminate
    }
}

/// Task IDs are handed out in increasing order: a task submitted later has a larger
/// ID than every task still waiting.
pub proof fn lemma_submitted_ids_increase<T>(before: Tasks<T>, after: Tasks<T>, id: TaskId, priority: TaskPriority, task: T)
    requires
        before.wf(),
        id == TaskId(before.submitted() as usize),
        after.pending() == before.pending().push((id, PendingTask { task, priority })),
        before.submitted() < usize::MAX,
    ensures
        forall|k: int| 0 <= k < before.pending().len() ==> (#[trigger] before.pending()[k]).0.0 < id.0,
        after.pending().last().0 == id,
{
}

} // verus!
