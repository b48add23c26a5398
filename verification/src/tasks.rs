//! The task manager's verified core: a registry of tracked, cancellable
//! task records. A record is created when a long-running job is submitted
//! and is never removed; the job polls its record's cooperative
//! cancellation flag and is expected to exit promptly once it is set.
//!
//! Shutdown is "signal and return": `stop` sets every record's flag, in
//! registry order, and does not wait for any job to actually exit. The
//! execution contexts that run the jobs live outside this registry.

use vstd::prelude::*;

verus! {

/// The cooperative cancellation context a job polls: a flag that starts
/// cleared, is set once by the manager's stop routine, and is never cleared.
pub struct TaskContext {
    interrupted: bool,
}

impl TaskContext {
    pub closed spec fn spec_interrupted(&self) -> bool {
        self.interrupted
    }

    /// A fresh context starts not interrupted.
    pub fn new() -> (r: TaskContext)
        ensures
            !r.spec_interrupted(),
    {
        TaskContext { interrupted: false }
    }

    /// Signals the owning job to exit at its next poll.
    pub fn stop(&mut self)
        ensures
            final(self).spec_interrupted(),
    {
        self.interrupted = true;
    }

    pub fn is_interrupted(&self) -> (r: bool)
        ensures
            r == self.spec_interrupted(),
    {
        self.interrupted
    }
}

/// The registry of tracked task records.
pub struct TaskManager {
    tasks: Vec<TaskContext>,
}

impl TaskManager {
    /// The tracked records, in submission order.
    pub closed spec fn tasks_seq(&self) -> Seq<TaskContext> {
        self.tasks@
    }

    pub open spec fn task_count(&self) -> nat {
        self.tasks_seq().len()
    }

    pub fn new() -> (r: TaskManager)
        ensures
            r.task_count() == 0,
    {
        TaskManager { tasks: Vec::new() }
    }

    /// Submits a tracked long-running job: allocates a record whose flag
    /// starts cleared, appends it to the registry, and returns the record's
    /// identity. The job runs on its own execution context and polls the
    /// flag through `is_task_interrupted`; the record is retained for the
    /// life of the manager.
    pub fn run(&mut self) -> (id: usize)
        ensures
            id == old(self).task_count(),
            final(self).tasks_seq() == old(self).tasks_seq().push(
                final(self).tasks_seq()[id as int],
            ),
            !final(self).tasks_seq()[id as int].spec_interrupted(),
    {
        let id = self.tasks.len();
        self.tasks.push(TaskContext::new());
        id
    }

    /// Whether the record `id` has been signalled to stop.
    pub fn is_task_interrupted(&self, id: usize) -> (r: bool)
        requires
            id < self.task_count(),
        ensures
            r == self.tasks_seq()[id as int].spec_interrupted(),
    {
        self.tasks[id].is_interrupted()
    }

    /// Cancellation signal: sets the flag of every previously submitted
    /// record, in registry order, and returns without waiting for any job
    /// to exit. No record is removed; a job that already exited simply
    /// never polls its flag again.
    pub fn stop(&mut self)
        ensures
            final(self).task_count() == old(self).task_count(),
            forall|j: int|
                0 <= j < final(self).tasks_seq().len()
                    ==> final(self).tasks_seq()[j].spec_interrupted(),
    {
        let mut i: usize = 0;
        while i < self.tasks.len()
            invariant
                i <= self.tasks.len(),
                self.tasks@.len() == old(self).tasks_seq().len(),
                forall|j: int| 0 <= j < i ==> self.tasks@[j].spec_interrupted(),
            decreases self.tasks.len() - i,
        {
            let record = &mut self.tasks[i];
            record.stop();
            i = i + 1;
        }
    }
}

} // verus!
