//! The bounded submission queue of a worker pool, and what a worker does next.
use vstd::prelude::*;

use std::collections::VecDeque;

verus! {

/// Why a task was not accepted.
#[derive(Debug, Clone, Copy, PartialEq, Eq, Structural)]
pub enum SubmitError {
    /// The pool is shutting down.
    Rejected,
    /// The queue already holds more than its maximum.
    Full,
}

/// What a worker does after looking at the queue.
pub enum WorkerStep<T> {
    /// Run the item taken from the queue.
    Run(T),
    /// Wait until a task arrives or shutdown begins.
    Wait,
    /// Stop: the pool is shutting down and no task is left.
    Exit,
}

/// Tasks waiting for a worker, the bound on them, and the shutdown flag.
pub struct SubmissionQueue<T> {
    tasks: VecDeque<T>,
    max_queue_size: usize,
    shutdown: bool,
}

impl<T> SubmissionQueue<T> {
    /// The waiting tasks, oldest first.
    pub closed spec fn tasks(&self) -> Seq<T> {
        self.tasks@
    }

    pub closed spec fn max(&self) -> usize {
        self.max_queue_size
    }

    pub closed spec fn is_shut_down(&self) -> bool {
        self.shutdown
    }

    /// An empty queue that accepts tasks while it holds at most
    /// `max_queue_size` of them.
    pub fn new(max_queue_size: usize) -> (r: SubmissionQueue<T>)
        ensures
            r.tasks() == Seq::<T>::empty(),
            r.max() == max_queue_size,
            !r.is_shut_down(),
    {
        SubmissionQueue { tasks: VecDeque::new(), max_queue_size, shutdown: false }
    }

    /// Queues `task`, unless the pool is shutting down or the queue already
    /// holds more than its maximum.
    pub fn submit(&mut self, task: T) -> (r: Result<(), SubmitError>)
        ensures
            final(self).max() == old(self).max(),
            final(self).is_shut_down() == old(self).is_shut_down(),
            old(self).is_shut_down() ==> r == Err::<(), SubmitError>(SubmitError::Rejected)
                && final(self).tasks() == old(self).tasks(),
            !old(self).is_shut_down() && old(self).tasks().len() > old(self).max() ==> r == Err::<
                (),
                SubmitError,
            >(SubmitError::Full) && final(self).tasks() == old(self).tasks(),
            !old(self).is_shut_down() && old(self).tasks().len() <= old(self).max() ==> r == Ok::<
                (),
                SubmitError,
            >(()) && final(self).tasks() == old(self).tasks().push(task),
    {
        if self.shutdown {
            return Err(SubmitError::Rejected);
        }
        if self.tasks.len() > self.max_queue_size {
            return Err(SubmitError::Full);
        }
        self.tasks.push_back(task);
        Ok(())
    }

    /// The next step of a worker: the oldest task if there is one; otherwise
    /// stop once shutdown has begun, or wait.
    pub fn next_task(&mut self) -> (r: WorkerStep<T>)
        ensures
            final(self).max() == old(self).max(),
            final(self).is_shut_down() == old(self).is_shut_down(),
            (r, final(self).tasks()) == worker_step(old(self).tasks(), old(self).is_shut_down()),
    {
        match self.tasks.pop_front() {
            Some(t) => WorkerStep::Run(t),
            None => {
                if self.shutdown {
                    WorkerStep::Exit
                } else {
                    WorkerStep::Wait
                }
            },
        }
    }

    /// Begins shutdown: no task is accepted from now on.
    pub fn initiate_shutdown(&mut self)
        ensures
            final(self).is_shut_down(),
            final(self).tasks() == old(self).tasks(),
            final(self).max() == old(self).max(),
    {
        self.shutdown = true;
    }

    pub fn is_shutdown(&self) -> (r: bool)
        ensures
            r == self.is_shut_down(),
    {
        self.shutdown
    }

    /// Number of waiting tasks.
    pub fn len(&self) -> (r: usize)
        ensures
            r == self.tasks().len(),
    {
        self.tasks.len()
    }
}

/// One worker step on the waiting tasks: the step, and the tasks left.
pub open spec fn worker_step<T>(tasks: Seq<T>, shut_down: bool) -> (WorkerStep<T>, Seq<T>) {
    if tasks.len() > 0 {
        (WorkerStep::Run(tasks[0]), tasks.drop_first())
    } else if shut_down {
        (WorkerStep::Exit, tasks)
    } else {
        (WorkerStep::Wait, tasks)
    }
}

/// The tasks that worker steps run, in order, once shutdown has begun, until
/// a step is not a run.
pub open spec fn drained<T>(tasks: Seq<T>) -> Seq<T>
    decreases tasks.len(),
{
    match worker_step(tasks, true) {
        (WorkerStep::Run(t), rest) => if rest.len() < tasks.len() {
            seq![t] + drained(rest)
        } else {
            Seq::empty()
        },
        _ => Seq::empty(),
    }
}

/// Once shutdown has begun no step waits: workers run every queued task, in
/// order, and the step after the last one stops.
pub proof fn lemma_shutdown_drains<T>(tasks: Seq<T>)
    ensures
        !(worker_step(tasks, true).0 is Wait),
        drained(tasks) == tasks,
        worker_step(tasks.skip(tasks.len() as int), true).0 is Exit,
    decreases tasks.len(),
{
    if tasks.len() > 0 {
        lemma_shutdown_drains(tasks.drop_first());
        assert(seq![tasks[0]] + tasks.drop_first() =~= tasks);
    }
    assert(tasks.skip(tasks.len() as int) =~= Seq::<T>::empty());
}

} // verus!
