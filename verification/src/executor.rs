//! Scheduling decisions of a single-threaded task executor: which tasks are
//! alive and in which order woken tasks are polled. Polling itself, and the
//! wakers that report readiness, belong to the caller.

use vstd::prelude::*;
use std::collections::{BTreeSet, VecDeque};

verus! {

broadcast use vstd::std_specs::btree::group_btree_axioms;

/// Identifier of a task.
#[derive(Clone, Copy, PartialEq, Eq, Structural, Debug)]
pub struct TaskId(pub u64);

/// The live tasks and the queue of tasks woken and waiting to be polled.
pub struct Executor {
    tasks: BTreeSet<u64>,
    task_queue: VecDeque<u64>,
}

/// Where polling the queue starting at `q` next lands: the first entry whose
/// task is alive, and the queue left after it.
pub open spec fn first_live(q: Seq<u64>, tasks: Set<u64>) -> (Option<u64>, Seq<u64>)
    decreases q.len(),
{
    if q.len() == 0 {
        (None, q)
    } else if tasks.contains(q[0]) {
        (Some(q[0]), q.drop_first())
    } else {
        first_live(q.drop_first(), tasks)
    }
}

impl Executor {
    /// The live tasks.
    pub closed spec fn live(&self) -> Set<u64> {
        self.tasks@
    }

    /// The woken tasks, first to be polled first; entries of finished tasks
    /// are skipped.
    pub closed spec fn queue(&self) -> Seq<u64> {
        self.task_queue@
    }

    pub fn new() -> (r: Self)
        ensures
            r.live() == Set::<u64>::empty(),
            r.queue() == Seq::<u64>::empty(),
    {
        Executor { tasks: BTreeSet::new(), task_queue: VecDeque::new() }
    }

    /// Adds a task and queues it for its first poll; a task id that is alive
    /// is an error, which `requires` excludes.
    pub fn spawn(&mut self, task: TaskId)
        requires
            !old(self).live().contains(task.0),
        ensures
            final(self).live() == old(self).live().insert(task.0),
            final(self).queue() == old(self).queue().push(task.0),
    {
        let fresh = self.tasks.insert(task.0);
        self.task_queue.push_back(task.0);
    }

    /// Queues a task for polling, as its waker does.
    pub fn wake_task(&mut self, task: TaskId)
        ensures
            final(self).live() == old(self).live(),
            final(self).queue() == old(self).queue().push(task.0),
    {
        self.task_queue.push_back(task.0);
    }

    /// Takes the next task to poll off the queue, skipping entries of tasks
    /// that no longer exist; `None` once the queue is empty.
    pub fn next_ready(&mut self) -> (r: Option<TaskId>)
        ensures
            final(self).live() == old(self).live(),
            r matches Some(t) ==> first_live(old(self).queue(), old(self).live()).0 == Some(t.0),
            r is None ==> first_live(old(self).queue(), old(self).live()).0 is None,
            final(self).queue() == first_live(old(self).queue(), old(self).live()).1,
    {
        loop
            invariant
                self.live() == old(self).live(),
                first_live(self.queue(), self.live()) == first_live(old(self).queue(), old(self).live()),
            decreases self.queue().len(),
        {
            match self.task_queue.pop_front() {
                None => {
                    return None;
                },
                Some(id) => {
                    proof {
                        assert(old(self).queue().len() >= 0);
                    }
                    if self.tasks.contains(&id) {
                        return Some(TaskId(id));
                    }
                },
            }
        }
    }

    /// Removes a task whose poll reported it finished.
    pub fn complete(&mut self, task: TaskId)
        ensures
            final(self).live() == old(self).live().remove(task.0),
            final(self).queue() == old(self).queue(),
    {
        let was = self.tasks.remove(&task.0);
    }

    /// No task is alive.
    pub fn is_empty(&self) -> (r: bool)
        ensures
            r == self.live().is_empty(),
    {
        self.tasks.is_empty()
    }
}

/// A task taken off the queue was woken and is alive; the queue shrinks.
pub proof fn law_next_ready_alive(q: Seq<u64>, tasks: Set<u64>)
    ensures
        first_live(q, tasks).0 matches Some(t) ==> tasks.contains(t) && q.contains(t),
        first_live(q, tasks).1.len() <= q.len(),
        first_live(q, tasks).0 is None ==> first_live(q, tasks).1.len() == 0,
    decreases q.len(),
{
    if q.len() > 0 {
        if !tasks.contains(q[0]) {
            law_next_ready_alive(q.drop_first(), tasks);
            if first_live(q, tasks).0 is Some {
                let t = first_live(q, tasks).0->0;
                let k = choose|k: int| 0 <= k < q.drop_first().len() && q.drop_first()[k] == t;
                assert(q[k + 1] == t);
            }
        } else {
            assert(q[0] == q[0]);
        }
    }
}

} // verus!
