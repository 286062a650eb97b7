//! A bounded priority queue of pending tasks and per-task outcome counters.
//!
//! The queue yields the task of highest priority first and, among equal
//! priorities, the one submitted earliest (ties of equal timestamps go by
//! order of submission). Times are nanoseconds on the scheduler's monotonic
//! clock, counted from its creation.

use crate::clock::{monotonic_origin, nanos_since};
use tokio::time::Instant;
use vstd::prelude::*;

verus! {

/// Failures reported by the scheduler.
#[derive(Debug)]
pub enum SchedulerError {
    TaskNotFound(String),
    QueueFull(String),
    InvalidSchedule(String),
    ExecutionError(String),
}

/// What a caller submits. `max_retries`, `timeout_ms` and `dependencies` are
/// carried along but not acted upon.
#[derive(Debug)]
pub struct TaskConfig {
    pub id: String,
    pub priority: u8,
    pub max_retries: u32,
    pub timeout_ms: u64,
    pub dependencies: Vec<String>,
}

/// Outcome counters of one task id. `average_duration_ns` is carried along
/// but not maintained; `last_execution` is a time on the scheduler's clock.
#[derive(Clone, Copy, Debug)]
pub struct TaskStats {
    pub total_executed: u64,
    pub total_failed: u64,
    pub average_duration_ns: u64,
    pub last_execution: Option<u64>,
}

/// A pending task: its config, stamped with its submission time.
#[derive(Debug)]
pub struct Task {
    pub id: String,
    pub priority: u8,
    pub scheduled_time: u64,
    pub config: TaskConfig,
    pub retries: u32,
}

impl Task {
    /// The task that `schedule_task_at` builds from `config` at time `now`.
    pub open spec fn submitted(config: TaskConfig, now: u64) -> Task {
        Task { id: config.id, priority: config.priority, scheduled_time: now, config, retries: 0 }
    }

    /// `self` goes before `other`: a higher priority, or the same priority
    /// and an earlier submission time.
    pub open spec fn outranks(self, other: Task) -> bool {
        self.priority > other.priority || (self.priority == other.priority
            && self.scheduled_time < other.scheduled_time)
    }

    fn outranks_exec(&self, other: &Task) -> (r: bool)
        ensures
            r == self.outranks(*other),
    {
        self.priority > other.priority || (self.priority == other.priority
            && self.scheduled_time < other.scheduled_time)
    }
}

/// Index `i` of `q` holds the task to dispatch next: nothing in `q` outranks
/// it, and it outranks every task before it (so it is the first of the best).
pub open spec fn is_next(q: Seq<Task>, i: int) -> bool {
    &&& 0 <= i < q.len()
    &&& forall|j: int| 0 <= j < q.len() ==> !(#[trigger] q[j]).outranks(q[i])
    &&& forall|j: int| 0 <= j < i ==> q[i].outranks(#[trigger] q[j])
}

/// `q` with every task of id `id` taken out, the rest in order.
pub open spec fn without_id(q: Seq<Task>, id: Seq<char>) -> Seq<Task> {
    q.filter(other_id(id))
}

/// The task's id is not `id`.
pub open spec fn other_id(id: Seq<char>) -> spec_fn(Task) -> bool {
    |t: Task| t.id@ != id
}

/// Some task of `q` has id `id`.
pub open spec fn holds_id(q: Seq<Task>, id: Seq<char>) -> bool {
    exists|i: int| 0 <= i < q.len() && (#[trigger] q[i]).id@ == id
}

/// Index `i` of the table `s` holds the counters of `id`.
pub open spec fn stats_at(s: Seq<(String, TaskStats)>, id: Seq<char>, i: int) -> bool {
    0 <= i < s.len() && s[i].0@ == id
}

/// Counters after one more outcome, recorded at `now`.
pub open spec fn bumped(st: TaskStats, failed: bool, now: u64) -> TaskStats {
    TaskStats {
        total_executed: st.total_executed.saturating_add(1),
        total_failed: if failed {
            st.total_failed.saturating_add(1)
        } else {
            st.total_failed
        },
        average_duration_ns: st.average_duration_ns,
        last_execution: Some(now),
    }
}

/// Counters of an id with no recorded outcome.
pub open spec fn fresh_stats() -> TaskStats {
    TaskStats { total_executed: 0, total_failed: 0, average_duration_ns: 0, last_execution: None }
}

/// Pending tasks in order of submission, bounded by `max_concurrent`, and
/// the outcome counters of the tasks that have run.
pub struct Scheduler {
    task_queue: Vec<Task>,
    task_stats: Vec<(String, TaskStats)>,
    max_concurrent: usize,
    origin: Instant,
}

impl Scheduler {
    /// The pending tasks, in order of submission.
    pub closed spec fn pending(&self) -> Seq<Task> {
        self.task_queue@
    }

    /// The most tasks that may be pending at once.
    pub closed spec fn capacity(&self) -> nat {
        self.max_concurrent as nat
    }

    /// The outcome table: one entry per task id that has an outcome.
    pub closed spec fn stats(&self) -> Seq<(String, TaskStats)> {
        self.task_stats@
    }

    pub closed spec fn wf(&self) -> bool {
        &&& self.task_queue@.len() <= self.max_concurrent
        &&& forall|i: int, j: int|
            0 <= i < j < self.task_stats@.len() ==> (#[trigger] self.task_stats@[i]).0@
                != (#[trigger] self.task_stats@[j]).0@
    }

    pub fn new(max_concurrent: usize) -> (r: Scheduler)
        ensures
            r.wf(),
            r.pending() == Seq::<Task>::empty(),
            r.stats() == Seq::<(String, TaskStats)>::empty(),
            r.capacity() == max_concurrent,
    {
        Scheduler {
            task_queue: Vec::new(),
            task_stats: Vec::new(),
            max_concurrent,
            origin: monotonic_origin(),
        }
    }

    /// Submits `config` at time `now`: it joins the queue unless as many
    /// tasks as the capacity are already pending.
    pub fn schedule_task_at(&mut self, config: TaskConfig, now: u64) -> (r: Result<
        (),
        SchedulerError,
    >)
        requires
            old(self).wf(),
        ensures
            final(self).wf(),
            final(self).capacity() == old(self).capacity(),
            final(self).stats() == old(self).stats(),
            old(self).pending().len() < old(self).capacity() ==> r is Ok && final(self).pending()
                == old(self).pending().push(Task::submitted(config, now)),
            old(self).pending().len() >= old(self).capacity() ==> (r matches Err(
                SchedulerError::QueueFull(_),
            )) && final(self).pending() == old(self).pending(),
    {
        if self.task_queue.len() >= self.max_concurrent {
            return Err(SchedulerError::QueueFull("Maximum concurrent tasks reached".to_owned()));
        }
        let id = config.id.clone();
        let task = Task { id, priority: config.priority, scheduled_time: now, config, retries: 0 };
        self.task_queue.push(task);
        Ok(())
    }

    /// Submits `config`, stamped with the current time.
    pub fn schedule_task(&mut self, config: TaskConfig) -> (r: Result<(), SchedulerError>)
        requires
            old(self).wf(),
        ensures
            final(self).wf(),
            final(self).capacity() == old(self).capacity(),
            final(self).stats() == old(self).stats(),
            old(self).pending().len() < old(self).capacity() ==> r is Ok && exists|now: u64|
                final(self).pending() == old(self).pending().push(Task::submitted(config, now)),
            old(self).pending().len() >= old(self).capacity() ==> (r matches Err(
                SchedulerError::QueueFull(_),
            )) && final(self).pending() == old(self).pending(),
    {
        let now = nanos_since(&self.origin);
        self.schedule_task_at(config, now)
    }

    /// Takes the task to dispatch next out of the queue, if any is pending.
    pub fn dispatch_next(&mut self) -> (r: Option<Task>)
        requires
            old(self).wf(),
        ensures
            final(self).wf(),
            final(self).capacity() == old(self).capacity(),
            final(self).stats() == old(self).stats(),
            old(self).pending().len() == 0 ==> (r is None && final(self).pending()
                == old(self).pending()),
            old(self).pending().len() > 0 ==> exists|i: int|
                is_next(old(self).pending(), i) && r == Some(old(self).pending()[i])
                    && final(self).pending() == old(self).pending().remove(i),
    {
        let n = self.task_queue.len();
        if n == 0 {
            return None;
        }
        let mut best: usize = 0;
        let mut k: usize = 1;
        while k < n
            invariant
                n == self.task_queue@.len(),
                1 <= k <= n,
                is_next(self.task_queue@.take(k as int), best as int),
            decreases n - k,
        {
            let q = Ghost(self.task_queue@);
            assert(q@.take(k as int + 1) == q@.take(k as int).push(q@[k as int]));
            if self.task_queue[k].outranks_exec(&self.task_queue[best]) {
                best = k;
            }
            k = k + 1;
        }
        assert(self.task_queue@.take(n as int) == self.task_queue@);
        let t = self.task_queue.remove(best);
        Some(t)
    }

    /// Takes every pending task of id `task_id` out of the queue; fails if
    /// there was none.
    pub fn cancel_task(&mut self, task_id: &str) -> (r: Result<(), SchedulerError>)
        requires
            old(self).wf(),
        ensures
            final(self).wf(),
            final(self).capacity() == old(self).capacity(),
            final(self).stats() == old(self).stats(),
            final(self).pending() == without_id(old(self).pending(), task_id@),
            r is Ok <==> holds_id(old(self).pending(), task_id@),
            r matches Err(e) ==> e matches SchedulerError::TaskNotFound(m) && m@ == task_id@,
    {
        let key = task_id.to_owned();
        let ghost q0 = self.task_queue@;
        let ghost pred = other_id(task_id@);
        let before_len = self.task_queue.len();
        let mut i: usize = 0;
        let ghost mut j: int = 0;
        while i < self.task_queue.len()
            invariant
                0 <= i <= j <= q0.len(),
                self.task_queue@.len() == i + (q0.len() - j),
                self.task_queue@.take(i as int) == q0.take(j).filter(pred),
                self.task_queue@.skip(i as int) == q0.skip(j),
                self.task_stats == old(self).task_stats,
                self.max_concurrent == old(self).max_concurrent,
                key@ == task_id@,
                pred == other_id(task_id@),
                i == j <==> forall|k: int| 0 <= k < j ==> (#[trigger] q0[k]).id@ != task_id@,
            decreases self.task_queue@.len() - i,
        {
            let ghost cur = self.task_queue@;
            proof {
                reveal(Seq::filter);
            }
            assert(cur[i as int] == q0[j]) by {
                assert(cur.skip(i as int)[0] == q0.skip(j)[0]);
            }
            assert(q0.take(j + 1).drop_last() =~= q0.take(j));
            assert(q0.take(j + 1).last() == q0[j]);
            assert(cur.skip(i as int + 1) =~= cur.skip(i as int).skip(1));
            assert(q0.skip(j + 1) =~= q0.skip(j).skip(1));
            if self.task_queue[i].id == key {
                self.task_queue.remove(i);
                proof {
                    assert(self.task_queue@.take(i as int) =~= cur.take(i as int));
                    assert(self.task_queue@.skip(i as int) =~= cur.skip(i as int + 1));
                    assert(!pred(q0[j]));
                    assert(q0.take(j + 1).filter(pred) == q0.take(j).filter(pred));
                    j = j + 1;
                }
            } else {
                proof {
                    assert(self.task_queue@.take(i as int + 1) =~= cur.take(i as int).push(
                        cur[i as int],
                    ));
                    assert(self.task_queue@.skip(i as int + 1) =~= cur.skip(i as int + 1));
                    assert(pred(q0[j]));
                    assert(q0.take(j + 1).filter(pred) == q0.take(j).filter(pred).push(q0[j]));
                    j = j + 1;
                }
                i = i + 1;
            }
        }
        proof {
            assert(q0.take(j) =~= q0);
            assert(self.task_queue@.take(i as int) =~= self.task_queue@);
        }
        if self.task_queue.len() == before_len {
            return Err(SchedulerError::TaskNotFound(key));
        }
        Ok(())
    }

    /// The counters of `task_id`; fails if no outcome was ever recorded for it.
    pub fn get_task_stats(&self, task_id: &str) -> (r: Result<TaskStats, SchedulerError>)
        requires
            self.wf(),
        ensures
            r is Ok <==> exists|i: int| stats_at(self.stats(), task_id@, i),
            forall|i: int| stats_at(self.stats(), task_id@, i) ==> r == Ok::<
                TaskStats,
                SchedulerError,
            >(self.stats()[i].1),
            r matches Err(e) ==> e matches SchedulerError::TaskNotFound(m) && m@ == task_id@,
    {
        let key = task_id.to_owned();
        match self.find_stats(&key) {
            Some(i) => Ok(self.task_stats[i].1),
            None => Err(SchedulerError::TaskNotFound(key)),
        }
    }

    fn find_stats(&self, key: &String) -> (r: Option<usize>)
        requires
            self.wf(),
        ensures
            r matches Some(i) ==> stats_at(self.stats(), key@, i as int),
            r is None ==> forall|i: int| !stats_at(self.stats(), key@, i),
    {
        let mut i: usize = 0;
        while i < self.task_stats.len()
            invariant
                i <= self.task_stats@.len(),
                forall|k: int| 0 <= k < i ==> !stats_at(self.stats(), key@, k),
            decreases self.task_stats@.len() - i,
        {
            if self.task_stats[i].0 == *key {
                return Some(i);
            }
            i = i + 1;
        }
        None
    }

    /// Records one outcome of `task_id` at time `now`: the id's counters are
    /// created on its first outcome, then counted up.
    pub fn record_execution_at(&mut self, task_id: &str, failed: bool, now: u64)
        requires
            old(self).wf(),
        ensures
            final(self).wf(),
            final(self).capacity() == old(self).capacity(),
            final(self).pending() == old(self).pending(),
            forall|i: int|
                stats_at(old(self).stats(), task_id@, i) ==> final(self).stats() == old(self).stats().update(i, (old(self).stats()[i].0, bumped(old(self).stats()[i].1, failed, now))),
            (forall|i: int| !stats_at(old(self).stats(), task_id@, i)) ==> final(self).stats().len()
                == old(self).stats().len() + 1 && final(self).stats().drop_last() == old(self).stats()
                && final(self).stats().last().0@ == task_id@ && final(self).stats().last().1
                == bumped(fresh_stats(), failed, now),
    {
        let key = task_id.to_owned();
        match self.find_stats(&key) {
            Some(i) => {
                let (k, st) = self.task_stats.remove(i);
                let st2 = TaskStats {
                    total_executed: st.total_executed.saturating_add(1),
                    total_failed: if failed {
                        st.total_failed.saturating_add(1)
                    } else {
                        st.total_failed
                    },
                    average_duration_ns: st.average_duration_ns,
                    last_execution: Some(now),
                };
                self.task_stats.insert(i, (k, st2));
                assert(self.task_stats@ =~= old(self).task_stats@.update(
                    i as int,
                    (old(self).task_stats@[i as int].0, bumped(old(self).task_stats@[i as int].1, failed, now)),
                ));
                assert(forall|x: int|
                    0 <= x < self.task_stats@.len() ==> (#[trigger] self.task_stats@[x]).0
                        == old(self).task_stats@[x].0);
            },
            None => {
                let st = TaskStats {
                    total_executed: 1,
                    total_failed: if failed {
                        1
                    } else {
                        0
                    },
                    average_duration_ns: 0,
                    last_execution: Some(now),
                };
                self.task_stats.push((key, st));
                assert(self.task_stats@.drop_last() =~= old(self).task_stats@);
                assert forall|a: int, b: int|
                    0 <= a < b < self.task_stats@.len() implies (#[trigger] self.task_stats@[a]).0@
                        != (#[trigger] self.task_stats@[b]).0@ by {
                    assert(self.task_stats@[a] == old(self).task_stats@[a]);
                    if b < old(self).task_stats@.len() {
                        assert(self.task_stats@[b] == old(self).task_stats@[b]);
                    } else {
                        assert(!stats_at(old(self).task_stats@, key@, a));
                    }
                }
            },
        }
    }

    /// Records one outcome of `task_id`, stamped with the current time.
    pub fn record_execution(&mut self, task_id: &str, failed: bool)
        requires
            old(self).wf(),
        ensures
            final(self).wf(),
            final(self).capacity() == old(self).capacity(),
            final(self).pending() == old(self).pending(),
            exists|now: u64|
                {
                    &&& forall|i: int|
                        stats_at(old(self).stats(), task_id@, i) ==> final(self).stats() == old(
                            self).stats().update(
                            i,
                            (old(self).stats()[i].0, bumped(old(self).stats()[i].1, failed, now)),
                        )
                    &&& (forall|i: int| !stats_at(old(self).stats(), task_id@, i))
                        ==> final(self).stats().len() == old(self).stats().len() + 1
                        && final(self).stats().drop_last() == old(self).stats()
                        && final(self).stats().last().0@ == task_id@ && final(self).stats().last().1
                        == bumped(fresh_stats(), failed, now)
                },
    {
        let now = nanos_since(&self.origin);
        self.record_execution_at(task_id, failed, now);
    }

    pub fn get_queue_size(&self) -> (r: usize)
        ensures
            r == self.pending().len(),
    {
        self.task_queue.len()
    }

    pub fn max_concurrent(&self) -> (r: usize)
        ensures
            r == self.capacity(),
    {
        self.max_concurrent
    }

    /// Drops every pending task; tasks already dispatched are untouched.
    pub fn clear_queue(&mut self)
        requires
            old(self).wf(),
        ensures
            final(self).wf(),
            final(self).capacity() == old(self).capacity(),
            final(self).stats() == old(self).stats(),
            final(self).pending() == Seq::<Task>::empty(),
    {
        self.task_queue.clear();
    }
}

} // verus!

verus! {

/// The queue after each of `ts` was offered in turn to a queue with room
/// for `cap` tasks, as `schedule_task_at` does: a task joins while fewer
/// than `cap` are pending and is refused otherwise.
pub open spec fn offered_all(q: Seq<Task>, cap: nat, ts: Seq<Task>) -> Seq<Task>
    decreases ts.len(),
{
    if ts.len() == 0 {
        q
    } else {
        let before = offered_all(q, cap, ts.drop_last());
        if before.len() < cap {
            before.push(ts.last())
        } else {
            before
        }
    }
}

/// Offering tasks one after another: the pending count is the number
/// offered, up to the capacity; every task offered while `cap` are pending
/// is refused, so the count never passes the capacity.
pub proof fn lemma_pending_count(q: Seq<Task>, cap: nat, ts: Seq<Task>)
    requires
        q.len() <= cap,
    ensures
        offered_all(q, cap, ts).len() == if q.len() + ts.len() <= cap {
            q.len() + ts.len()
        } else {
            cap
        },
    decreases ts.len(),
{
    if ts.len() > 0 {
        lemma_pending_count(q, cap, ts.drop_last());
    }
}

/// A pending task is never dispatched while a task of higher priority is
/// pending.
pub proof fn lemma_higher_priority_first(q: Seq<Task>, i: int, a: int, b: int)
    requires
        is_next(q, i),
        0 <= a < q.len(),
        0 <= b < q.len(),
        q[a].priority > q[b].priority,
    ensures
        i != b,
{
    assert(q[a].outranks(q[b]));
}

/// Of two pending tasks of equal priority, the one submitted later is never
/// dispatched while the earlier one is pending.
pub proof fn lemma_earlier_submission_first(q: Seq<Task>, i: int, a: int, b: int)
    requires
        is_next(q, i),
        0 <= a < q.len(),
        0 <= b < q.len(),
        q[a].priority == q[b].priority,
        q[a].scheduled_time < q[b].scheduled_time,
    ensures
        i != b,
{
    assert(q[a].outranks(q[b]));
}

/// The task to dispatch next is determined by the queue.
pub proof fn lemma_next_unique(q: Seq<Task>, i: int, k: int)
    requires
        is_next(q, i),
        is_next(q, k),
    ensures
        i == k,
{
    if i < k {
        assert(q[k].outranks(q[i]));
    } else if k < i {
        assert(q[i].outranks(q[k]));
    }
}

/// Cancelling an id that exactly one pending task has removes that task
/// alone: the queue is one shorter and otherwise in order.
pub proof fn lemma_cancel_removes_one(q: Seq<Task>, id: Seq<char>, i: int)
    requires
        0 <= i < q.len(),
        q[i].id@ == id,
        forall|j: int| 0 <= j < q.len() && j != i ==> (#[trigger] q[j]).id@ != id,
    ensures
        without_id(q, id) == q.remove(i),
        without_id(q, id).len() == q.len() - 1,
{
    crate::seq_facts::lemma_filter_drops_one(q, other_id(id), i);
}

} // verus!

verus! {

/// An operation on the pending queue: a submission, a dispatch, or a
/// cancellation by id.
pub enum QueueOp {
    Offer(Task),
    Dispatch,
    Cancel(String),
}

/// The queue after `op`, as `schedule_task_at`, `dispatch_next` and
/// `cancel_task` leave it.
pub open spec fn after_op(q: Seq<Task>, cap: nat, op: QueueOp) -> Seq<Task> {
    match op {
        QueueOp::Offer(t) => if q.len() < cap {
            q.push(t)
        } else {
            q
        },
        QueueOp::Dispatch => if q.len() > 0 {
            q.remove(choose|i: int| is_next(q, i))
        } else {
            q
        },
        QueueOp::Cancel(id) => without_id(q, id@),
    }
}

/// How many tasks `op` adds to `q` (1 for an accepted submission) and takes
/// out of it (1 for a dispatch from a non-empty queue, one per task of the id
/// for a cancellation).
pub open spec fn op_counts(q: Seq<Task>, cap: nat, op: QueueOp) -> (int, int) {
    match op {
        QueueOp::Offer(_) => if q.len() < cap {
            (1, 0)
        } else {
            (0, 0)
        },
        QueueOp::Dispatch => if q.len() > 0 {
            (0, 1)
        } else {
            (0, 0)
        },
        QueueOp::Cancel(id) => (0, q.filter(|t: Task| t.id@ == id@).len() as int),
    }
}

/// The queue after `ops` in turn, with the number of tasks accepted and the
/// number taken out (dispatched or cancelled) along the way.
pub open spec fn run_ops(q: Seq<Task>, cap: nat, ops: Seq<QueueOp>) -> (Seq<Task>, int, int)
    decreases ops.len(),
{
    if ops.len() == 0 {
        (q, 0, 0)
    } else {
        let (q1, added, taken) = run_ops(q, cap, ops.drop_last());
        let (a, t) = op_counts(q1, cap, ops.last());
        (after_op(q1, cap, ops.last()), added + a, taken + t)
    }
}

/// A non-empty queue has a task to dispatch next.
pub proof fn lemma_next_exists(q: Seq<Task>)
    requires
        q.len() > 0,
    ensures
        exists|i: int| is_next(q, i),
    decreases q.len(),
{
    if q.len() == 1 {
        assert(is_next(q, 0));
    } else {
        let p = q.drop_last();
        lemma_next_exists(p);
        let k = choose|k: int| is_next(p, k);
        assert(forall|j: int| 0 <= j < p.len() ==> p[j] == q[j]);
        if q.last().outranks(q[k]) {
            assert(is_next(q, q.len() - 1));
        } else {
            assert(is_next(q, k));
        }
    }
}

/// Over any run of submissions, dispatches and cancellations from a queue
/// within its capacity, the pending count is the starting count plus the
/// tasks accepted minus the tasks dispatched or cancelled, and it never
/// passes the capacity.
pub proof fn lemma_pending_count_over_run(q: Seq<Task>, cap: nat, ops: Seq<QueueOp>)
    requires
        q.len() <= cap,
    ensures
        run_ops(q, cap, ops).0.len() == q.len() + run_ops(q, cap, ops).1 - run_ops(q, cap, ops).2,
        run_ops(q, cap, ops).0.len() <= cap,
    decreases ops.len(),
{
    if ops.len() > 0 {
        lemma_pending_count_over_run(q, cap, ops.drop_last());
        let q1 = run_ops(q, cap, ops.drop_last()).0;
        match ops.last() {
            QueueOp::Dispatch => {
                if q1.len() > 0 {
                    lemma_next_exists(q1);
                }
            },
            QueueOp::Cancel(id) => {
                crate::seq_facts::lemma_filter_partition(q1, other_id(id@), |t: Task| t.id@ == id@);
            },
            QueueOp::Offer(_) => {},
        }
    }
}

} // verus!
