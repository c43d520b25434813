use std::collections::VecDeque;
use vstd::prelude::*;
use vstd::seq_lib::lemma_multiset_commutative;

use crate::clock::Clock;
use crate::clock::tick_spec;
use crate::delay::Delay;
use crate::delay::PollResult;

verus! {

/// A unit of asynchronous work: a state machine that awaits one suspension
/// primitive and completes, yielding that primitive's value, the first time
/// it is polled after the deadline has passed. Its progress state is private
/// to the task; the scheduler only polls it.
#[derive(Clone, Copy, PartialEq, Eq, Structural, Debug)]
pub struct Task {
    /// The suspension primitive the task is awaiting.
    pub delay: Delay,
}

/// Whether a polling step of `t` at time `now` reports ready.
pub open spec fn task_ready(t: Task, now: int) -> bool {
    now >= t.delay.when
}

/// Time units left until `t` becomes ready.
pub open spec fn remaining(t: Task, now: int) -> int {
    if t.delay.when > now {
        t.delay.when - now
    } else {
        0
    }
}

impl Task {
    /// A task that awaits the given suspension primitive.
    pub fn new(delay: Delay) -> (t: Task)
        ensures
            t.delay == delay,
    {
        Task { delay }
    }

    /// One polling step at time `now`: the task defers to the suspension
    /// primitive it awaits, and completes exactly when that wait is over.
    pub fn poll(&self, now: u64) -> (r: PollResult)
        ensures
            r == (if task_ready(*self, now as int) {
                PollResult::Ready(self.delay.value)
            } else {
                PollResult::Pending
            }),
    {
        self.delay.poll(now)
    }
}

/// The longest wait among the queued tasks: how many time units must pass
/// before the last of them can become ready.
pub open spec fn max_remaining(q: Seq<Task>, now: int) -> int
    decreases q.len(),
{
    if q.len() == 0 {
        0
    } else {
        let rest = max_remaining(q.drop_first(), now);
        if remaining(q[0], now) > rest {
            remaining(q[0], now)
        } else {
            rest
        }
    }
}

/// The queue after one iteration of the run loop: the head task is popped
/// and polled; it is dropped if ready and moved to the tail if pending.
pub open spec fn step_queue(q: Seq<Task>, now: int) -> Seq<Task>
    recommends
        q.len() > 0,
{
    if task_ready(q[0], now) {
        q.drop_first()
    } else {
        q.drop_first().push(q[0])
    }
}

/// The values recorded by draining queue `q` starting at time `now`, in
/// completion order, when one time unit passes per polling step.
pub open spec fn run_out(q: Seq<Task>, now: int) -> Seq<u64>
    decreases max_remaining(q, now), q.len(),
    via run_out_decreases
{
    if q.len() == 0 {
        Seq::empty()
    } else if task_ready(q[0], now) {
        seq![q[0].delay.value] + run_out(step_queue(q, now), tick_spec(now))
    } else {
        run_out(step_queue(q, now), tick_spec(now))
    }
}

/// The instant the clock shows once queue `q`, drained from time `now`, has
/// emptied.
pub open spec fn run_end(q: Seq<Task>, now: int) -> int
    decreases max_remaining(q, now), q.len(),
    via run_end_decreases
{
    if q.len() == 0 {
        now
    } else {
        run_end(step_queue(q, now), tick_spec(now))
    }
}

/// The values the queued tasks will yield, in queue order.
pub open spec fn task_values(q: Seq<Task>) -> Seq<u64> {
    q.map_values(|t: Task| t.delay.value)
}

proof fn lemma_max_remaining_nonneg(q: Seq<Task>, now: int)
    ensures
        max_remaining(q, now) >= 0,
    decreases q.len(),
{
    if q.len() > 0 {
        lemma_max_remaining_nonneg(q.drop_first(), now);
    }
}

proof fn lemma_remaining_le_max(q: Seq<Task>, now: int, i: int)
    requires
        0 <= i < q.len(),
    ensures
        remaining(q[i], now) <= max_remaining(q, now),
    decreases q.len(),
{
    if i > 0 {
        lemma_remaining_le_max(q.drop_first(), now, i - 1);
        assert(q.drop_first()[i - 1] == q[i]);
    }
}

proof fn lemma_max_remaining_le(q: Seq<Task>, now: int, b: int)
    requires
        b >= 0,
        forall|i: int| 0 <= i < q.len() ==> remaining(q[i], now) <= b,
    ensures
        max_remaining(q, now) <= b,
    decreases q.len(),
{
    if q.len() > 0 {
        assert forall|i: int| 0 <= i < q.drop_first().len() implies remaining(
            q.drop_first()[i],
            now,
        ) <= b by {
            assert(q.drop_first()[i] == q[i + 1]);
        }
        lemma_max_remaining_le(q.drop_first(), now, b);
    }
}

/// One iteration of the run loop never lengthens the longest wait, and an
/// iteration that re-queues a pending head task strictly shortens it: the
/// measure behind the scheduler's termination.
proof fn lemma_step_measure(q: Seq<Task>, now: int)
    requires
        q.len() > 0,
    ensures
        max_remaining(q, now) >= 0,
        max_remaining(step_queue(q, now), tick_spec(now)) <= max_remaining(q, now),
        !task_ready(q[0], now) ==> max_remaining(step_queue(q, now), tick_spec(now))
            < max_remaining(q, now),
{
    let m = max_remaining(q, now);
    let q2 = step_queue(q, now);
    let n2 = tick_spec(now);
    lemma_max_remaining_nonneg(q, now);
    if task_ready(q[0], now) {
        assert forall|i: int| 0 <= i < q2.len() implies remaining(q2[i], n2) <= m by {
            assert(q2[i] == q[i + 1]);
            lemma_remaining_le_max(q, now, i + 1);
        }
        lemma_max_remaining_le(q2, n2, m);
    } else {
        lemma_remaining_le_max(q, now, 0);
        assert(m >= 1);
        assert(n2 == now + 1);
        assert forall|i: int| 0 <= i < q2.len() implies remaining(q2[i], n2) <= m - 1 by {
            if i < q.len() - 1 {
                assert(q2[i] == q[i + 1]);
                lemma_remaining_le_max(q, now, i + 1);
            } else {
                assert(q2[i] == q[0]);
            }
        }
        lemma_max_remaining_le(q2, n2, m - 1);
    }
}

#[via_fn]
proof fn run_out_decreases(q: Seq<Task>, now: int) {
    if q.len() > 0 {
        lemma_step_measure(q, now);
    }
}

#[via_fn]
proof fn run_end_decreases(q: Seq<Task>, now: int) {
    if q.len() > 0 {
        lemma_step_measure(q, now);
    }
}

/// Liveness: draining any finite queue takes finitely many polling steps
/// (the recursion behind `run_out` is well-founded, as is the run loop's
/// `decreases` measure), and every spawned task has completed by the end —
/// the completion log gains exactly one value per queued task.
pub proof fn lemma_every_task_completes(q: Seq<Task>, now: int)
    ensures
        run_out(q, now).len() == q.len(),
    decreases max_remaining(q, now), q.len(),
{
    if q.len() > 0 {
        lemma_step_measure(q, now);
        lemma_every_task_completes(step_queue(q, now), tick_spec(now));
    }
}

/// At-most-once completion, seen at the log: a drain records exactly the
/// queued tasks' values — the completion log and the queue's values are
/// equal as multisets, so no task's value is recorded twice and none is
/// dropped.
pub proof fn lemma_completes_exactly_once(q: Seq<Task>, now: int)
    ensures
        run_out(q, now).to_multiset() == task_values(q).to_multiset(),
    decreases max_remaining(q, now), q.len(),
{
    broadcast use vstd::seq_lib::group_to_multiset_ensures;
    broadcast use vstd::multiset::group_multiset_axioms;

    if q.len() > 0 {
        let v = q[0].delay.value;
        let rest = q.drop_first();
        lemma_step_measure(q, now);
        lemma_completes_exactly_once(step_queue(q, now), tick_spec(now));
        assert(task_values(q) =~= seq![v] + task_values(rest));
        lemma_multiset_commutative(seq![v], task_values(rest));
        if task_ready(q[0], now) {
            lemma_multiset_commutative(seq![v], run_out(rest, tick_spec(now)));
        } else {
            assert(task_values(step_queue(q, now)) =~= task_values(rest).push(v));
            assert(task_values(rest).push(v) =~= task_values(rest) + seq![v]);
            lemma_multiset_commutative(task_values(rest), seq![v]);
        }
    }
}

/// The queue after `k` iterations of the run loop, starting from `q` at
/// time `now`.
pub open spec fn steps_queue(q: Seq<Task>, now: int, k: nat) -> Seq<Task>
    decreases k,
{
    if k == 0 || q.len() == 0 {
        q
    } else {
        steps_queue(step_queue(q, now), tick_spec(now), (k - 1) as nat)
    }
}

/// The tasks of `q` still pending after each has been polled once in queue
/// order, kept in that same order: the head task first, then whatever of
/// the rest is still pending.
pub open spec fn pending_after_round(q: Seq<Task>, now: int) -> Seq<Task>
    decreases q.len(),
{
    if q.len() == 0 {
        Seq::empty()
    } else if task_ready(q[0], now) {
        pending_after_round(q.drop_first(), tick_spec(now))
    } else {
        seq![q[0]] + pending_after_round(q.drop_first(), tick_spec(now))
    }
}

proof fn lemma_fifo_round_general(q1: Seq<Task>, q2: Seq<Task>, now: int)
    ensures
        steps_queue(q1 + q2, now, q1.len()) == q2 + pending_after_round(q1, now),
    decreases q1.len(),
{
    if q1.len() == 0 {
        assert(q1 + q2 =~= q2);
        assert(q2 + pending_after_round(q1, now) =~= q2);
    } else {
        let h = q1[0];
        assert((q1 + q2)[0] == h);
        if task_ready(h, now) {
            assert(step_queue(q1 + q2, now) =~= q1.drop_first() + q2);
            lemma_fifo_round_general(q1.drop_first(), q2, tick_spec(now));
        } else {
            assert(step_queue(q1 + q2, now) =~= q1.drop_first() + q2.push(h));
            lemma_fifo_round_general(q1.drop_first(), q2.push(h), tick_spec(now));
            assert(q2.push(h) + pending_after_round(q1.drop_first(), tick_spec(now)) =~= q2 + (
            seq![h] + pending_after_round(q1.drop_first(), tick_spec(now))));
        }
    }
}

/// FIFO-per-round fairness: after one full pass over a queue of N tasks —
/// N loop iterations, each polling one task — the queue holds exactly the
/// tasks that were still pending when polled, in their original relative
/// order, so the next pass re-polls them in that same order.
pub proof fn lemma_fifo_round(q: Seq<Task>, now: int)
    ensures
        steps_queue(q, now, q.len()) == pending_after_round(q, now),
{
    lemma_fifo_round_general(q, Seq::empty(), now);
    assert(q + Seq::<Task>::empty() =~= q);
    assert(Seq::<Task>::empty() + pending_after_round(q, now) =~= pending_after_round(q, now));
}

/// A drain never turns the clock back, and it cannot end before the
/// deadline of any queued task: every task completes at a poll at or after
/// its own deadline, and the clock only moves forward from there.
pub proof fn lemma_run_end_after_deadlines(q: Seq<Task>, now: int)
    ensures
        run_end(q, now) >= now,
        forall|i: int| 0 <= i < q.len() ==> run_end(q, now) >= q[i].delay.when,
    decreases max_remaining(q, now), q.len(),
{
    if q.len() > 0 {
        lemma_step_measure(q, now);
        let q2 = step_queue(q, now);
        let n2 = tick_spec(now);
        lemma_run_end_after_deadlines(q2, n2);
        assert forall|i: int| 0 <= i < q.len() implies run_end(q, now) >= q[i].delay.when by {
            if task_ready(q[0], now) {
                if i > 0 {
                    assert(q2[i - 1] == q[i]);
                }
            } else {
                if i > 0 {
                    assert(q2[i - 1] == q[i]);
                } else {
                    assert(q2[q2.len() - 1] == q[0]);
                }
            }
        }
    }
}

/// The scheduler: a FIFO queue of not-yet-completed tasks and the log of
/// values recorded as tasks completed, in completion order.
pub struct MiniTokio {
    /// The runnable tasks, head first. A task is removed before it is polled
    /// and re-inserted at the tail only while still pending, so it stands in
    /// the queue at most once at any time.
    pub tasks: VecDeque<Task>,
    /// The values yielded by completed tasks, oldest first.
    pub completed: Vec<u64>,
}

impl MiniTokio {
    /// A scheduler with no tasks and an empty completion log.
    pub fn new() -> (r: MiniTokio)
        ensures
            r.tasks@ == Seq::<Task>::empty(),
            r.completed@ == Seq::<u64>::empty(),
    {
        MiniTokio { tasks: VecDeque::new(), completed: Vec::new() }
    }

    /// Hand a task to the scheduler: it is appended at the tail of the
    /// queue. Spawning cannot fail and completes nothing by itself.
    pub fn spawn(&mut self, task: Task)
        ensures
            final(self).tasks@ == old(self).tasks@.push(task),
            final(self).completed@ == old(self).completed@,
    {
        self.tasks.push_back(task);
    }

    /// Drain the queue to empty: pop the head task, poll it once at the
    /// current time, record its value if it is ready and re-queue it at the
    /// tail if it is pending; one time unit passes per polling step. The
    /// loop returns exactly when every spawned task has completed, with the
    /// completion log extended by `run_out` of the starting queue and the
    /// clock advanced to `run_end` of it. A run with an empty queue returns
    /// at once and changes nothing.
    pub fn run(&mut self, clock: &mut Clock)
        ensures
            final(self).tasks@.len() == 0,
            final(self).completed@ == old(self).completed@ + run_out(
                old(self).tasks@,
                old(clock).now as int,
            ),
            final(clock).now == run_end(old(self).tasks@, old(clock).now as int),
    {
        let ghost q0: Seq<Task> = self.tasks@;
        let ghost n0: int = clock.now as int;
        let ghost c0: Seq<u64> = self.completed@;
        while self.tasks.len() > 0
            invariant
                c0 + run_out(q0, n0) == self.completed@ + run_out(self.tasks@, clock.now as int),
                run_end(q0, n0) == run_end(self.tasks@, clock.now as int),
            decreases max_remaining(self.tasks@, clock.now as int), self.tasks@.len(),
        {
            let ghost q: Seq<Task> = self.tasks@;
            let ghost n: int = clock.now as int;
            let ghost c: Seq<u64> = self.completed@;
            proof {
                lemma_step_measure(q, n);
            }
            let task = self.tasks.pop_front().unwrap();
            assert(self.tasks@ == q.drop_first());
            let now: u64 = clock.now;
            match task.poll(now) {
                PollResult::Ready(v) => {
                    self.completed.push(v);
                    assert((c.push(v) + run_out(step_queue(q, n), tick_spec(n))) =~= (c + run_out(
                        q,
                        n,
                    )));
                },
                PollResult::Pending => {
                    self.tasks.push_back(task);
                    assert(self.tasks@ == step_queue(q, n));
                },
            }
            clock.tick();
        }
        proof {
            assert((self.completed@ + run_out(self.tasks@, clock.now as int)) =~= self.completed@);
        }
    }
}

} // verus!

