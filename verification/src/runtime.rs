//! The scheduler: the task table, the FIFO ready queue, the deadline-ordered
//! wait set, and the run loop that drives them over a virtual clock.
//!
//! Every task lives in one slot of the task table and is reference-counted:
//! ready-queue entries, wait-set entries, pool registrations and loose
//! handles each own one reference.  A slot whose count reaches zero is
//! vacated — the task is destroyed — and is never reused.  `Runtime::wf`
//! states the scheduler's invariant: every stored reference points into the
//! task table, the wait set is ordered by (deadline, sequence), and each
//! task's count covers every stored reference to it.

use vstd::prelude::*;
use crate::money_pool::{MoneyPool, MoneyTakeRequest, lemma_served_count_le_len, served_count, wakers_of};
use crate::task::{Computation, Handle, Step, TaskSlot};
use crate::timer::{sleep_target, timer_due};

verus! {

/// One entry of the wait set: fire the handle once the clock reaches the
/// deadline; the sequence number breaks ties between equal deadlines in
/// favour of the earlier registration.
#[derive(Clone, Copy)]
pub struct TimerEntry {
    /// The virtual-clock instant this timer waits for.
    pub deadline: u64,
    /// Registration sequence number, taken from the scheduler's counter.
    pub seq: u64,
    /// The handle to invoke when the timer fires.
    pub waker: Handle,
}

/// Strict order on wait-set entries: earlier deadline first, and among equal
/// deadlines the smaller (earlier-allocated) sequence number first.
pub open spec fn entry_lt(a: TimerEntry, b: TimerEntry) -> bool {
    a.deadline < b.deadline || (a.deadline == b.deadline && a.seq < b.seq)
}

/// Non-strict companion of `entry_lt`.
pub open spec fn entry_le(a: TimerEntry, b: TimerEntry) -> bool {
    a.deadline < b.deadline || (a.deadline == b.deadline && a.seq <= b.seq)
}

/// The wait set is kept ordered by (deadline, sequence), front first.
pub open spec fn timers_sorted(ts: Seq<TimerEntry>) -> bool {
    forall|i: int, j: int| 0 <= i < j < ts.len() ==> #[trigger] entry_le(ts[i], ts[j])
}

/// Occurrences of task `t` in the ready queue.
pub open spec fn count_task(q: Seq<usize>, t: int) -> nat
    decreases q.len(),
{
    if q.len() == 0 {
        0
    } else {
        (if q[0] as int == t {
            1nat
        } else {
            0nat
        }) + count_task(q.skip(1), t)
    }
}

/// Occurrences of task `t` among the wait set's handles.
pub open spec fn count_timer(ts: Seq<TimerEntry>, t: int) -> nat
    decreases ts.len(),
{
    if ts.len() == 0 {
        0
    } else {
        (if ts[0].waker.task as int == t {
            1nat
        } else {
            0nat
        }) + count_timer(ts.skip(1), t)
    }
}

/// Occurrences of task `t` among the pool's registered handles.
pub open spec fn count_pool(q: Seq<MoneyTakeRequest>, t: int) -> nat
    decreases q.len(),
{
    if q.len() == 0 {
        0
    } else {
        (match q[0].waker {
            Some(h) => if h.task as int == t {
                1nat
            } else {
                0nat
            },
            None => 0nat,
        }) + count_pool(q.skip(1), t)
    }
}

/// Occurrences of task `t` in a list of handles.
pub open spec fn count_handles(s: Seq<Handle>, t: int) -> nat
    decreases s.len(),
{
    if s.len() == 0 {
        0
    } else {
        (if s[0].task as int == t {
            1nat
        } else {
            0nat
        }) + count_handles(s.skip(1), t)
    }
}

/// The scheduler.  All state is owned outright; the pool the tasks draw on
/// is passed to `run` separately.
pub struct Runtime {
    /// The task table; slot indices are task identities and are never reused.
    pub tasks: Vec<TaskSlot>,
    /// The FIFO ready queue of task indices, front at index zero.
    pub task_queue: Vec<usize>,
    /// The wait set, ordered by (deadline, sequence), front first.
    pub waiting_timers: Vec<TimerEntry>,
    /// Sequence number for the next timer registration; increases with every
    /// registration until it saturates at the numeric maximum.
    pub next_timer_id: u64,
    /// The virtual clock; advanced by the run loop to each fired deadline.
    pub now: u64,
    /// The amounts observed by completed tasks, appended in completion order.
    pub outputs: Vec<u64>,
}

impl Runtime {
    /// References to task `t` stored in the scheduler and in the pool.
    pub open spec fn refs_of(self, pool: MoneyPool, t: int) -> nat {
        count_task(self.task_queue@, t) + count_timer(self.waiting_timers@, t) + count_pool(
            pool.take_requests@,
            t,
        )
    }

    /// The footprint a resolved withdrawal leaves on task `t`: the amount of
    /// the withdrawal step the task rested on (with computation `c0`) has
    /// been appended to its observations, the fulfilment flag is spent, and
    /// once the program has finished the observations stand appended to the
    /// scheduler's outputs (which were `out0`).
    pub open spec fn withdraw_resolved(self, t: int, c0: Computation, out0: Seq<u64>) -> bool {
        &&& self.tasks@[t].comp.observed@ == c0.observed@.push(
            withdraw_amount(c0.steps@[c0.pc as int]),
        )
        &&& !self.tasks@[t].comp.pool_fulfilled
        &&& (self.tasks@[t].comp.done ==> self.outputs@ == out0 + c0.observed@.push(
            withdraw_amount(c0.steps@[c0.pc as int]),
        ))
        &&& (!self.tasks@[t].comp.done ==> self.outputs@ == out0)
    }

    /// No task with work before it is ever lost: every live task is either
    /// settled on its suspension point or stands in the ready queue
    /// awaiting its next attempt.
    pub open spec fn ready_or_settled(self) -> bool {
        forall|t: int|
            0 <= t < self.tasks@.len() && (#[trigger] self.tasks@[t]).rc > 0 && !settled(
                self.tasks@[t],
            ) ==> in_ready_queue(self.task_queue@, t)
    }

    /// The scheduler's invariant with respect to the pool its tasks use:
    /// every stored reference points into the task table, the wait set is
    /// ordered with all sequence numbers at most the counter, and each
    /// task's reference count covers every stored reference to it.
    pub open spec fn wf(self, pool: MoneyPool) -> bool {
        &&& forall|i: int|
            0 <= i < self.task_queue@.len() ==> (#[trigger] self.task_queue@[i]) < self.tasks@.len()
        &&& forall|i: int|
            0 <= i < self.waiting_timers@.len() ==> (#[trigger] self.waiting_timers@[i]).waker.task
                < self.tasks@.len()
        &&& forall|i: int|
            0 <= i < pool.take_requests@.len() ==> (match (#[trigger] pool.take_requests@[i]).waker {
                Some(h) => h.task < self.tasks@.len(),
                None => true,
            })
        &&& timers_sorted(self.waiting_timers@)
        &&& forall|i: int|
            0 <= i < self.waiting_timers@.len() ==> (#[trigger] self.waiting_timers@[i]).seq
                < self.next_timer_id
        &&& forall|t: int|
            0 <= t < self.tasks@.len() ==> (#[trigger] self.tasks@[t]).rc >= self.refs_of(pool, t)
    }
}

/// Appending an entry to the ready queue raises the count of exactly the
/// appended task by one.
pub proof fn lemma_count_task_push(q: Seq<usize>, x: usize, t: int)
    ensures
        count_task(q.push(x), t) == count_task(q, t) + (if x as int == t {
            1nat
        } else {
            0nat
        }),
    decreases q.len(),
{
    if q.len() == 0 {
        assert(q.push(x)[0] == x);
        assert(q.push(x).skip(1) =~= Seq::<usize>::empty());
        assert(count_task(q.push(x).skip(1), t) == 0);
        assert(count_task(q.push(x), t) == (if x as int == t { 1nat } else { 0nat }));
    } else {
        assert(q.push(x)[0] == q[0]);
        assert(q.push(x).skip(1) =~= q.skip(1).push(x));
        lemma_count_task_push(q.skip(1), x, t);
        assert(count_task(q.push(x), t) == (if q[0] as int == t { 1nat } else { 0nat })
            + count_task(q.skip(1).push(x), t));
        assert(count_task(q, t) == (if q[0] as int == t { 1nat } else { 0nat })
            + count_task(q.skip(1), t));
    }
}

/// A task that no queue entry names has a queue count of zero.
pub proof fn lemma_count_task_absent(q: Seq<usize>, t: int)
    requires
        forall|i: int| 0 <= i < q.len() ==> (#[trigger] q[i]) as int != t,
    ensures
        count_task(q, t) == 0,
    decreases q.len(),
{
    if q.len() > 0 {
        assert(q[0] as int != t);
        assert(forall|i: int| 0 <= i < q.skip(1).len() ==> (#[trigger] q.skip(1)[i]) == q[i + 1]);
        lemma_count_task_absent(q.skip(1), t);
    }
}

/// A task that no wait-set entry names has a wait-set count of zero.
pub proof fn lemma_count_timer_absent(ts: Seq<TimerEntry>, t: int)
    requires
        forall|i: int| 0 <= i < ts.len() ==> (#[trigger] ts[i]).waker.task as int != t,
    ensures
        count_timer(ts, t) == 0,
    decreases ts.len(),
{
    if ts.len() > 0 {
        assert(ts[0].waker.task as int != t);
        assert(forall|i: int|
            0 <= i < ts.skip(1).len() ==> (#[trigger] ts.skip(1)[i]) == ts[i + 1]);
        lemma_count_timer_absent(ts.skip(1), t);
    }
}

/// A task that no pool request names has a pool count of zero.
pub proof fn lemma_count_pool_absent(q: Seq<MoneyTakeRequest>, t: int)
    requires
        forall|i: int|
            0 <= i < q.len() ==> (match (#[trigger] q[i]).waker {
                Some(h) => h.task as int != t,
                None => true,
            }),
    ensures
        count_pool(q, t) == 0,
    decreases q.len(),
{
    if q.len() > 0 {
        assert(match q[0].waker {
            Some(h) => h.task as int != t,
            None => true,
        });
        assert(forall|i: int| 0 <= i < q.skip(1).len() ==> (#[trigger] q.skip(1)[i]) == q[i + 1]);
        lemma_count_pool_absent(q.skip(1), t);
    }
}

/// Inserting a wait-set entry raises the count of exactly its task by one.
pub proof fn lemma_count_timer_insert(ts: Seq<TimerEntry>, pos: int, e: TimerEntry, t: int)
    requires
        0 <= pos <= ts.len(),
    ensures
        count_timer(ts.insert(pos, e), t) == count_timer(ts, t) + (if e.waker.task as int == t {
            1nat
        } else {
            0nat
        }),
    decreases pos,
{
    if pos == 0 {
        assert(ts.insert(0, e)[0] == e);
        assert(ts.insert(0, e).skip(1) =~= ts);
    } else {
        assert(ts.len() > 0);
        assert(ts.insert(pos, e)[0] == ts[0]);
        assert(ts.insert(pos, e).skip(1) =~= ts.skip(1).insert(pos - 1, e));
        lemma_count_timer_insert(ts.skip(1), pos - 1, e, t);
    }
}

/// Appending a pool request raises the pool count of exactly the task its
/// handle names, if it carries one.
pub proof fn lemma_count_pool_push(q: Seq<MoneyTakeRequest>, r: MoneyTakeRequest, t: int)
    ensures
        count_pool(q.push(r), t) == count_pool(q, t) + (match r.waker {
            Some(h) => if h.task as int == t {
                1nat
            } else {
                0nat
            },
            None => 0nat,
        }),
    decreases q.len(),
{
    if q.len() == 0 {
        assert(q.push(r)[0] == r);
        assert(q.push(r).skip(1) =~= Seq::<MoneyTakeRequest>::empty());
        assert(count_pool(q.push(r).skip(1), t) == 0);
        assert(count_pool(q.push(r), t) == (match r.waker {
            Some(h) => if h.task as int == t { 1nat } else { 0nat },
            None => 0nat,
        }));
    } else {
        assert(q.push(r)[0] == q[0]);
        assert(q.push(r).skip(1) =~= q.skip(1).push(r));
        lemma_count_pool_push(q.skip(1), r, t);
        assert(count_pool(q.push(r), t) == (match q[0].waker {
            Some(h) => if h.task as int == t { 1nat } else { 0nat },
            None => 0nat,
        }) + count_pool(q.skip(1).push(r), t));
        assert(count_pool(q, t) == (match q[0].waker {
            Some(h) => if h.task as int == t { 1nat } else { 0nat },
            None => 0nat,
        }) + count_pool(q.skip(1), t));
    }
}

/// The pool count splits across any cut of the request queue.
pub proof fn lemma_count_pool_split(q: Seq<MoneyTakeRequest>, k: int, t: int)
    requires
        0 <= k <= q.len(),
    ensures
        count_pool(q, t) == count_pool(q.take(k), t) + count_pool(q.skip(k), t),
    decreases k,
{
    if k == 0 {
        assert(q.take(0) =~= Seq::<MoneyTakeRequest>::empty());
        assert(q.skip(0) =~= q);
    } else {
        assert(q.take(k)[0] == q[0]);
        assert(q.take(k).skip(1) =~= q.skip(1).take(k - 1));
        assert(q.skip(k) =~= q.skip(1).skip(k - 1));
        lemma_count_pool_split(q.skip(1), k - 1, t);
    }
}

/// The handles a stretch of requests registered name each task exactly as
/// often as the requests themselves do.
pub proof fn lemma_count_handles_wakers(q: Seq<MoneyTakeRequest>, t: int)
    ensures
        count_handles(wakers_of(q), t) == count_pool(q, t),
    decreases q.len(),
{
    if q.len() > 0 {
        lemma_count_handles_wakers(q.skip(1), t);
        match q[0].waker {
            Some(h) => {
                assert(wakers_of(q) == seq![h] + wakers_of(q.skip(1)));
                assert(wakers_of(q)[0] == h);
                assert(wakers_of(q).skip(1) =~= wakers_of(q.skip(1)));
            },
            None => {},
        }
    }
}

/// Stepping through a handle list: the count over the tail from position
/// `i` splits off the handle at `i`.
pub proof fn lemma_count_handles_step(s: Seq<Handle>, i: int, t: int)
    requires
        0 <= i < s.len(),
    ensures
        count_handles(s.skip(i), t) == (if s[i].task as int == t {
            1nat
        } else {
            0nat
        }) + count_handles(s.skip(i + 1), t),
{
    assert(s.skip(i)[0] == s[i]);
    assert(s.skip(i).skip(1) =~= s.skip(i + 1));
}

/// Timer tie-break determinism: in an ordered wait set, of two entries with
/// the same deadline the one with the smaller (earlier-allocated) sequence
/// number stands closer to the front — and the run loop always fires the
/// front entry first, so the earlier-registered timer fires first.
pub proof fn lemma_timer_tiebreak(ts: Seq<TimerEntry>, i: int, j: int)
    requires
        timers_sorted(ts),
        0 <= i < ts.len(),
        0 <= j < ts.len(),
        ts[i].deadline == ts[j].deadline,
        ts[i].seq < ts[j].seq,
    ensures
        i < j,
{
    if j < i {
        assert(entry_le(ts[j], ts[i]));
    }
}

/// Inserting an entry at the position the scan found keeps the wait set
/// ordered.
pub proof fn lemma_insert_sorted(ts0: Seq<TimerEntry>, p: int, entry: TimerEntry)
    requires
        0 <= p <= ts0.len(),
        timers_sorted(ts0),
        forall|i: int| 0 <= i < p ==> !entry_lt(entry, #[trigger] ts0[i]),
        p < ts0.len() ==> entry_lt(entry, ts0[p]),
    ensures
        timers_sorted(ts0.insert(p, entry)),
{
    ts0.insert_ensures(p, entry);
    let ts1 = ts0.insert(p, entry);
    assert forall|i: int, j: int| 0 <= i < j < ts1.len() implies #[trigger] entry_le(
        ts1[i],
        ts1[j],
    ) by {
        if j < p {
            assert(ts1[i] == ts0[i] && ts1[j] == ts0[j]);
            assert(entry_le(ts0[i], ts0[j]));
        } else if j == p {
            assert(ts1[j] == entry);
            assert(ts1[i] == ts0[i]);
            assert(!entry_lt(entry, ts0[i]));
        } else {
            assert(ts1[j] == ts0[j - 1]);
            if i < p {
                assert(ts1[i] == ts0[i]);
                if i < j - 1 {
                    assert(entry_le(ts0[i], ts0[j - 1]));
                }
            } else if i == p {
                assert(ts1[i] == entry);
                assert(p < ts0.len());
                assert(entry_lt(entry, ts0[p]));
                if p < j - 1 {
                    assert(entry_le(ts0[p], ts0[j - 1]));
                }
            } else {
                assert(ts1[i] == ts0[i - 1]);
                assert(entry_le(ts0[i - 1], ts0[j - 1]));
            }
        }
    }
}

impl Runtime {
    /// A fresh scheduler: no tasks, nothing ready, nothing waiting, the
    /// sequence counter and the virtual clock at zero.
    pub fn new() -> (rt: Runtime)
        ensures
            rt.tasks@ == Seq::<TaskSlot>::empty(),
            rt.task_queue@ == Seq::<usize>::empty(),
            rt.waiting_timers@ == Seq::<TimerEntry>::empty(),
            rt.next_timer_id == 0,
            rt.now == 0,
            rt.outputs@ == Seq::<u64>::empty(),
    {
        Runtime {
            tasks: Vec::new(),
            task_queue: Vec::new(),
            waiting_timers: Vec::new(),
            next_timer_id: 0,
            now: 0,
            outputs: Vec::new(),
        }
    }

    /// A fresh scheduler is well-formed with respect to any pool whose
    /// requests carry no registered handles.
    pub proof fn lemma_new_wf(self, pool: MoneyPool)
        requires
            self.tasks@.len() == 0,
            self.task_queue@.len() == 0,
            self.waiting_timers@.len() == 0,
            forall|i: int|
                0 <= i < pool.take_requests@.len() ==> (#[trigger] pool.take_requests@[i]).waker
                    is None,
        ensures
            self.wf(pool),
    {
    }

    /// Enqueue a new task wrapping the given program: a fresh slot with one
    /// reference — the ready-queue entry just behind every task enqueued
    /// before it.
    pub fn spawn(&mut self, steps: Vec<Step>)
        ensures
            final(self).tasks@.len() == old(self).tasks@.len() + 1,
            forall|t: int|
                0 <= t < old(self).tasks@.len() ==> final(self).tasks@[t] == old(self).tasks@[t],
            final(self).tasks@[old(self).tasks@.len() as int].rc == 1,
            final(self).tasks@[old(self).tasks@.len() as int].comp.steps@ == steps@,
            final(self).tasks@[old(self).tasks@.len() as int].comp.pc == 0,
            final(self).tasks@[old(self).tasks@.len() as int].comp.deadline is None,
            !final(self).tasks@[old(self).tasks@.len() as int].comp.pool_registered,
            !final(self).tasks@[old(self).tasks@.len() as int].comp.pool_fulfilled,
            final(self).tasks@[old(self).tasks@.len() as int].comp.observed@ == Seq::<u64>::empty(),
            !final(self).tasks@[old(self).tasks@.len() as int].comp.done,
            final(self).task_queue@ == old(self).task_queue@.push(
                old(self).tasks@.len() as usize,
            ),
            final(self).waiting_timers@ == old(self).waiting_timers@,
            final(self).next_timer_id == old(self).next_timer_id,
            final(self).now == old(self).now,
            final(self).outputs@ == old(self).outputs@,
            forall|p: MoneyPool| old(self).wf(p) ==> final(self).wf(p),
    {
        let tid = self.tasks.len();
        self.tasks.push(TaskSlot { rc: 1, comp: Computation::new(steps) });
        self.task_queue.push(tid);
        proof {
            let rt0 = *old(self);
            let rt1 = *self;
            assert forall|p: MoneyPool| rt0.wf(p) implies rt1.wf(p) by {
                assert forall|t: int| 0 <= t < rt1.tasks@.len() implies (#[trigger] rt1.tasks@[t]).rc
                    >= rt1.refs_of(p, t) by {
                    lemma_count_task_push(rt0.task_queue@, tid, t);
                    if t < rt0.tasks@.len() {
                        assert(rt1.refs_of(p, t) == rt0.refs_of(p, t));
                    } else {
                        assert(t == tid as int);
                        lemma_count_task_absent(rt0.task_queue@, t);
                        lemma_count_timer_absent(rt0.waiting_timers@, t);
                        lemma_count_pool_absent(p.take_requests@, t);
                        assert(rt1.refs_of(p, t) == 1);
                    }
                }
            }
        }
    }

    /// Insert a wait-set entry for the given deadline, keyed with a freshly
    /// allocated sequence number, keeping the wait set ordered.  Every
    /// stored sequence number is strictly below the counter, so each new
    /// key is fresh; once the counter has exhausted the sequence space no
    /// further entry can be keyed, and the call leaves the state untouched.
    #[verifier::rlimit(50)]
    pub fn register_timer(&mut self, sleep_until_time: u64, waker: Handle)
        ensures
            old(self).next_timer_id < u64::MAX ==> exists|pos: int|
                0 <= pos <= old(self).waiting_timers@.len()
                    && final(self).waiting_timers@ == old(self).waiting_timers@.insert(
                    pos,
                    TimerEntry {
                        deadline: sleep_until_time,
                        seq: old(self).next_timer_id,
                        waker,
                    },
                ),
            old(self).next_timer_id < u64::MAX ==> final(self).next_timer_id == old(self).next_timer_id + 1,
            old(self).next_timer_id == u64::MAX ==> *final(self) == *old(self),
            final(self).tasks@ == old(self).tasks@,
            final(self).task_queue@ == old(self).task_queue@,
            final(self).now == old(self).now,
            final(self).outputs@ == old(self).outputs@,
            timers_sorted(old(self).waiting_timers@) && (forall|i: int|
                0 <= i < old(self).waiting_timers@.len()
                    ==> (#[trigger] old(self).waiting_timers@[i]).seq < old(self).next_timer_id)
                ==> timers_sorted(final(self).waiting_timers@) && (forall|i: int|
                0 <= i < final(self).waiting_timers@.len()
                    ==> (#[trigger] final(self).waiting_timers@[i]).seq
                        < final(self).next_timer_id),
    {
        if self.next_timer_id == u64::MAX {
            return ;
        }
        let entry = TimerEntry {
            deadline: sleep_until_time,
            seq: self.next_timer_id,
            waker,
        };
        let ghost ts0 = self.waiting_timers@;
        let mut pos: usize = 0;
        loop
            invariant
                0 <= pos <= self.waiting_timers@.len(),
                self.waiting_timers@ == ts0,
                forall|i: int| 0 <= i < pos ==> !entry_lt(entry, #[trigger] ts0[i]),
            ensures
                0 <= pos <= ts0.len(),
                self.waiting_timers@ == ts0,
                forall|i: int| 0 <= i < pos ==> !entry_lt(entry, #[trigger] ts0[i]),
                pos < ts0.len() ==> entry_lt(entry, ts0[pos as int]),
            decreases self.waiting_timers@.len() - pos,
        {
            if pos >= self.waiting_timers.len() {
                break ;
            }
            let e = self.waiting_timers[pos];
            if entry.deadline < e.deadline || (entry.deadline == e.deadline && entry.seq < e.seq) {
                break ;
            }
            pos = pos + 1;
        }
        let ghost p = pos as int;
        self.waiting_timers.insert(pos, entry);
        self.next_timer_id = self.next_timer_id + 1;
        proof {
            assert(self.waiting_timers@ == ts0.insert(p, entry));
            ts0.insert_ensures(p, entry);
            if timers_sorted(ts0) && (forall|i: int|
                0 <= i < ts0.len() ==> (#[trigger] ts0[i]).seq < old(self).next_timer_id) {
                lemma_insert_sorted(ts0, p, entry);
            }
        }
    }

    /// Clone a handle: the task gains one owner.  Invoking either copy wakes
    /// the same task.
    pub fn clone_handle(&mut self, h: &Handle) -> (h2: Handle)
        requires
            h.task < old(self).tasks@.len(),
            old(self).tasks@[h.task as int].rc >= 1,
            old(self).tasks@[h.task as int].rc < u64::MAX,
        ensures
            h2.task == h.task,
            final(self).tasks@ == old(self).tasks@.update(
                h.task as int,
                TaskSlot {
                    rc: (old(self).tasks@[h.task as int].rc + 1) as u64,
                    comp: old(self).tasks@[h.task as int].comp,
                },
            ),
            final(self).task_queue@ == old(self).task_queue@,
            final(self).waiting_timers@ == old(self).waiting_timers@,
            final(self).next_timer_id == old(self).next_timer_id,
            final(self).now == old(self).now,
            final(self).outputs@ == old(self).outputs@,
    {
        let slot = &mut self.tasks[h.task];
        slot.rc = slot.rc + 1;
        Handle { task: h.task }
    }

    /// Invoke a handle by reference: re-admit its task at the back of the
    /// ready queue.  The queue slot is a new owner, so the count rises by
    /// one and the handle stays valid for future invocations.
    pub fn wake_by_ref(&mut self, h: &Handle)
        requires
            h.task < old(self).tasks@.len(),
            old(self).tasks@[h.task as int].rc >= 1,
            old(self).tasks@[h.task as int].rc < u64::MAX,
        ensures
            final(self).tasks@ == old(self).tasks@.update(
                h.task as int,
                TaskSlot {
                    rc: (old(self).tasks@[h.task as int].rc + 1) as u64,
                    comp: old(self).tasks@[h.task as int].comp,
                },
            ),
            final(self).task_queue@ == old(self).task_queue@.push(h.task),
            final(self).waiting_timers@ == old(self).waiting_timers@,
            final(self).next_timer_id == old(self).next_timer_id,
            final(self).now == old(self).now,
            final(self).outputs@ == old(self).outputs@,
    {
        let slot = &mut self.tasks[h.task];
        slot.rc = slot.rc + 1;
        let t = h.task;
        self.task_queue.push(t);
    }

    /// Invoke a handle by value: re-admit its task at the back of the ready
    /// queue, consuming the handle.  Ownership moves from the handle to the
    /// queue slot, so the count is unchanged.
    pub fn wake(&mut self, h: Handle)
        requires
            h.task < old(self).tasks@.len(),
            old(self).tasks@[h.task as int].rc >= 1,
        ensures
            final(self).tasks@ == old(self).tasks@,
            final(self).task_queue@ == old(self).task_queue@.push(h.task),
            final(self).waiting_timers@ == old(self).waiting_timers@,
            final(self).next_timer_id == old(self).next_timer_id,
            final(self).now == old(self).now,
            final(self).outputs@ == old(self).outputs@,
    {
        self.task_queue.push(h.task);
    }

    /// Give a handle up: the task loses one owner.  When the last owner is
    /// gone the slot is vacated — the task is destroyed, exactly once, and
    /// the slot is never reused.
    pub fn drop_handle(&mut self, h: Handle)
        requires
            h.task < old(self).tasks@.len(),
            old(self).tasks@[h.task as int].rc >= 1,
        ensures
            final(self).tasks@.len() == old(self).tasks@.len(),
            forall|t: int|
                0 <= t < old(self).tasks@.len() && t != h.task as int ==> final(self).tasks@[t]
                    == old(self).tasks@[t],
            final(self).tasks@[h.task as int].rc == old(self).tasks@[h.task as int].rc - 1,
            old(self).tasks@[h.task as int].rc > 1 ==> final(self).tasks@[h.task as int].comp
                == old(self).tasks@[h.task as int].comp,
            final(self).task_queue@ == old(self).task_queue@,
            final(self).waiting_timers@ == old(self).waiting_timers@,
            final(self).next_timer_id == old(self).next_timer_id,
            final(self).now == old(self).now,
            final(self).outputs@ == old(self).outputs@,
    {
        let r = self.tasks[h.task].rc;
        if r == 1 {
            let slot = &mut self.tasks[h.task];
            slot.rc = 0;
            slot.comp = Computation::new(Vec::new());
        } else {
            let slot = &mut self.tasks[h.task];
            slot.rc = r - 1;
        }
    }
}

/// `a` is an initial stretch of `b`: nothing already reported is ever taken
/// back.
pub open spec fn seq_prefix(a: Seq<u64>, b: Seq<u64>) -> bool {
    a.len() <= b.len() && forall|i: int| 0 <= i < a.len() ==> a[i] == b[i]
}

/// Steps a task still has before it.
pub open spec fn slot_work(s: TaskSlot) -> nat {
    if s.comp.pc <= s.comp.steps@.len() {
        (s.comp.steps@.len() - s.comp.pc) as nat
    } else {
        0
    }
}

/// Total steps still before the tasks of the table.
pub open spec fn work_of(ts: Seq<TaskSlot>) -> nat
    decreases ts.len(),
{
    if ts.len() == 0 {
        0
    } else {
        slot_work(ts[0]) + work_of(ts.skip(1))
    }
}

/// Whether a task rests on a suspension step it has not yet registered with
/// its event source.
pub open spec fn slot_unreg(s: TaskSlot) -> nat {
    if s.comp.pc < s.comp.steps@.len() {
        match s.comp.steps@[s.comp.pc as int] {
            Step::SleepFor(_) => if s.comp.deadline is None {
                1nat
            } else {
                0nat
            },
            Step::SleepUntil(_) => if s.comp.deadline is None {
                1nat
            } else {
                0nat
            },
            Step::Withdraw(_) => if !s.comp.pool_registered {
                1nat
            } else {
                0nat
            },
            Step::Deposit(_) => 0nat,
        }
    } else {
        0
    }
}

/// Total unregistered suspension steps of the table.
pub open spec fn unreg_of(ts: Seq<TaskSlot>) -> nat
    decreases ts.len(),
{
    if ts.len() == 0 {
        0
    } else {
        slot_unreg(ts[0]) + unreg_of(ts.skip(1))
    }
}

/// The amount a withdrawal step asks for; the other steps ask for nothing.
pub open spec fn withdraw_amount(s: Step) -> u64 {
    match s {
        Step::Withdraw(a) => a,
        _ => 0,
    }
}

/// A computation resting on a fulfilled withdrawal it has not yet reported:
/// its next attempt resolves the withdrawal with exactly the requested
/// amount.
pub open spec fn at_fulfilled_withdraw(c: Computation) -> bool {
    &&& c.pc < c.steps@.len()
    &&& c.steps@[c.pc as int] matches Step::Withdraw(_)
    &&& c.pool_fulfilled
    &&& !c.done
}

/// A task that needs no further attempt until an event source wakes it:
/// its program has finished and been reported, or it rests on the
/// suspension step it has already registered with its event source —
/// a sleep whose deadline is fixed, or a withdrawal queued with the pool
/// and not yet fulfilled.
pub open spec fn settled(s: TaskSlot) -> bool {
    ||| s.comp.done
    ||| (s.comp.pc < s.comp.steps@.len() && (match s.comp.steps@[s.comp.pc as int] {
        Step::SleepFor(_) => s.comp.deadline is Some,
        Step::SleepUntil(_) => s.comp.deadline is Some,
        Step::Withdraw(_) => s.comp.pool_registered && !s.comp.pool_fulfilled,
        Step::Deposit(_) => false,
    }))
}

/// Task `t` has an entry in the ready queue.
pub open spec fn in_ready_queue(q: Seq<usize>, t: int) -> bool {
    exists|i: int| 0 <= i < q.len() && (#[trigger] q[i]) as int == t
}

/// Appending to the ready queue keeps every task already in it.
proof fn lemma_in_queue_push(q: Seq<usize>, x: usize, t: int)
    requires
        in_ready_queue(q, t),
    ensures
        in_ready_queue(q.push(x), t),
{
    let i = choose|i: int| 0 <= i < q.len() && (#[trigger] q[i]) as int == t;
    assert(q.push(x)[i] as int == t);
}

/// Popping the front entry keeps every other task in the ready queue.
proof fn lemma_in_queue_tail(q: Seq<usize>, t: int)
    requires
        in_ready_queue(q, t),
        q.len() > 0,
        q[0] as int != t,
    ensures
        in_ready_queue(q.skip(1), t),
{
    let i = choose|i: int| 0 <= i < q.len() && (#[trigger] q[i]) as int == t;
    assert(i >= 1);
    assert(q.skip(1)[i - 1] as int == t);
}

/// Changing one slot changes the table's totals by exactly that slot's
/// difference.
pub proof fn lemma_sums_pointwise(ts1: Seq<TaskSlot>, ts2: Seq<TaskSlot>, i: int)
    requires
        ts1.len() == ts2.len(),
        0 <= i < ts1.len(),
        forall|u: int| 0 <= u < ts1.len() && u != i ==> ts2[u] == ts1[u],
    ensures
        work_of(ts2) + slot_work(ts1[i]) == work_of(ts1) + slot_work(ts2[i]),
        unreg_of(ts2) + slot_unreg(ts1[i]) == unreg_of(ts1) + slot_unreg(ts2[i]),
    decreases ts1.len(),
{
    if i == 0 {
        assert(ts2.skip(1) =~= ts1.skip(1));
    } else {
        assert(ts2[0] == ts1[0]);
        assert(forall|u: int|
            0 <= u < ts1.skip(1).len() && u != i - 1 ==> (#[trigger] ts2.skip(1)[u]) == ts1.skip(
                1,
            )[u]);
        assert(ts1.skip(1)[i - 1] == ts1[i]);
        assert(ts2.skip(1)[i - 1] == ts2[i]);
        lemma_sums_pointwise(ts1.skip(1), ts2.skip(1), i - 1);
    }
}

/// Every handle a stretch of requests registered points where the requests
/// themselves point.
pub proof fn lemma_wakers_of_bound(q: Seq<MoneyTakeRequest>, n: int)
    requires
        forall|i: int|
            0 <= i < q.len() ==> (match (#[trigger] q[i]).waker {
                Some(h) => h.task < n,
                None => true,
            }),
    ensures
        forall|j: int| 0 <= j < wakers_of(q).len() ==> (#[trigger] wakers_of(q)[j]).task < n,
    decreases q.len(),
{
    if q.len() > 0 {
        assert(forall|i: int|
            0 <= i < q.skip(1).len() ==> (#[trigger] q.skip(1)[i]) == q[i + 1]);
        lemma_wakers_of_bound(q.skip(1), n);
        match q[0].waker {
            Some(h) => {
                assert(h.task < n);
                assert(wakers_of(q) == seq![h] + wakers_of(q.skip(1)));
                assert(forall|j: int|
                    0 <= j < wakers_of(q).len() ==> (#[trigger] wakers_of(q)[j]) == (if j == 0 {
                        h
                    } else {
                        wakers_of(q.skip(1))[j - 1]
                    }));
            },
            None => {},
        }
    }
}

impl Runtime {
    /// The scheduler's invariant while the run loop holds one reference to
    /// task `held` outside any store: that task's count covers its stored
    /// references and the held one besides.
    pub open spec fn wf_held(self, pool: MoneyPool, held: int) -> bool {
        &&& forall|i: int|
            0 <= i < self.task_queue@.len() ==> (#[trigger] self.task_queue@[i]) < self.tasks@.len()
        &&& forall|i: int|
            0 <= i < self.waiting_timers@.len() ==> (#[trigger] self.waiting_timers@[i]).waker.task
                < self.tasks@.len()
        &&& forall|i: int|
            0 <= i < pool.take_requests@.len() ==> (match (#[trigger] pool.take_requests@[i]).waker {
                Some(h) => h.task < self.tasks@.len(),
                None => true,
            })
        &&& timers_sorted(self.waiting_timers@)
        &&& forall|i: int|
            0 <= i < self.waiting_timers@.len() ==> (#[trigger] self.waiting_timers@[i]).seq
                < self.next_timer_id
        &&& forall|t: int|
            0 <= t < self.tasks@.len() ==> (#[trigger] self.tasks@[t]).rc >= self.refs_of(pool, t)
                + (if t == held {
                1nat
            } else {
                0nat
            })
    }
}

impl Runtime {
    /// Attempt progress on one task the run loop has popped from the ready
    /// queue, holding its queue reference: run the computation's steps until
    /// it suspends on an event source or finishes, then release the held
    /// reference — destroying the task if it was the last owner.
    ///
    /// A deposit that would overflow the pool's balance saturates it at the
    /// numeric maximum, and a reference count already at the maximum admits
    /// no further tracked registration: the request or timer is then left
    /// without a handle and the task stays suspended.
    #[verifier::rlimit(100)]
    fn poll_task(&mut self, tid: usize, pool: &mut MoneyPool)
        requires
            tid < old(self).tasks@.len(),
            old(self).wf_held(*old(pool), tid as int),
            forall|t: int|
                0 <= t < old(self).tasks@.len() && t != tid as int && (
                #[trigger] old(self).tasks@[t]).rc > 0 && !settled(old(self).tasks@[t])
                    ==> in_ready_queue(old(self).task_queue@, t),
        ensures
            final(self).wf(*final(pool)),
            final(self).ready_or_settled(),
            final(self).tasks@.len() == old(self).tasks@.len(),
            final(self).now == old(self).now,
            final(self).next_timer_id >= old(self).next_timer_id,
            seq_prefix(old(self).outputs@, final(self).outputs@),
            forall|t: int|
                0 <= t < old(self).tasks@.len() && old(self).tasks@[t].rc == 0 ==> (
                #[trigger] final(self).tasks@[t]).rc == 0,
            forall|k: int|
                0 <= k < final(self).waiting_timers@.len() ==> old(self).waiting_timers@.contains(
                    #[trigger] final(self).waiting_timers@[k],
                ) || final(self).waiting_timers@[k].deadline > old(self).now,
            forall|k: int|
                0 <= k < old(self).waiting_timers@.len() ==> final(self).waiting_timers@.contains(
                    #[trigger] old(self).waiting_timers@[k],
                ),
            ({
                let c = old(self).tasks@[tid as int].comp;
                c.pc < c.steps@.len() && (c.steps@[c.pc as int] matches Step::Withdraw(_))
                    && c.pool_registered && !c.pool_fulfilled
            }) ==> ({
                &&& final(self).task_queue@ == old(self).task_queue@
                &&& final(self).waiting_timers@ == old(self).waiting_timers@
                &&& final(self).next_timer_id == old(self).next_timer_id
                &&& final(self).outputs@ == old(self).outputs@
                &&& *final(pool) == *old(pool)
                &&& final(self).tasks@[tid as int].rc == old(self).tasks@[tid as int].rc - 1
                &&& old(self).tasks@[tid as int].rc > 1 ==> final(self).tasks@[tid as int].comp
                    == old(self).tasks@[tid as int].comp
                &&& forall|t: int|
                    0 <= t < old(self).tasks@.len() && t != tid as int ==> final(self).tasks@[t]
                        == old(self).tasks@[t]
            }),
            (at_fulfilled_withdraw(old(self).tasks@[tid as int].comp) && count_pool(
                old(pool).take_requests@,
                tid as int,
            ) == 0 && final(self).tasks@[tid as int].rc > 0) ==> final(self).withdraw_resolved(
                tid as int,
                old(self).tasks@[tid as int].comp,
                old(self).outputs@,
            ),
            work_of(final(self).tasks@) <= work_of(old(self).tasks@),
            work_of(final(self).tasks@) == work_of(old(self).tasks@) ==> final(self).task_queue@
                == old(self).task_queue@ && unreg_of(final(self).tasks@) <= unreg_of(
                old(self).tasks@,
            ),
            work_of(final(self).tasks@) == work_of(old(self).tasks@) && unreg_of(
                final(self).tasks@,
            ) == unreg_of(old(self).tasks@) ==> final(self).waiting_timers@ == old(self).waiting_timers@,
    {
        loop
            invariant
                tid < self.tasks@.len(),
                self.tasks@.len() == old(self).tasks@.len(),
                self.wf_held(*pool, tid as int),
                self.now == old(self).now,
                self.next_timer_id >= old(self).next_timer_id,
                forall|t: int|
                    0 <= t < old(self).tasks@.len() && t != tid as int ==> (
                    #[trigger] self.tasks@[t]).rc == old(self).tasks@[t].rc,
                seq_prefix(old(self).outputs@, self.outputs@),
                forall|k: int|
                    0 <= k < self.waiting_timers@.len() ==> old(self).waiting_timers@.contains(
                        #[trigger] self.waiting_timers@[k],
                    ) || self.waiting_timers@[k].deadline > old(self).now,
                forall|k: int|
                    0 <= k < old(self).waiting_timers@.len() ==> self.waiting_timers@.contains(
                        #[trigger] old(self).waiting_timers@[k],
                    ),
                work_of(self.tasks@) <= work_of(old(self).tasks@),
                work_of(self.tasks@) == work_of(old(self).tasks@) ==> self.task_queue@ == old(self).task_queue@ && unreg_of(self.tasks@) <= unreg_of(old(self).tasks@),
                work_of(self.tasks@) == work_of(old(self).tasks@) && unreg_of(self.tasks@)
                    == unreg_of(old(self).tasks@) ==> self.waiting_timers@ == old(self).waiting_timers@,
                forall|t: int|
                    0 <= t < self.tasks@.len() && t != tid as int && (
                    #[trigger] self.tasks@[t]).rc > 0 && !settled(self.tasks@[t])
                        ==> in_ready_queue(self.task_queue@, t),
                ({
                    let c = old(self).tasks@[tid as int].comp;
                    c.pc < c.steps@.len() && (c.steps@[c.pc as int] matches Step::Withdraw(_))
                        && c.pool_registered && !c.pool_fulfilled
                }) ==> *self == *old(self) && *pool == *old(pool),
                (at_fulfilled_withdraw(old(self).tasks@[tid as int].comp) && count_pool(
                    old(pool).take_requests@,
                    tid as int,
                ) == 0) ==> (*self == *old(self) && *pool == *old(pool)) || ({
                    &&& self.withdraw_resolved(
                        tid as int,
                        old(self).tasks@[tid as int].comp,
                        old(self).outputs@,
                    )
                    &&& count_pool(pool.take_requests@, tid as int) == 0 || ({
                        let c = self.tasks@[tid as int].comp;
                        c.pc < c.steps@.len() && (c.steps@[c.pc as int] matches Step::Withdraw(_))
                            && c.pool_registered
                    })
                }),
            ensures
                settled(self.tasks@[tid as int]),
                ({
                    let c = old(self).tasks@[tid as int].comp;
                    c.pc < c.steps@.len() && (c.steps@[c.pc as int] matches Step::Withdraw(_))
                        && c.pool_registered && !c.pool_fulfilled
                }) ==> *self == *old(self) && *pool == *old(pool),
                (at_fulfilled_withdraw(old(self).tasks@[tid as int].comp) && count_pool(
                    old(pool).take_requests@,
                    tid as int,
                ) == 0) ==> self.withdraw_resolved(
                    tid as int,
                    old(self).tasks@[tid as int].comp,
                    old(self).outputs@,
                ),
                tid < self.tasks@.len(),
                self.tasks@.len() == old(self).tasks@.len(),
                self.wf_held(*pool, tid as int),
                self.now == old(self).now,
                self.next_timer_id >= old(self).next_timer_id,
                forall|t: int|
                    0 <= t < old(self).tasks@.len() && t != tid as int ==> (
                    #[trigger] self.tasks@[t]).rc == old(self).tasks@[t].rc,
                seq_prefix(old(self).outputs@, self.outputs@),
                forall|k: int|
                    0 <= k < self.waiting_timers@.len() ==> old(self).waiting_timers@.contains(
                        #[trigger] self.waiting_timers@[k],
                    ) || self.waiting_timers@[k].deadline > old(self).now,
                work_of(self.tasks@) <= work_of(old(self).tasks@),
                work_of(self.tasks@) == work_of(old(self).tasks@) ==> self.task_queue@ == old(self).task_queue@ && unreg_of(self.tasks@) <= unreg_of(old(self).tasks@),
                work_of(self.tasks@) == work_of(old(self).tasks@) && unreg_of(self.tasks@)
                    == unreg_of(old(self).tasks@) ==> self.waiting_timers@ == old(self).waiting_timers@,
                forall|t: int|
                    0 <= t < self.tasks@.len() && t != tid as int && (
                    #[trigger] self.tasks@[t]).rc > 0 && !settled(self.tasks@[t])
                        ==> in_ready_queue(self.task_queue@, t),
            decreases slot_work(self.tasks@[tid as int]),
        {
            let ghost pre = *self;
            let ghost ppre = *pool;
            let pc = self.tasks[tid].comp.pc;
            let n = self.tasks[tid].comp.steps.len();
            if pc >= n {
                // the program has run to completion: report its observations
                // once, then release the held reference below
                if !self.tasks[tid].comp.done {
                    {
                        let slot = &mut self.tasks[tid];
                        slot.comp.done = true;
                    }
                    proof {
                        lemma_sums_pointwise(pre.tasks@, self.tasks@, tid as int);
                    }
                    let ghost mid = *self;
                    let ghost pmid = *pool;
                    let m = self.tasks[tid].comp.observed.len();
                    proof {
                        assert(self.tasks@[tid as int].comp.observed@.take(0)
                            =~= Seq::<u64>::empty());
                        assert(self.outputs@ =~= mid.outputs@ + Seq::<u64>::empty());
                    }
                    let mut i: usize = 0;
                    while i < m
                        invariant
                            i <= m,
                            tid < self.tasks@.len(),
                            self.tasks@ == mid.tasks@,
                            self.task_queue@ == mid.task_queue@,
                            self.waiting_timers@ == mid.waiting_timers@,
                            self.next_timer_id == mid.next_timer_id,
                            self.now == mid.now,
                            *pool == pmid,
                            m == self.tasks@[tid as int].comp.observed@.len(),
                            self.outputs@ == mid.outputs@ + self.tasks@[tid as
                                int].comp.observed@.take(i as int),
                        decreases m - i,
                    {
                        let x = self.tasks[tid].comp.observed[i];
                        self.outputs.push(x);
                        proof {
                            assert(self.tasks@[tid as int].comp.observed@.take(i + 1)
                                =~= self.tasks@[tid as int].comp.observed@.take(i as int).push(x));
                        }
                        i = i + 1;
                    }
                    proof {
                        assert(self.tasks@[tid as int].comp.observed@.take(m as int)
                            =~= self.tasks@[tid as int].comp.observed@);
                        assert(self.outputs@ == mid.outputs@ + self.tasks@[tid as
                            int].comp.observed@);
                    }
                }
                proof {
                    assert(self.tasks@[tid as int].comp.done);
                    if at_fulfilled_withdraw(old(self).tasks@[tid as int].comp) && count_pool(
                        old(pool).take_requests@,
                        tid as int,
                    ) == 0 {
                        let c0 = old(self).tasks@[tid as int].comp;
                        // a fulfilled withdrawal stands before the end of the
                        // program, so the first attempt cannot reach this branch
                        if pre == *old(self) && ppre == *old(pool) {
                            assert(pre.tasks@[tid as int].comp.pc < pre.tasks@[tid as
                                int].comp.steps@.len());
                            assert(false);
                        }
                        assert(pre.withdraw_resolved(tid as int, c0, old(self).outputs@));
                        assert(self.withdraw_resolved(tid as int, c0, old(self).outputs@));
                    }
                }
                break ;
            }
            let step = self.tasks[tid].comp.steps[pc];
            match step {
                Step::Deposit(amount) => {
                    let room = u64::MAX - pool.money;
                    let add = if amount > room {
                        room
                    } else {
                        amount
                    };
                    let ghost pq0 = pool.take_requests@;
                    let ghost b0 = pool.money as int + add as int;
                    let wakes = pool.add_money(add);
                    let ghost k = served_count(b0, pq0) as int;
                    proof {
                        lemma_served_count_le_len(b0, pq0);
                        assert(forall|i: int|
                            0 <= i < pq0.take(k).len() ==> (#[trigger] pq0.take(k)[i]) == pq0[i]);
                        lemma_wakers_of_bound(pq0.take(k), self.tasks@.len() as int);
                        assert forall|t: int|
                            count_pool(pool.take_requests@, t) + count_handles(wakes@, t)
                                == count_pool(pq0, t) by {
                            lemma_count_pool_split(pq0, k, t);
                            lemma_count_handles_wakers(pq0.take(k), t);
                        }
                        if at_fulfilled_withdraw(old(self).tasks@[tid as int].comp) && count_pool(
                                old(pool).take_requests@,
                                tid as int,
                            ) == 0 {
                            let c0 = old(self).tasks@[tid as int].comp;
                            assert(step == pre.tasks@[tid as int].comp.steps@[pc as int]);
                            // the entry state rested on a withdrawal, so on a
                            // first attempt this arm cannot be reached
                            if pre == *old(self) && ppre == *old(pool) {
                                assert(c0.steps@[c0.pc as int] matches Step::Withdraw(_));
                                assert(false);
                            }
                            assert(pre.withdraw_resolved(tid as int, c0, old(self).outputs@));
                            assert(count_pool(ppre.take_requests@, tid as int) == 0);
                            assert(count_pool(pool.take_requests@, tid as int) + count_handles(
                                wakes@,
                                tid as int,
                            ) == 0);
                        }
                    }
                    let ghost dstart = *self;
                    let ghost pd = *pool;
                    proof {
                        assert(wakes@.skip(0) =~= wakes@);
                        assert(ppre.take_requests@ == pq0);
                        assert forall|t: int|
                            0 <= t < self.tasks@.len() implies (#[trigger] self.tasks@[t]).rc
                                >= count_task(self.task_queue@, t) + count_timer(
                                self.waiting_timers@,
                                t,
                            ) + count_pool(pool.take_requests@, t) + count_handles(
                                wakes@.skip(0),
                                t,
                            ) + (if t == tid as int {
                                1nat
                            } else {
                                0nat
                            }) by {
                            assert(self.tasks@[t].rc >= self.refs_of(ppre, t) + (if t == tid as int {
                                1nat
                            } else {
                                0nat
                            }));
                            assert(count_pool(pool.take_requests@, t) + count_handles(wakes@, t)
                                == count_pool(pq0, t));
                        }
                    }
                    let mut i: usize = 0;
                    while i < wakes.len()
                        invariant
                            i <= wakes@.len(),
                            tid < self.tasks@.len(),
                            self.tasks@.len() == dstart.tasks@.len(),
                            *pool == pd,
                            self.waiting_timers@ == dstart.waiting_timers@,
                            self.next_timer_id == dstart.next_timer_id,
                            self.now == dstart.now,
                            self.outputs@ == dstart.outputs@,
                            forall|j: int|
                                0 <= j < wakes@.len() ==> (#[trigger] wakes@[j]).task
                                    < self.tasks@.len(),
                            forall|qi: int|
                                0 <= qi < self.task_queue@.len() ==> (
                                #[trigger] self.task_queue@[qi]) < self.tasks@.len(),
                            forall|t: int|
                                0 <= t < self.tasks@.len() ==> (#[trigger] self.tasks@[t]).rc
                                    >= count_task(self.task_queue@, t) + count_timer(
                                    self.waiting_timers@,
                                    t,
                                ) + count_pool(pool.take_requests@, t) + count_handles(
                                    wakes@.skip(i as int),
                                    t,
                                ) + (if t == tid as int {
                                    1nat
                                } else {
                                    0nat
                                }),
                            forall|t: int|
                                0 <= t < self.tasks@.len() ==> (#[trigger] self.tasks@[t]).rc
                                    == dstart.tasks@[t].rc,
                            work_of(self.tasks@) == work_of(dstart.tasks@),
                            unreg_of(self.tasks@) == unreg_of(dstart.tasks@),
                            self.tasks@[tid as int].comp.pc == dstart.tasks@[tid as int].comp.pc,
                            self.tasks@[tid as int].comp.steps@ == dstart.tasks@[tid as
                                int].comp.steps@,
                            forall|t: int|
                                0 <= t < self.tasks@.len() && t != tid as int && (
                                #[trigger] self.tasks@[t]).rc > 0 && !settled(self.tasks@[t])
                                    ==> in_ready_queue(self.task_queue@, t),
                            (at_fulfilled_withdraw(old(self).tasks@[tid as int].comp) && count_pool(
                                old(pool).take_requests@,
                                tid as int,
                            ) == 0) ==> count_handles(wakes@.skip(i as int), tid as int) == 0
                                && self.tasks@[tid as int].comp == dstart.tasks@[tid as int].comp,
                        decreases wakes@.len() - i,
                    {
                        let ghost wpre = *self;
                        let h = wakes[i];
                        let t = h.task;
                        {
                            let slot = &mut self.tasks[t];
                            slot.comp.pool_fulfilled = true;
                        }
                        proof {
                            lemma_sums_pointwise(wpre.tasks@, self.tasks@, t as int);
                        }
                        let ghost qmid = self.task_queue@;
                        self.task_queue.push(t);
                        proof {
                            assert forall|u: int|
                                0 <= u < self.tasks@.len() implies (#[trigger] self.tasks@[u]).rc
                                    >= count_task(self.task_queue@, u) + count_timer(
                                    self.waiting_timers@,
                                    u,
                                ) + count_pool(pool.take_requests@, u) + count_handles(
                                    wakes@.skip(i + 1),
                                    u,
                                ) + (if u == tid as int {
                                    1nat
                                } else {
                                    0nat
                                }) by {
                                lemma_count_task_push(qmid, t, u);
                                lemma_count_handles_step(wakes@, i as int, u);
                            }
                            assert(self.task_queue@ == qmid.push(t));
                            if at_fulfilled_withdraw(old(self).tasks@[tid as int].comp) && count_pool(
                                old(pool).take_requests@,
                                tid as int,
                            ) == 0 {
                                lemma_count_handles_step(wakes@, i as int, tid as int);
                                assert(wakes@[i as int].task as int != tid as int);
                                assert(self.tasks@[tid as int].comp == dstart.tasks@[tid as
                                    int].comp);
                            }
                            assert forall|u: int|
                                0 <= u < self.tasks@.len() && u != tid as int && (
                                #[trigger] self.tasks@[u]).rc > 0 && !settled(self.tasks@[u])
                                    implies in_ready_queue(self.task_queue@, u) by {
                                if u == t as int {
                                    assert(self.task_queue@[qmid.len() as int] as int == u);
                                } else {
                                    assert(self.tasks@[u] == wpre.tasks@[u]);
                                    if !settled(wpre.tasks@[u]) {
                                        lemma_in_queue_push(qmid, t, u);
                                    }
                                }
                            }
                        }
                        i = i + 1;
                    }
                    proof {
                        assert(wakes@.skip(wakes@.len() as int)
                            =~= Seq::<crate::task::Handle>::empty());
                    }
                    let ghost wend = *self;
                    {
                        let slot = &mut self.tasks[tid];
                        slot.comp.pc = pc + 1;
                    }
                    proof {
                        lemma_sums_pointwise(wend.tasks@, self.tasks@, tid as int);
                        assert(slot_work(self.tasks@[tid as int]) < slot_work(
                            wend.tasks@[tid as int],
                        ));
                        assert(work_of(self.tasks@) < work_of(pre.tasks@));
                        if at_fulfilled_withdraw(old(self).tasks@[tid as int].comp) && count_pool(
                                old(pool).take_requests@,
                                tid as int,
                            ) == 0 {
                            let c0 = old(self).tasks@[tid as int].comp;
                            assert(self.tasks@[tid as int].comp.observed@ == dstart.tasks@[tid as
                                int].comp.observed@);
                            assert(self.withdraw_resolved(tid as int, c0, old(self).outputs@));
                            assert(count_pool(pool.take_requests@, tid as int) == 0);
                        }
                    }
                },
                Step::Withdraw(amount) => {
                    if self.tasks[tid].comp.pool_fulfilled {
                        {
                            let slot = &mut self.tasks[tid];
                            slot.comp.pool_fulfilled = false;
                            slot.comp.pool_registered = false;
                            slot.comp.observed.push(amount);
                            slot.comp.pc = pc + 1;
                        }
                        proof {
                            lemma_sums_pointwise(pre.tasks@, self.tasks@, tid as int);
                            assert(work_of(self.tasks@) < work_of(pre.tasks@));
                            if at_fulfilled_withdraw(old(self).tasks@[tid as int].comp) && count_pool(
                                old(pool).take_requests@,
                                tid as int,
                            ) == 0 {
                                let c0 = old(self).tasks@[tid as int].comp;
                                // the fulfilment flag was set, so this is the first
                                // attempt: the state still matched the entry state
                                assert(pre == *old(self));
                                assert(amount == withdraw_amount(c0.steps@[c0.pc as int]));
                                assert(self.tasks@[tid as int].comp.observed@
                                    == c0.observed@.push(amount));
                                assert(self.withdraw_resolved(tid as int, c0, old(self).outputs@));
                                assert(count_pool(pool.take_requests@, tid as int) == 0);
                            }
                        }
                    } else if !self.tasks[tid].comp.pool_registered {
                        let r = self.tasks[tid].rc;
                        if r < u64::MAX {
                            {
                                let slot = &mut self.tasks[tid];
                                slot.rc = r + 1;
                                slot.comp.pool_registered = true;
                            }
                            pool.take_money(amount, Some(Handle { task: tid }));
                            proof {
                                lemma_sums_pointwise(pre.tasks@, self.tasks@, tid as int);
                                assert forall|u: int|
                                    count_pool(pool.take_requests@, u) == count_pool(
                                        ppre.take_requests@,
                                        u,
                                    ) + (if u == tid as int {
                                        1nat
                                    } else {
                                        0nat
                                    }) by {
                                    lemma_count_pool_push(
                                        ppre.take_requests@,
                                        MoneyTakeRequest {
                                            amount,
                                            waker: Some(Handle { task: tid }),
                                        },
                                        u,
                                    );
                                }
                            }
                        } else {
                            {
                                let slot = &mut self.tasks[tid];
                                slot.comp.pool_registered = true;
                            }
                            pool.take_money(amount, None);
                            proof {
                                lemma_sums_pointwise(pre.tasks@, self.tasks@, tid as int);
                                assert forall|u: int|
                                    count_pool(pool.take_requests@, u) == count_pool(
                                        ppre.take_requests@,
                                        u,
                                    ) by {
                                    lemma_count_pool_push(
                                        ppre.take_requests@,
                                        MoneyTakeRequest { amount, waker: None },
                                        u,
                                    );
                                }
                            }
                        }
                        proof {
                            assert(self.tasks@[tid as int].comp.steps@[pc as int]
                                == Step::Withdraw(amount));
                            assert(settled(self.tasks@[tid as int]));
                            if at_fulfilled_withdraw(old(self).tasks@[tid as int].comp) && count_pool(
                                old(pool).take_requests@,
                                tid as int,
                            ) == 0 {
                                let c0 = old(self).tasks@[tid as int].comp;
                                assert(pre.withdraw_resolved(tid as int, c0, old(self).outputs@));
                                assert(self.withdraw_resolved(tid as int, c0, old(self).outputs@));
                                assert(self.tasks@[tid as int].comp.pool_registered);
                            }
                        }
                        break ;
                    } else {
                        proof {
                            assert(self.tasks@[tid as int].comp.steps@[pc as int]
                                == Step::Withdraw(amount));
                            assert(settled(self.tasks@[tid as int]));
                            if at_fulfilled_withdraw(old(self).tasks@[tid as int].comp) && count_pool(
                                old(pool).take_requests@,
                                tid as int,
                            ) == 0 {
                                let c0 = old(self).tasks@[tid as int].comp;
                                assert(pre.withdraw_resolved(tid as int, c0, old(self).outputs@));
                                assert(self.withdraw_resolved(tid as int, c0, old(self).outputs@));
                            }
                        }
                        break ;
                    }
                },
                Step::SleepFor(dur) => {
                    let done_now = self.sleep_step(tid, pc, step, pool);
                    proof {
                        assert forall|kk: int|
                            0 <= kk < self.waiting_timers@.len() implies old(self).waiting_timers@.contains(#[trigger] self.waiting_timers@[kk])
                            || self.waiting_timers@[kk].deadline > old(self).now by {
                            if pre.waiting_timers@.contains(self.waiting_timers@[kk]) {
                                let jj = choose|jj: int|
                                    0 <= jj < pre.waiting_timers@.len()
                                        && pre.waiting_timers@[jj] == self.waiting_timers@[kk];
                                assert(old(self).waiting_timers@.contains(pre.waiting_timers@[jj])
                                    || pre.waiting_timers@[jj].deadline > old(self).now);
                            }
                        }
                        if at_fulfilled_withdraw(old(self).tasks@[tid as int].comp) && count_pool(
                                old(pool).take_requests@,
                                tid as int,
                            ) == 0 {
                            let c0 = old(self).tasks@[tid as int].comp;
                            // the entry state rested on a withdrawal, so on a
                            // first attempt this arm cannot be reached
                            if pre == *old(self) && ppre == *old(pool) {
                                assert(c0.steps@[c0.pc as int] matches Step::Withdraw(_));
                                assert(false);
                            }
                            assert(pre.withdraw_resolved(tid as int, c0, old(self).outputs@));
                            assert(self.tasks@[tid as int].comp.observed@ == pre.tasks@[tid as
                                int].comp.observed@);
                            assert(self.tasks@[tid as int].comp.pool_fulfilled == pre.tasks@[tid as
                                int].comp.pool_fulfilled);
                            assert(self.tasks@[tid as int].comp.done == pre.tasks@[tid as
                                int].comp.done);
                            assert(self.outputs@ == pre.outputs@);
                            assert(self.withdraw_resolved(tid as int, c0, old(self).outputs@));
                            assert(count_pool(pool.take_requests@, tid as int) == 0);
                        }
                        assert forall|kk: int|
                            0 <= kk < old(self).waiting_timers@.len() implies self.waiting_timers@.contains(
                            #[trigger] old(self).waiting_timers@[kk],
                        ) by {
                            let x = old(self).waiting_timers@[kk];
                            assert(pre.waiting_timers@.contains(x));
                            let jj = choose|jj: int|
                                0 <= jj < pre.waiting_timers@.len() && pre.waiting_timers@[jj]
                                    == x;
                            if self.waiting_timers@ == pre.waiting_timers@ {
                                assert(self.waiting_timers@[jj] == x);
                            } else {
                                let e = TimerEntry {
                                    deadline: sleep_target(pre.now, step),
                                    seq: pre.next_timer_id,
                                    waker: Handle { task: tid },
                                };
                                let pos = choose|pos: int|
                                    0 <= pos <= pre.waiting_timers@.len()
                                        && self.waiting_timers@ == pre.waiting_timers@.insert(
                                        pos,
                                        e,
                                    );
                                pre.waiting_timers@.insert_ensures(pos, e);
                                if jj < pos {
                                    assert(self.waiting_timers@[jj] == x);
                                } else {
                                    assert(self.waiting_timers@[jj + 1] == x);
                                }
                            }
                        }
                    }
                    if !done_now {
                        proof {
                            assert(self.tasks@[tid as int].comp.steps@[pc as int]
                                == Step::SleepFor(dur));
                            assert(settled(self.tasks@[tid as int]));
                        }
                        break ;
                    }
                },
                Step::SleepUntil(t) => {
                    let done_now = self.sleep_step(tid, pc, step, pool);
                    proof {
                        assert forall|kk: int|
                            0 <= kk < self.waiting_timers@.len() implies old(self).waiting_timers@.contains(#[trigger] self.waiting_timers@[kk])
                            || self.waiting_timers@[kk].deadline > old(self).now by {
                            if pre.waiting_timers@.contains(self.waiting_timers@[kk]) {
                                let jj = choose|jj: int|
                                    0 <= jj < pre.waiting_timers@.len()
                                        && pre.waiting_timers@[jj] == self.waiting_timers@[kk];
                                assert(old(self).waiting_timers@.contains(pre.waiting_timers@[jj])
                                    || pre.waiting_timers@[jj].deadline > old(self).now);
                            }
                        }
                        if at_fulfilled_withdraw(old(self).tasks@[tid as int].comp) && count_pool(
                                old(pool).take_requests@,
                                tid as int,
                            ) == 0 {
                            let c0 = old(self).tasks@[tid as int].comp;
                            // the entry state rested on a withdrawal, so on a
                            // first attempt this arm cannot be reached
                            if pre == *old(self) && ppre == *old(pool) {
                                assert(c0.steps@[c0.pc as int] matches Step::Withdraw(_));
                                assert(false);
                            }
                            assert(pre.withdraw_resolved(tid as int, c0, old(self).outputs@));
                            assert(self.tasks@[tid as int].comp.observed@ == pre.tasks@[tid as
                                int].comp.observed@);
                            assert(self.tasks@[tid as int].comp.pool_fulfilled == pre.tasks@[tid as
                                int].comp.pool_fulfilled);
                            assert(self.tasks@[tid as int].comp.done == pre.tasks@[tid as
                                int].comp.done);
                            assert(self.outputs@ == pre.outputs@);
                            assert(self.withdraw_resolved(tid as int, c0, old(self).outputs@));
                            assert(count_pool(pool.take_requests@, tid as int) == 0);
                        }
                        assert forall|kk: int|
                            0 <= kk < old(self).waiting_timers@.len() implies self.waiting_timers@.contains(
                            #[trigger] old(self).waiting_timers@[kk],
                        ) by {
                            let x = old(self).waiting_timers@[kk];
                            assert(pre.waiting_timers@.contains(x));
                            let jj = choose|jj: int|
                                0 <= jj < pre.waiting_timers@.len() && pre.waiting_timers@[jj]
                                    == x;
                            if self.waiting_timers@ == pre.waiting_timers@ {
                                assert(self.waiting_timers@[jj] == x);
                            } else {
                                let e = TimerEntry {
                                    deadline: sleep_target(pre.now, step),
                                    seq: pre.next_timer_id,
                                    waker: Handle { task: tid },
                                };
                                let pos = choose|pos: int|
                                    0 <= pos <= pre.waiting_timers@.len()
                                        && self.waiting_timers@ == pre.waiting_timers@.insert(
                                        pos,
                                        e,
                                    );
                                pre.waiting_timers@.insert_ensures(pos, e);
                                if jj < pos {
                                    assert(self.waiting_timers@[jj] == x);
                                } else {
                                    assert(self.waiting_timers@[jj + 1] == x);
                                }
                            }
                        }
                    }
                    if !done_now {
                        proof {
                            assert(self.tasks@[tid as int].comp.steps@[pc as int]
                                == Step::SleepUntil(t));
                            assert(settled(self.tasks@[tid as int]));
                        }
                        break ;
                    }
                },
            }
        }
        // release the reference the run loop held for this poll: the last
        // owner gone, the task is destroyed and its slot vacated for good
        let ghost fin = *self;
        let r = self.tasks[tid].rc;
        if r == 1 {
            {
                let slot = &mut self.tasks[tid];
                slot.rc = 0;
                slot.comp = Computation::new(Vec::new());
            }
            proof {
                lemma_sums_pointwise(fin.tasks@, self.tasks@, tid as int);
            }
        } else {
            {
                let slot = &mut self.tasks[tid];
                slot.rc = r - 1;
            }
            proof {
                lemma_sums_pointwise(fin.tasks@, self.tasks@, tid as int);
            }
        }
    }
}

impl Runtime {
    /// One attempt at a sleep step: fix the deadline on the first attempt,
    /// resolve at once when the clock has already reached it — without ever
    /// touching the wait set — and otherwise register the task's handle with
    /// the wait set and report the task suspended.
    #[verifier::rlimit(100)]
    fn sleep_step(&mut self, tid: usize, pc: usize, step: Step, pool: &MoneyPool) -> (done_now:
        bool)
        requires
            tid < old(self).tasks@.len(),
            old(self).wf_held(*pool, tid as int),
            old(self).tasks@[tid as int].comp.pc == pc,
            pc < old(self).tasks@[tid as int].comp.steps@.len(),
            old(self).tasks@[tid as int].comp.steps@[pc as int] == step,
            (step matches Step::SleepFor(_)) || (step matches Step::SleepUntil(_)),
        ensures
            final(self).wf_held(*pool, tid as int),
            final(self).tasks@.len() == old(self).tasks@.len(),
            final(self).now == old(self).now,
            final(self).next_timer_id >= old(self).next_timer_id,
            final(self).outputs@ == old(self).outputs@,
            final(self).task_queue@ == old(self).task_queue@,
            forall|t: int|
                0 <= t < old(self).tasks@.len() && t != tid as int ==> final(self).tasks@[t] == old(self).tasks@[t],
            final(self).tasks@[tid as int].comp.steps@ == old(self).tasks@[tid as int].comp.steps@,
            done_now == timer_due(
                old(self).now,
                match old(self).tasks@[tid as int].comp.deadline {
                    Some(x) => x,
                    None => sleep_target(old(self).now, step),
                },
            ),
            done_now ==> final(self).waiting_timers@ == old(self).waiting_timers@ && final(self).next_timer_id == old(self).next_timer_id && slot_work(
                final(self).tasks@[tid as int],
            ) < slot_work(old(self).tasks@[tid as int]) && work_of(final(self).tasks@) < work_of(
                old(self).tasks@,
            ),
            !done_now ==> final(self).tasks@[tid as int].comp.pc == pc && final(self).tasks@[tid as int].comp.deadline is Some && final(self).tasks@[tid as int].comp.done
                == old(self).tasks@[tid as int].comp.done,
            done_now ==> final(self).tasks@ == old(self).tasks@.update(
                tid as int,
                TaskSlot {
                    rc: old(self).tasks@[tid as int].rc,
                    comp: Computation {
                        steps: old(self).tasks@[tid as int].comp.steps,
                        pc: (pc + 1) as usize,
                        deadline: None,
                        pool_registered: old(self).tasks@[tid as int].comp.pool_registered,
                        pool_fulfilled: old(self).tasks@[tid as int].comp.pool_fulfilled,
                        observed: old(self).tasks@[tid as int].comp.observed,
                        done: old(self).tasks@[tid as int].comp.done,
                    },
                },
            ),
            !done_now && old(self).tasks@[tid as int].comp.deadline is Some ==> *final(self)
                == *old(self),
            (!done_now && old(self).tasks@[tid as int].comp.deadline is None && old(self).tasks@[tid as int].rc < u64::MAX && old(self).next_timer_id < u64::MAX) ==> ({
                &&& final(self).next_timer_id == old(self).next_timer_id + 1
                &&& final(self).tasks@ == old(self).tasks@.update(
                    tid as int,
                    TaskSlot {
                        rc: (old(self).tasks@[tid as int].rc + 1) as u64,
                        comp: Computation {
                            steps: old(self).tasks@[tid as int].comp.steps,
                            pc,
                            deadline: Some(sleep_target(old(self).now, step)),
                            pool_registered: old(self).tasks@[tid as int].comp.pool_registered,
                            pool_fulfilled: old(self).tasks@[tid as int].comp.pool_fulfilled,
                            observed: old(self).tasks@[tid as int].comp.observed,
                            done: old(self).tasks@[tid as int].comp.done,
                        },
                    },
                )
                &&& exists|pos: int|
                    0 <= pos <= old(self).waiting_timers@.len() && final(self).waiting_timers@
                        == old(self).waiting_timers@.insert(
                        pos,
                        TimerEntry {
                            deadline: sleep_target(old(self).now, step),
                            seq: old(self).next_timer_id,
                            waker: Handle { task: tid },
                        },
                    )
            }),
            (!done_now && old(self).tasks@[tid as int].comp.deadline is None && !(old(self).tasks@[tid as int].rc < u64::MAX && old(self).next_timer_id < u64::MAX)) ==> ({
                &&& final(self).waiting_timers@ == old(self).waiting_timers@
                &&& final(self).next_timer_id == old(self).next_timer_id
                &&& final(self).tasks@ == old(self).tasks@.update(
                    tid as int,
                    TaskSlot {
                        rc: old(self).tasks@[tid as int].rc,
                        comp: Computation {
                            steps: old(self).tasks@[tid as int].comp.steps,
                            pc,
                            deadline: Some(sleep_target(old(self).now, step)),
                            pool_registered: old(self).tasks@[tid as int].comp.pool_registered,
                            pool_fulfilled: old(self).tasks@[tid as int].comp.pool_fulfilled,
                            observed: old(self).tasks@[tid as int].comp.observed,
                            done: old(self).tasks@[tid as int].comp.done,
                        },
                    },
                )
            }),
            !done_now ==> work_of(final(self).tasks@) == work_of(old(self).tasks@) && unreg_of(
                final(self).tasks@,
            ) <= unreg_of(old(self).tasks@),
            !done_now && unreg_of(final(self).tasks@) == unreg_of(old(self).tasks@) ==> *final(self)
                == *old(self),
            forall|k: int|
                0 <= k < final(self).waiting_timers@.len() ==> old(self).waiting_timers@.contains(
                    #[trigger] final(self).waiting_timers@[k],
                ) || final(self).waiting_timers@[k].deadline > old(self).now,
    {
        let ghost pre = *self;
        let target: u64 = match step {
            Step::SleepFor(d) => if d > u64::MAX - self.now {
                u64::MAX
            } else {
                self.now + d
            },
            Step::SleepUntil(t) => t,
            Step::Withdraw(_) => self.now,
            Step::Deposit(_) => self.now,
        };
        proof {
            assert(target == sleep_target(old(self).now, step));
        }
        let fresh: bool;
        let dl: u64;
        match self.tasks[tid].comp.deadline {
            Some(x) => {
                dl = x;
                fresh = false;
            },
            None => {
                dl = target;
                fresh = true;
            },
        }
        if self.now >= dl {
            let n = self.tasks[tid].comp.steps.len();
            assert(pc < n);
            {
                let slot = &mut self.tasks[tid];
                slot.comp.deadline = None;
                slot.comp.pc = pc + 1;
            }
            proof {
                lemma_sums_pointwise(pre.tasks@, self.tasks@, tid as int);
                assert(self.tasks@ =~= pre.tasks@.update(
                    tid as int,
                    TaskSlot {
                        rc: pre.tasks@[tid as int].rc,
                        comp: Computation {
                            steps: pre.tasks@[tid as int].comp.steps,
                            pc: (pc + 1) as usize,
                            deadline: None,
                            pool_registered: pre.tasks@[tid as int].comp.pool_registered,
                            pool_fulfilled: pre.tasks@[tid as int].comp.pool_fulfilled,
                            observed: pre.tasks@[tid as int].comp.observed,
                            done: pre.tasks@[tid as int].comp.done,
                        },
                    },
                ));
            }
            true
        } else if fresh {
            {
                let slot = &mut self.tasks[tid];
                slot.comp.deadline = Some(dl);
            }
            proof {
                lemma_sums_pointwise(pre.tasks@, self.tasks@, tid as int);
                assert(slot_unreg(pre.tasks@[tid as int]) == 1);
                assert(slot_unreg(self.tasks@[tid as int]) == 0);
                assert(self.tasks@ =~= pre.tasks@.update(
                    tid as int,
                    TaskSlot {
                        rc: pre.tasks@[tid as int].rc,
                        comp: Computation {
                            steps: pre.tasks@[tid as int].comp.steps,
                            pc,
                            deadline: Some(sleep_target(old(self).now, step)),
                            pool_registered: pre.tasks@[tid as int].comp.pool_registered,
                            pool_fulfilled: pre.tasks@[tid as int].comp.pool_fulfilled,
                            observed: pre.tasks@[tid as int].comp.observed,
                            done: pre.tasks@[tid as int].comp.done,
                        },
                    },
                ));
            }
            let r = self.tasks[tid].rc;
            if r < u64::MAX && self.next_timer_id < u64::MAX {
                let ghost mid = *self;
                {
                    let slot = &mut self.tasks[tid];
                    slot.rc = r + 1;
                }
                proof {
                    lemma_sums_pointwise(mid.tasks@, self.tasks@, tid as int);
                    assert(self.tasks@ =~= pre.tasks@.update(
                        tid as int,
                        TaskSlot {
                            rc: (pre.tasks@[tid as int].rc + 1) as u64,
                            comp: Computation {
                                steps: pre.tasks@[tid as int].comp.steps,
                                pc,
                                deadline: Some(sleep_target(old(self).now, step)),
                                pool_registered: pre.tasks@[tid as int].comp.pool_registered,
                                pool_fulfilled: pre.tasks@[tid as int].comp.pool_fulfilled,
                                observed: pre.tasks@[tid as int].comp.observed,
                                done: pre.tasks@[tid as int].comp.done,
                            },
                        },
                    ));
                }
                let ghost mid2 = *self;
                self.register_timer(dl, Handle { task: tid });
                proof {
                    let e = TimerEntry { deadline: dl, seq: mid2.next_timer_id, waker: Handle { task: tid } };
                    let pos = choose|pos: int|
                        0 <= pos <= mid2.waiting_timers@.len() && self.waiting_timers@
                            == mid2.waiting_timers@.insert(pos, e);
                    mid2.waiting_timers@.insert_ensures(pos, e);
                    assert forall|t: int|
                        count_timer(self.waiting_timers@, t) == count_timer(
                            mid2.waiting_timers@,
                            t,
                        ) + (if t == tid as int {
                            1nat
                        } else {
                            0nat
                        }) by {
                        lemma_count_timer_insert(mid2.waiting_timers@, pos, e, t);
                    }
                    assert forall|k: int|
                        0 <= k < self.waiting_timers@.len() implies (
                        #[trigger] self.waiting_timers@[k]).waker.task < self.tasks@.len() by {
                        if k < pos {
                            assert(self.waiting_timers@[k] == mid2.waiting_timers@[k]);
                        } else if k == pos {
                            assert(self.waiting_timers@[k] == e);
                        } else {
                            assert(self.waiting_timers@[k] == mid2.waiting_timers@[k - 1]);
                        }
                    }
                    assert forall|k: int|
                        0 <= k < self.waiting_timers@.len() implies old(self).waiting_timers@.contains(#[trigger] self.waiting_timers@[k])
                        || self.waiting_timers@[k].deadline > old(self).now by {
                        if k < pos {
                            assert(self.waiting_timers@[k] == mid2.waiting_timers@[k]);
                            assert(old(self).waiting_timers@.contains(mid2.waiting_timers@[k]));
                        } else if k == pos {
                            assert(self.waiting_timers@[k] == e);
                            assert(e.deadline > old(self).now);
                        } else {
                            assert(self.waiting_timers@[k] == mid2.waiting_timers@[k - 1]);
                            assert(old(self).waiting_timers@.contains(
                                mid2.waiting_timers@[k - 1],
                            ));
                        }
                    }
                }
            }
            false
        } else {
            false
        }
    }

    /// Drive the scheduler until nothing remains: repeatedly drain the ready
    /// queue — each popped task attempts progress, and a task re-admitted
    /// meanwhile is caught by the same drain — then advance the virtual
    /// clock to the earliest wait-set deadline and fire that entry, first in
    /// (deadline, sequence) order; return once the ready queue and the wait
    /// set are both empty.  No task is lost on the way: at return every
    /// surviving task rests settled on its suspension point, and every
    /// entry the wait set held at the call has been fired at a clock
    /// reading that reached its deadline.  With nothing spawned and nothing registered, it
    /// returns at once with every part of the state untouched.
    #[verifier::rlimit(100)]
    pub fn run(&mut self, pool: &mut MoneyPool)
        requires
            old(self).wf(*old(pool)),
            old(self).ready_or_settled(),
        ensures
            final(self).wf(*final(pool)),
            forall|t: int|
                0 <= t < final(self).tasks@.len() && (#[trigger] final(self).tasks@[t]).rc > 0
                    ==> settled(final(self).tasks@[t]),
            final(self).task_queue@.len() == 0,
            final(self).waiting_timers@.len() == 0,
            forall|k: int|
                0 <= k < old(self).waiting_timers@.len() ==> final(self).now >= (
                #[trigger] old(self).waiting_timers@[k]).deadline,
            final(self).tasks@.len() == old(self).tasks@.len(),
            final(self).now >= old(self).now,
            final(self).next_timer_id >= old(self).next_timer_id,
            seq_prefix(old(self).outputs@, final(self).outputs@),
            forall|t: int|
                0 <= t < old(self).tasks@.len() && old(self).tasks@[t].rc == 0 ==> (
                #[trigger] final(self).tasks@[t]).rc == 0,
            old(self).task_queue@.len() == 0 && old(self).waiting_timers@.len() == 0 ==> *final(self) == *old(self) && *final(pool) == *old(pool),
    {
        if self.task_queue.len() == 0 && self.waiting_timers.len() == 0 {
            proof {
                assert forall|t: int|
                    0 <= t < self.tasks@.len() && (#[trigger] self.tasks@[t]).rc > 0 implies settled(
                    self.tasks@[t],
                ) by {
                    assert(!in_ready_queue(self.task_queue@, t));
                }
            }
            return ;
        }
        loop
            invariant
                self.wf(*pool),
                self.ready_or_settled(),
                forall|k: int|
                    0 <= k < old(self).waiting_timers@.len() ==> self.waiting_timers@.contains(
                        #[trigger] old(self).waiting_timers@[k],
                    ) || self.now >= old(self).waiting_timers@[k].deadline,
                self.tasks@.len() == old(self).tasks@.len(),
                self.now >= old(self).now,
                self.next_timer_id >= old(self).next_timer_id,
                forall|t: int|
                    0 <= t < old(self).tasks@.len() && old(self).tasks@[t].rc == 0 ==> (
                    #[trigger] self.tasks@[t]).rc == 0,
                seq_prefix(old(self).outputs@, self.outputs@),
            ensures
                self.wf(*pool),
                self.ready_or_settled(),
                self.task_queue@.len() == 0,
                self.waiting_timers@.len() == 0,
                forall|k: int|
                    0 <= k < old(self).waiting_timers@.len() ==> self.now >= (
                    #[trigger] old(self).waiting_timers@[k]).deadline,
                self.tasks@.len() == old(self).tasks@.len(),
                self.now >= old(self).now,
                self.next_timer_id >= old(self).next_timer_id,
                forall|t: int|
                    0 <= t < old(self).tasks@.len() && old(self).tasks@[t].rc == 0 ==> (
                    #[trigger] self.tasks@[t]).rc == 0,
                seq_prefix(old(self).outputs@, self.outputs@),
            decreases work_of(self.tasks@), unreg_of(self.tasks@), self.waiting_timers@.len(),
        {
            let ghost w0 = work_of(self.tasks@);
            let ghost u0 = unreg_of(self.tasks@);
            let ghost t0 = self.waiting_timers@;
            while self.task_queue.len() > 0
                invariant
                    self.wf(*pool),
                    self.ready_or_settled(),
                    forall|k: int|
                        0 <= k < old(self).waiting_timers@.len() ==> self.waiting_timers@.contains(
                            #[trigger] old(self).waiting_timers@[k],
                        ) || self.now >= old(self).waiting_timers@[k].deadline,
                    self.tasks@.len() == old(self).tasks@.len(),
                    self.now >= old(self).now,
                    self.next_timer_id >= old(self).next_timer_id,
                    forall|t: int|
                        0 <= t < old(self).tasks@.len() && old(self).tasks@[t].rc == 0 ==> (
                        #[trigger] self.tasks@[t]).rc == 0,
                    seq_prefix(old(self).outputs@, self.outputs@),
                    work_of(self.tasks@) <= w0,
                    work_of(self.tasks@) == w0 ==> unreg_of(self.tasks@) <= u0,
                    work_of(self.tasks@) == w0 && unreg_of(self.tasks@) == u0
                        ==> self.waiting_timers@ == t0,
                decreases work_of(self.tasks@), unreg_of(self.tasks@), self.task_queue@.len(),
            {
                let ghost spre = *self;
                let tid = self.task_queue.remove(0);
                proof {
                    assert(spre.task_queue@.remove(0) =~= spre.task_queue@.skip(1));
                    assert(tid == spre.task_queue@[0]);
                    assert forall|qi: int|
                        0 <= qi < self.task_queue@.len() implies (#[trigger] self.task_queue@[qi])
                            < self.tasks@.len() by {
                        assert(self.task_queue@[qi] == spre.task_queue@[qi + 1]);
                    }
                    assert forall|t: int|
                        0 <= t < self.tasks@.len() implies (#[trigger] self.tasks@[t]).rc
                            >= self.refs_of(*pool, t) + (if t == tid as int {
                            1nat
                        } else {
                            0nat
                        }) by {
                        assert(count_task(spre.task_queue@, t) == (if spre.task_queue@[0] as int
                            == t {
                            1nat
                        } else {
                            0nat
                        }) + count_task(spre.task_queue@.skip(1), t));
                        assert(spre.tasks@[t].rc >= spre.refs_of(*pool, t));
                    }
                    assert(self.wf_held(*pool, tid as int));
                    assert forall|t: int|
                        0 <= t < self.tasks@.len() && t != tid as int && (
                        #[trigger] self.tasks@[t]).rc > 0 && !settled(self.tasks@[t])
                            implies in_ready_queue(self.task_queue@, t) by {
                        assert(in_ready_queue(spre.task_queue@, t));
                        lemma_in_queue_tail(spre.task_queue@, t);
                    }
                }
                let ghost sheld = *self;
                self.poll_task(tid, pool);
                proof {
                    assert(seq_prefix(old(self).outputs@, self.outputs@));
                    assert forall|k: int|
                        0 <= k < old(self).waiting_timers@.len() implies self.waiting_timers@.contains(
                        #[trigger] old(self).waiting_timers@[k],
                    ) || self.now >= old(self).waiting_timers@[k].deadline by {
                        let x = old(self).waiting_timers@[k];
                        if sheld.waiting_timers@.contains(x) {
                            let jj = choose|jj: int|
                                0 <= jj < sheld.waiting_timers@.len()
                                    && sheld.waiting_timers@[jj] == x;
                            assert(self.waiting_timers@.contains(sheld.waiting_timers@[jj]));
                        }
                    }
                    if work_of(self.tasks@) == w0 {
                        assert(work_of(self.tasks@) == work_of(sheld.tasks@));
                        assert(self.task_queue@ == sheld.task_queue@);
                        assert(unreg_of(self.tasks@) <= unreg_of(sheld.tasks@));
                    }
                }
            }
            if self.waiting_timers.len() == 0 {
                break ;
            }
            let ghost fpre = *self;
            let e = self.waiting_timers.remove(0);
            proof {
                assert(fpre.waiting_timers@.remove(0) =~= fpre.waiting_timers@.skip(1));
                assert(e == fpre.waiting_timers@[0]);
                assert forall|i: int, j: int|
                    0 <= i < j < self.waiting_timers@.len() implies #[trigger] entry_le(
                    self.waiting_timers@[i],
                    self.waiting_timers@[j],
                ) by {
                    assert(self.waiting_timers@[i] == fpre.waiting_timers@[i + 1]);
                    assert(self.waiting_timers@[j] == fpre.waiting_timers@[j + 1]);
                    assert(entry_le(fpre.waiting_timers@[i + 1], fpre.waiting_timers@[j + 1]));
                }
                assert forall|i: int|
                    0 <= i < self.waiting_timers@.len() implies (
                    #[trigger] self.waiting_timers@[i]).waker.task < self.tasks@.len() by {
                    assert(self.waiting_timers@[i] == fpre.waiting_timers@[i + 1]);
                }
                assert forall|i: int|
                    0 <= i < self.waiting_timers@.len() implies (
                    #[trigger] self.waiting_timers@[i]).seq < self.next_timer_id by {
                    assert(self.waiting_timers@[i] == fpre.waiting_timers@[i + 1]);
                }
                assert forall|t: int|
                    0 <= t < self.tasks@.len() implies (#[trigger] self.tasks@[t]).rc
                        >= self.refs_of(*pool, t) + (if t == e.waker.task as int {
                        1nat
                    } else {
                        0nat
                    }) by {
                    assert(count_timer(fpre.waiting_timers@, t) == (if fpre.waiting_timers@[0].waker.task
                        as int == t {
                        1nat
                    } else {
                        0nat
                    }) + count_timer(fpre.waiting_timers@.skip(1), t));
                    assert(fpre.tasks@[t].rc >= fpre.refs_of(*pool, t));
                }
            }
            if self.now < e.deadline {
                self.now = e.deadline;
            }
            let ghost wpre = *self;
            self.wake(e.waker);
            proof {
                assert forall|t: int|
                    0 <= t < self.tasks@.len() implies (#[trigger] self.tasks@[t]).rc
                        >= self.refs_of(*pool, t) by {
                    lemma_count_task_push(wpre.task_queue@, e.waker.task, t);
                }
                assert forall|qi: int|
                    0 <= qi < self.task_queue@.len() implies (#[trigger] self.task_queue@[qi])
                        < self.tasks@.len() by {
                    if qi < wpre.task_queue@.len() {
                        assert(self.task_queue@[qi] == wpre.task_queue@[qi]);
                    } else {
                        assert(self.task_queue@[qi] == e.waker.task);
                    }
                }
                if work_of(self.tasks@) == w0 && unreg_of(self.tasks@) == u0 {
                    assert(fpre.waiting_timers@ == t0);
                    assert(self.waiting_timers@.len() == t0.len() - 1);
                }
                assert forall|t: int|
                    0 <= t < self.tasks@.len() && (#[trigger] self.tasks@[t]).rc > 0 && !settled(
                        self.tasks@[t],
                    ) implies in_ready_queue(self.task_queue@, t) by {
                    if in_ready_queue(wpre.task_queue@, t) {
                        lemma_in_queue_push(wpre.task_queue@, e.waker.task, t);
                    }
                }
                assert forall|k: int|
                    0 <= k < old(self).waiting_timers@.len() implies self.waiting_timers@.contains(
                    #[trigger] old(self).waiting_timers@[k],
                ) || self.now >= old(self).waiting_timers@[k].deadline by {
                    let x = old(self).waiting_timers@[k];
                    if fpre.waiting_timers@.contains(x) {
                        let jj = choose|jj: int|
                            0 <= jj < fpre.waiting_timers@.len() && fpre.waiting_timers@[jj]
                                == x;
                        if jj == 0 {
                            assert(x == e);
                            assert(self.now >= e.deadline);
                        } else {
                            assert(self.waiting_timers@[jj - 1] == x);
                        }
                    }
                }
            }
        }
    }
}

} // verus!



