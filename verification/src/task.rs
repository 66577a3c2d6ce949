//! Tasks, their computations, and the reference-counted resumption handle.
//!
//! A task wraps one suspension-aware computation: a program of steps that the
//! scheduler advances until the computation either finishes or suspends on an
//! event source.  Event sources hold a `Handle` to the task; invoking the
//! handle re-admits the task to the scheduler's ready queue.  The scheduler
//! counts every outstanding reference to a task — ready-queue slots, wait-set
//! entries, pool registrations and loose handles — and destroys the task
//! exactly when the count reaches zero.

use vstd::prelude::*;

verus! {

/// One step of a suspension-aware computation.
///
/// `SleepFor` and `SleepUntil` suspend on the timer source; `Withdraw`
/// suspends on the resource pool until the pool fulfils the request and the
/// computation records the withdrawn amount; `Deposit` adds to the pool's
/// balance immediately and never suspends.
#[derive(Clone, Copy)]
pub enum Step {
    /// Sleep until the virtual clock has advanced by the given duration.
    SleepFor(u64),
    /// Sleep until the virtual clock reaches the given deadline.
    SleepUntil(u64),
    /// Suspend until the pool can cover the given amount, then record it.
    Withdraw(u64),
    /// Add the given amount to the pool's balance, without suspending.
    Deposit(u64),
}

/// A resumption handle: one counted reference to a task, held by an event
/// source (or a caller) so that the task can be re-admitted to the ready
/// queue when the awaited event occurs.
///
/// All four handle operations — clone, invoke by reference, invoke by value,
/// drop — live on the scheduler, which owns the reference counts.  The
/// handle itself is plain data, like the raw pointer inside a waker: copying
/// the value adds no owner; only `Runtime::clone_handle` does.
#[derive(Clone, Copy)]
pub struct Handle {
    /// Index of the task this handle wakes, in the scheduler's task table.
    pub task: usize,
}

/// The state of one suspension-aware computation: a program of steps, a
/// program counter, the bookkeeping of the suspension point it currently
/// rests on, and the amounts its withdrawals have observed.
pub struct Computation {
    /// The program: executed front to back.
    pub steps: Vec<Step>,
    /// Index of the step to run next; the computation is finished once this
    /// reaches the end of the program.
    pub pc: usize,
    /// The absolute deadline of the sleep step currently in progress, fixed
    /// the first time that step is attempted.
    pub deadline: Option<u64>,
    /// Whether the withdrawal step currently in progress has already queued
    /// its request with the pool.
    pub pool_registered: bool,
    /// Whether the pool has fulfilled the request of the withdrawal step
    /// currently in progress.
    pub pool_fulfilled: bool,
    /// The amounts received from fulfilled withdrawals, in program order.
    pub observed: Vec<u64>,
    /// Whether the computation's results have been reported to the scheduler;
    /// set exactly once, when the program first runs to completion.
    pub done: bool,
}

impl Computation {
    /// A fresh computation at the start of the given program.
    pub fn new(steps: Vec<Step>) -> (c: Computation)
        ensures
            c.steps@ == steps@,
            c.pc == 0,
            c.deadline is None,
            !c.pool_registered,
            !c.pool_fulfilled,
            c.observed@ == Seq::<u64>::empty(),
            !c.done,
    {
        Computation {
            steps,
            pc: 0,
            deadline: None,
            pool_registered: false,
            pool_fulfilled: false,
            observed: Vec::new(),
            done: false,
        }
    }
}

/// One slot of the scheduler's task table.  A slot with a reference count of
/// zero is vacant: its task has been destroyed and the slot is never reused.
pub struct TaskSlot {
    /// How many owners the task has: ready-queue slots, wait-set entries,
    /// pool registrations and loose handles together.
    pub rc: u64,
    /// The task's computation; inert once the slot is vacant.
    pub comp: Computation,
}

/// One handle operation, as performed by holders of a task's handles.
pub enum HandleOp {
    /// Duplicate a handle; the task gains one owner.
    Clone,
    /// Re-admit the task to the ready queue, keeping the handle; the queue
    /// slot is a new owner.
    InvokeByRef,
    /// Re-admit the task to the ready queue, consuming the handle; ownership
    /// moves from the handle to the queue slot, so the count is unchanged.
    InvokeByValue,
    /// Give a handle up; the task loses one owner.
    Drop,
}

/// How one handle operation changes the number of owners of a task.
pub open spec fn op_delta(op: HandleOp) -> int {
    match op {
        HandleOp::Clone => 1,
        HandleOp::InvokeByRef => 1,
        HandleOp::InvokeByValue => 0,
        HandleOp::Drop => -1,
    }
}

/// The reference count of a task after a sequence of handle operations,
/// starting from `count` owners.  A count of zero means the task has been
/// destroyed; destruction is absorbing, since no operation admits a task
/// that no longer exists.
pub open spec fn rc_after(count: int, ops: Seq<HandleOp>) -> int
    decreases ops.len(),
{
    if ops.len() == 0 {
        count
    } else if count == 0 {
        0
    } else {
        rc_after(count + op_delta(ops[0]), ops.skip(1))
    }
}

/// Number of operations in `ops` whose delta is the given value.
pub open spec fn count_ops_with_delta(ops: Seq<HandleOp>, d: int) -> int
    decreases ops.len(),
{
    if ops.len() == 0 {
        0
    } else {
        (if op_delta(ops[0]) == d { 1int } else { 0int }) + count_ops_with_delta(ops.skip(1), d)
    }
}

/// Reference-count balance: as long as the task stays alive throughout, its
/// count after a sequence of handle operations is exactly the starting count
/// plus one per clone and per invocation by reference, minus one per drop;
/// invocations by value leave the count unchanged.  Together with the
/// scheduler's handle operations, whose contracts each apply one
/// `op_delta`, this pins the count to the number of owners.
pub proof fn lemma_refcount_balance(count: int, ops: Seq<HandleOp>)
    requires
        forall|i: int| 0 <= i < ops.len() ==> #[trigger] rc_after(count, ops.take(i)) >= 1,
    ensures
        rc_after(count, ops) == count + count_ops_with_delta(ops, 1) - count_ops_with_delta(
            ops,
            -1,
        ),
    decreases ops.len(),
{
    if ops.len() == 0 {
    } else {
        assert(rc_after(count, ops.take(0)) >= 1);
        assert(ops.take(0) =~= Seq::<HandleOp>::empty());
        assert(count >= 1);
        let count2 = count + op_delta(ops[0]);
        let rest = ops.skip(1);
        assert forall|i: int| 0 <= i < rest.len() implies #[trigger] rc_after(
            count2,
            rest.take(i),
        ) >= 1 by {
            assert(rc_after(count, ops.take(i + 1)) >= 1);
            assert(ops.take(i + 1).len() == i + 1);
            assert(ops.take(i + 1)[0] == ops[0]);
            assert(ops.take(i + 1).skip(1) =~= rest.take(i));
            assert(rc_after(count, ops.take(i + 1)) == rc_after(count2, rest.take(i)));
        }
        lemma_refcount_balance(count2, rest);
        assert(op_delta(ops[0]) == 1 || op_delta(ops[0]) == 0 || op_delta(ops[0]) == -1);
    }
}

/// A destroyed task stays destroyed: once the reference count has reached
/// zero, no further sequence of handle operations revives it — the task is
/// destroyed exactly once and never accessed afterwards.
pub proof fn lemma_destroyed_stays_destroyed(ops: Seq<HandleOp>)
    ensures
        rc_after(0, ops) == 0,
{
}

} // verus!
