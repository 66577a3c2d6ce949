//! The resource pool: a shared balance with a FIFO queue of amount-based
//! withdrawal requests.
//!
//! Deposits raise the balance and then serve queued requests strictly in
//! arrival order, stopping at the first request the balance cannot cover in
//! full — a deliberate head-of-line policy: a later, smaller request is never
//! served ahead of an earlier, larger one.

use vstd::prelude::*;
use crate::task::Handle;

verus! {

/// One queued ask against the pool: the amount wanted and, once the waiting
/// computation has registered itself, the handle to invoke on fulfillment.
#[derive(Clone, Copy)]
pub struct MoneyTakeRequest {
    /// The amount this request waits for; fulfilled all-or-nothing.
    pub amount: u64,
    /// The resumption handle of the waiting task, if one was registered.
    pub waker: Option<Handle>,
}

/// The pool: a single balance and the FIFO queue of pending requests.
pub struct MoneyPool {
    /// The balance; never negative, raised by deposits and lowered by the
    /// exact amount of each fulfilled request.
    pub money: u64,
    /// Pending withdrawal requests, front at index zero, served in order.
    pub take_requests: Vec<MoneyTakeRequest>,
}

/// How many requests at the front of `q` a balance of `balance` serves in
/// FIFO order, each subtracting its amount, stopping at the first request
/// the remaining balance cannot cover in full.
pub open spec fn served_count(balance: int, q: Seq<MoneyTakeRequest>) -> nat
    decreases q.len(),
{
    if q.len() == 0 {
        0
    } else if q[0].amount <= balance {
        1 + served_count(balance - q[0].amount, q.skip(1))
    } else {
        0
    }
}

/// The total amount of the requests in `q`.
pub open spec fn sum_amounts(q: Seq<MoneyTakeRequest>) -> int
    decreases q.len(),
{
    if q.len() == 0 {
        0
    } else {
        q[0].amount + sum_amounts(q.skip(1))
    }
}

/// The registered handles of the requests in `q`, in queue order; requests
/// that never registered one contribute nothing.
pub open spec fn wakers_of(q: Seq<MoneyTakeRequest>) -> Seq<Handle>
    decreases q.len(),
{
    if q.len() == 0 {
        Seq::empty()
    } else {
        match q[0].waker {
            Some(h) => seq![h] + wakers_of(q.skip(1)),
            None => wakers_of(q.skip(1)),
        }
    }
}

/// A balance serves no more requests than the queue holds.
pub proof fn lemma_served_count_le_len(balance: int, q: Seq<MoneyTakeRequest>)
    ensures
        served_count(balance, q) <= q.len(),
    decreases q.len(),
{
    if q.len() == 0 {
    } else if q[0].amount <= balance {
        lemma_served_count_le_len(balance - q[0].amount, q.skip(1));
    }
}

/// FIFO head-of-line policy: when the front request exceeds the balance,
/// nothing at all is served, however small the requests behind it may be.
pub proof fn lemma_fifo_head_of_line(balance: int, q: Seq<MoneyTakeRequest>)
    requires
        q.len() > 0,
        q[0].amount > balance,
    ensures
        served_count(balance, q) == 0,
{
}

/// FIFO service order: the requests a serving pass fulfils form a prefix of
/// the queue, so a later request is never served ahead of an earlier one,
/// whatever their amounts.
pub proof fn lemma_fifo_no_overtake(balance: int, q: Seq<MoneyTakeRequest>, i: int, j: int)
    requires
        0 <= i < j < q.len(),
        j < served_count(balance, q),
    ensures
        i < served_count(balance, q),
{
}

/// Eventual fulfillment: once the balance covers the front request, the next
/// serving pass fulfils it; with it alone in the queue, the pass fulfils
/// exactly it and leaves the balance lowered by exactly its amount.
pub proof fn lemma_eventual_fulfillment(balance: int, q: Seq<MoneyTakeRequest>)
    requires
        q.len() > 0,
        q[0].amount <= balance,
    ensures
        served_count(balance, q) >= 1,
        q.len() == 1 ==> served_count(balance, q) == 1 && sum_amounts(
            q.take(served_count(balance, q) as int),
        ) == q[0].amount,
{
    if q.len() == 1 {
        assert(q.skip(1) =~= Seq::<MoneyTakeRequest>::empty());
        assert(q.take(1) =~= q);
        assert(served_count(balance - q[0].amount, q.skip(1)) == 0);
        assert(served_count(balance, q) == 1 + served_count(balance - q[0].amount, q.skip(1)));
        assert(sum_amounts(q.skip(1)) == 0);
    }
}

/// Appending a request adds its amount to the total.
proof fn lemma_sum_amounts_push(q: Seq<MoneyTakeRequest>, r: MoneyTakeRequest)
    ensures
        sum_amounts(q.push(r)) == sum_amounts(q) + r.amount,
    decreases q.len(),
{
    if q.len() == 0 {
        assert(q.push(r)[0] == r);
        assert(q.push(r).skip(1) =~= Seq::<MoneyTakeRequest>::empty());
        assert(sum_amounts(q.push(r).skip(1)) == 0);
        assert(sum_amounts(q.push(r)) == r.amount);
    } else {
        assert(q.push(r).skip(1) =~= q.skip(1).push(r));
        lemma_sum_amounts_push(q.skip(1), r);
        assert(q.push(r)[0] == q[0]);
        assert(sum_amounts(q.push(r)) == q[0].amount + sum_amounts(q.skip(1).push(r)));
    }
}

/// Appending a request appends its handle, if any, to the registered ones.
proof fn lemma_wakers_of_push(q: Seq<MoneyTakeRequest>, r: MoneyTakeRequest)
    ensures
        wakers_of(q.push(r)) == wakers_of(q) + (match r.waker {
            Some(h) => seq![h],
            None => Seq::<Handle>::empty(),
        }),
    decreases q.len(),
{
    if q.len() == 0 {
        assert(q.push(r)[0] == r);
        assert(q.push(r).skip(1) =~= Seq::<MoneyTakeRequest>::empty());
        assert(wakers_of(q.push(r).skip(1)) =~= Seq::<Handle>::empty());
        match r.waker {
            Some(h) => {
                assert(wakers_of(q.push(r)) =~= seq![h] + wakers_of(q.push(r).skip(1)));
                assert(wakers_of(q.push(r)) =~= wakers_of(q) + seq![h]);
            },
            None => {
                assert(wakers_of(q.push(r)) =~= wakers_of(q.push(r).skip(1)));
                assert(wakers_of(q.push(r)) =~= wakers_of(q));
            },
        }
    } else {
        assert(q.push(r).skip(1) =~= q.skip(1).push(r));
        lemma_wakers_of_push(q.skip(1), r);
        assert(q.push(r)[0] == q[0]);
        match q[0].waker {
            Some(h) => {
                assert(wakers_of(q.push(r)) =~= seq![h] + wakers_of(q.skip(1).push(r)));
                assert(wakers_of(q) =~= seq![h] + wakers_of(q.skip(1)));
                assert(wakers_of(q.push(r)) =~= wakers_of(q) + (match r.waker {
                    Some(h2) => seq![h2],
                    None => Seq::<Handle>::empty(),
                }));
            },
            None => {
                assert(wakers_of(q.push(r)) =~= wakers_of(q.skip(1).push(r)));
                assert(wakers_of(q) =~= wakers_of(q.skip(1)));
            },
        }
    }
}

impl MoneyPool {
    /// A fresh pool: zero balance, no pending requests.
    pub fn new() -> (p: MoneyPool)
        ensures
            p.money == 0,
            p.take_requests@ == Seq::<MoneyTakeRequest>::empty(),
    {
        MoneyPool { money: 0, take_requests: Vec::new() }
    }

    /// Add to the balance, then serve queued requests strictly in FIFO
    /// order while the front request fits, subtracting each served amount;
    /// the registered handles of the served requests come back, in order,
    /// for the caller to invoke.
    pub fn add_money(&mut self, added_money: u64) -> (wakes: Vec<Handle>)
        requires
            old(self).money + added_money <= u64::MAX,
        ensures
            ({
                let before = old(self).money + added_money;
                let q0 = old(self).take_requests@;
                let k = served_count(before, q0) as int;
                &&& final(self).take_requests@ == q0.skip(k)
                &&& final(self).money == before - sum_amounts(q0.take(k))
                &&& wakes@ == wakers_of(q0.take(k))
                &&& final(self).take_requests@.len() > 0
                    ==> final(self).take_requests@[0].amount > final(self).money
            }),
    {
        self.money = self.money + added_money;
        let ghost before = self.money as int;
        let ghost q0 = self.take_requests@;
        let ghost k = served_count(before, q0) as int;
        proof {
            lemma_served_count_le_len(before, q0);
        }
        let mut wakes: Vec<Handle> = Vec::new();
        let ghost mut j: int = 0;
        loop
            invariant
                0 <= j <= k,
                k == served_count(before, q0),
                k <= q0.len(),
                self.take_requests@ == q0.skip(j),
                self.money == before - sum_amounts(q0.take(j)),
                0 <= self.money <= u64::MAX,
                wakes@ == wakers_of(q0.take(j)),
                served_count(self.money as int, self.take_requests@) == k - j,
            ensures
                self.take_requests@ == q0.skip(k),
                self.money == before - sum_amounts(q0.take(k)),
                wakes@ == wakers_of(q0.take(k)),
                served_count(self.money as int, self.take_requests@) == 0,
            decreases k - j,
        {
            if self.take_requests.len() == 0 {
                proof {
                    assert(served_count(self.money as int, self.take_requests@) == 0);
                }
                break ;
            }
            let amount = self.take_requests[0].amount;
            if amount > self.money {
                proof {
                    assert(served_count(self.money as int, self.take_requests@) == 0);
                }
                break ;
            }
            let request = self.take_requests.remove(0);
            self.money = self.money - amount;
            match request.waker {
                Some(h) => wakes.push(h),
                None => {},
            }
            proof {
                assert(q0.skip(j).remove(0) =~= q0.skip(j + 1));
                assert(q0.take(j + 1) =~= q0.take(j).push(q0[j]));
                lemma_sum_amounts_push(q0.take(j), q0[j]);
                lemma_wakers_of_push(q0.take(j), q0[j]);
                assert(request == q0[j]);
                j = j + 1;
            }
        }
        wakes
    }

    /// Append a withdrawal request for the given amount, carrying the
    /// waiting task's handle if it has one; the balance is untouched and
    /// every earlier request keeps its place ahead of the new one.
    pub fn take_money(&mut self, needed_money: u64, waker: Option<Handle>)
        ensures
            final(self).money == old(self).money,
            final(self).take_requests@ == old(self).take_requests@.push(
                MoneyTakeRequest { amount: needed_money, waker },
            ),
    {
        self.take_requests.push(MoneyTakeRequest { amount: needed_money, waker });
    }
}

} // verus!
