use sasinc::money_pool::MoneyPool;
use sasinc::task::Handle;

#[test]
fn fresh_pool_is_empty() {
    let pool = MoneyPool::new();
    assert_eq!(pool.money, 0);
    assert_eq!(pool.take_requests.len(), 0);
}

#[test]
fn take_money_queues_in_order() {
    let mut pool = MoneyPool::new();
    pool.take_money(100, None);
    pool.take_money(10, None);
    assert_eq!(pool.money, 0);
    assert_eq!(pool.take_requests.len(), 2);
    assert_eq!(pool.take_requests[0].amount, 100);
    assert_eq!(pool.take_requests[1].amount, 10);
}

#[test]
fn head_of_line_blocks_smaller_later_request() {
    let mut pool = MoneyPool::new();
    pool.take_money(100, None);
    pool.take_money(10, None);

    // deposit 10: the front request needs 100, so nothing is served even
    // though the later request would fit
    let wakes = pool.add_money(10);
    assert_eq!(wakes.len(), 0);
    assert_eq!(pool.money, 10);
    assert_eq!(pool.take_requests.len(), 2);
    assert_eq!(pool.take_requests[0].amount, 100);

    // deposit 90: balance reaches 100, the front request is served and the
    // balance drops to 0; the 10-request stays pending
    let wakes = pool.add_money(90);
    assert_eq!(wakes.len(), 0);
    assert_eq!(pool.money, 0);
    assert_eq!(pool.take_requests.len(), 1);
    assert_eq!(pool.take_requests[0].amount, 10);
}

#[test]
fn deposits_accumulate_until_front_fits() {
    let mut pool = MoneyPool::new();
    pool.take_money(100, None);
    let wakes = pool.add_money(40);
    assert_eq!(wakes.len(), 0);
    assert_eq!(pool.money, 40);
    let wakes = pool.add_money(60);
    assert_eq!(wakes.len(), 0);
    assert_eq!(pool.money, 0);
    assert_eq!(pool.take_requests.len(), 0);
}

#[test]
fn fulfillment_returns_registered_handles_in_order() {
    let mut pool = MoneyPool::new();
    pool.take_money(4, Some(Handle { task: 3 }));
    pool.take_money(3, None);
    pool.take_money(5, Some(Handle { task: 7 }));

    let wakes = pool.add_money(10);
    // 4 and 3 are served (balance 10 -> 6 -> 3); 5 exceeds the remaining 3
    assert_eq!(wakes.len(), 1);
    assert_eq!(wakes[0].task, 3);
    assert_eq!(pool.money, 3);
    assert_eq!(pool.take_requests.len(), 1);
    assert_eq!(pool.take_requests[0].amount, 5);

    let wakes = pool.add_money(2);
    assert_eq!(wakes.len(), 1);
    assert_eq!(wakes[0].task, 7);
    assert_eq!(pool.money, 0);
    assert_eq!(pool.take_requests.len(), 0);
}

#[test]
fn deposit_with_empty_queue_only_raises_balance() {
    let mut pool = MoneyPool::new();
    let wakes = pool.add_money(25);
    assert_eq!(wakes.len(), 0);
    assert_eq!(pool.money, 25);
    assert_eq!(pool.take_requests.len(), 0);
}

#[test]
fn one_deposit_serves_several_requests_in_order() {
    let mut pool = MoneyPool::new();
    pool.take_money(30, Some(Handle { task: 0 }));
    pool.take_money(30, Some(Handle { task: 1 }));
    pool.take_money(30, Some(Handle { task: 2 }));
    let wakes = pool.add_money(100);
    assert_eq!(wakes.len(), 3);
    assert_eq!(wakes[0].task, 0);
    assert_eq!(wakes[1].task, 1);
    assert_eq!(wakes[2].task, 2);
    assert_eq!(pool.money, 10);
    assert_eq!(pool.take_requests.len(), 0);
}
