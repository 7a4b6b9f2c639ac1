use market_clearing::{distribute, fill_all, remaining, trade_loop, OrderId, OrderInfo};

fn orders(requests: &[u64]) -> Vec<OrderInfo> {
    let mut orders = Vec::new();
    for (at, request) in requests.iter().enumerate() {
        orders.push(OrderInfo::new(OrderId { value: at as u128 }, *request, 0));
    }
    orders
}

fn filled(orders: &[OrderInfo]) -> Vec<u64> {
    orders.iter().map(|order| order.traded_quantity()).collect()
}

#[test]
fn distribute_places_the_whole_pool_when_it_is_short() {
    let mut tier = orders(&[100, 50]);
    assert_eq!(distribute(90, &mut tier), 90);
    assert_eq!(filled(&tier), vec![45, 45]);
}

#[test]
fn distribute_caps_each_order_at_its_request() {
    let mut tier = orders(&[10, 2, 5]);
    assert_eq!(distribute(13, &mut tier), 13);
    assert_eq!(filled(&tier), vec![6, 2, 5]);
}

#[test]
fn distribute_gives_the_remainder_to_the_earliest_unfilled() {
    let mut tier = orders(&[4, 0, 4, 4]);
    assert_eq!(distribute(5, &mut tier), 5);
    assert_eq!(filled(&tier), vec![2, 0, 2, 1]);
}

#[test]
fn distribute_stops_at_what_is_missing() {
    let mut tier = orders(&[3, 1]);
    assert_eq!(distribute(10, &mut tier), 4);
    assert_eq!(filled(&tier), vec![3, 1]);
}

#[test]
fn distribute_of_nothing_changes_nothing() {
    let mut tier = orders(&[3, 1]);
    assert_eq!(distribute(0, &mut tier), 0);
    assert_eq!(filled(&tier), vec![0, 0]);
}

#[test]
fn distribute_over_no_orders_places_nothing() {
    let mut tier = orders(&[]);
    assert_eq!(distribute(7, &mut tier), 0);
    assert!(tier.is_empty());
}

#[test]
fn distribute_in_two_steps_differs_from_one_step() {
    let mut stepwise = orders(&[3, 3]);
    assert_eq!(distribute(1, &mut stepwise), 1);
    assert_eq!(distribute(1, &mut stepwise), 1);
    assert_eq!(filled(&stepwise), vec![2, 0]);
    let mut at_once = orders(&[3, 3]);
    assert_eq!(distribute(2, &mut at_once), 2);
    assert_eq!(filled(&at_once), vec![1, 1]);
}

#[test]
fn distribute_handles_the_largest_quantities() {
    let mut tier = orders(&[u64::MAX, u64::MAX]);
    assert_eq!(distribute(u64::MAX, &mut tier), u64::MAX);
    assert_eq!(filled(&tier), vec![u64::MAX / 2 + 1, u64::MAX / 2]);
    assert_eq!(remaining(&tier), u64::MAX as u128);
}

#[test]
fn distribute_never_overfills_and_keeps_the_orders() {
    let mut tier = orders(&[7, 1, 0, 12, 3]);
    let placed = distribute(17, &mut tier);
    assert_eq!(placed, 17);
    assert_eq!(filled(&tier).iter().sum::<u64>(), 17);
    for (at, order) in tier.iter().enumerate() {
        assert!(order.traded_quantity() <= order.required_quantity());
        assert_eq!(order.id(), OrderId { value: at as u128 });
    }
    assert_eq!(filled(&tier), vec![7, 1, 0, 6, 3]);
}

#[test]
fn remaining_adds_up_what_is_missing() {
    let mut tier = orders(&[7, 1, 0, 12, 3]);
    assert_eq!(remaining(&tier), 23);
    distribute(4, &mut tier);
    assert_eq!(remaining(&tier), 19);
}

#[test]
fn fill_all_fills_every_order() {
    let mut tier = orders(&[7, 0, 12]);
    distribute(2, &mut tier);
    fill_all(&mut tier);
    assert_eq!(filled(&tier), vec![7, 0, 12]);
    assert_eq!(remaining(&tier), 0);
}

#[test]
fn trade_loop_books_the_same_quantity_on_both_tiers() {
    let mut sellers = orders(&[90]);
    let mut buyers = orders(&[100, 50]);
    assert_eq!(trade_loop(&mut sellers, &mut buyers, 90), 90);
    assert_eq!(filled(&sellers), vec![90]);
    assert_eq!(filled(&buyers), vec![45, 45]);
}

#[test]
fn trade_loop_places_no_more_than_the_receivers_take() {
    let mut givers = orders(&[10, 10]);
    let mut takers = orders(&[2, 3]);
    assert_eq!(trade_loop(&mut givers, &mut takers, 9), 5);
    assert_eq!(filled(&takers), vec![2, 3]);
    assert_eq!(filled(&givers), vec![3, 2]);
}

#[test]
fn missing_quantity_is_request_less_fill() {
    let mut tier = orders(&[9]);
    assert_eq!(tier[0].missing_quantity(), 9);
    distribute(4, &mut tier);
    assert_eq!(tier[0].missing_quantity(), 5);
    assert_eq!(tier[0].required_quantity(), 9);
    assert_eq!(tier[0].traded_quantity(), 4);
    assert_eq!(tier[0].tier(), 0);
}
