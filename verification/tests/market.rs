use market_clearing::ident::{UUID_KIND_MASK, UUID_KIND_RANDOM};
use market_clearing::{OrderId, OrderType, TestMarket};

fn id(value: u128) -> OrderId {
    OrderId { value }
}

#[test]
fn one_tier_rations_the_short_supply() {
    let mut market = TestMarket::new(0, 2);
    let b1 = market.register_order(OrderType::Buy, 100, 5);
    let b2 = market.register_order(OrderType::Buy, 50, 5);
    let s1 = market.register_order(OrderType::Sell, 90, 5);
    assert_eq!(market.run_trade(), Ok(90));
    let sold = market.retrieve_order_result(&s1).unwrap();
    assert_eq!(sold.ordertype, OrderType::Sell);
    assert_eq!(sold.traded_quantity, 90);
    assert_eq!(sold.total_cost, 180);
    let first = market.retrieve_order_result(&b1).unwrap();
    let second = market.retrieve_order_result(&b2).unwrap();
    assert_eq!(first.ordertype, OrderType::Buy);
    assert_eq!(first.traded_quantity + second.traded_quantity, 90);
    assert!(first.traded_quantity <= 100);
    assert!(second.traded_quantity <= 50);
    assert_eq!(first.traded_quantity, 45);
    assert_eq!(second.traded_quantity, 45);
    assert_eq!(first.total_cost + second.total_cost, 180);
}

#[test]
fn buy_only_book_trades_nothing() {
    let mut market = TestMarket::new(1, 10);
    let b1 = market.register_order(OrderType::Buy, 30, 0);
    let b2 = market.register_order(OrderType::Buy, 7, -1);
    assert_eq!(market.run_trade(), Ok(0));
    for order in [b1, b2] {
        let result = market.retrieve_order_result(&order).unwrap();
        assert_eq!(result.ordertype, OrderType::Buy);
        assert_eq!(result.traded_quantity, 0);
        assert_eq!(result.total_cost, 0);
    }
}

#[test]
fn sell_only_book_trades_nothing() {
    let mut market = TestMarket::new(1, 10);
    let s1 = market.register_order(OrderType::Sell, 30, 0);
    assert_eq!(market.run_trade(), Ok(0));
    let result = market.retrieve_order_result(&s1).unwrap();
    assert_eq!(result.ordertype, OrderType::Sell);
    assert_eq!(result.traded_quantity, 0);
    assert_eq!(result.total_cost, 0);
}

#[test]
fn empty_book_trades_nothing() {
    let mut market = TestMarket::new(1, 10);
    assert_eq!(market.run_trade(), Ok(0));
}

#[test]
fn equal_demand_and_supply_fill_every_order() {
    let mut market = TestMarket::new(0, 3);
    let buys = [
        market.register_order_with(OrderType::Buy, 10, 4, id(1)),
        market.register_order_with(OrderType::Buy, 25, 1, id(2)),
        market.register_order_with(OrderType::Buy, 5, 4, id(3)),
    ];
    let sells = [
        market.register_order_with(OrderType::Sell, 30, 2, id(4)),
        market.register_order_with(OrderType::Sell, 10, 7, id(5)),
    ];
    assert_eq!(market.run_trade(), Ok(40));
    let wanted = [10, 25, 5, 30, 10];
    for (order, quantity) in buys.iter().chain(sells.iter()).zip(wanted) {
        let result = market.retrieve_order_result(order).unwrap();
        assert_eq!(result.traded_quantity, quantity);
        assert_eq!(result.total_cost, 3 * quantity as u128);
    }
}

#[test]
fn higher_tiers_are_served_first() {
    let mut market = TestMarket::new(0, 1);
    let low = market.register_order_with(OrderType::Buy, 10, 1, id(10));
    let high = market.register_order_with(OrderType::Buy, 10, 5, id(11));
    let seller = market.register_order_with(OrderType::Sell, 15, 3, id(12));
    assert_eq!(market.run_trade(), Ok(15));
    assert_eq!(market.retrieve_order_result(&high).unwrap().traded_quantity, 10);
    assert_eq!(market.retrieve_order_result(&low).unwrap().traded_quantity, 5);
    assert_eq!(market.retrieve_order_result(&seller).unwrap().traded_quantity, 15);
}

#[test]
fn a_tier_is_rationed_once_for_each_tier_it_meets() {
    let mut market = TestMarket::new(0, 1);
    let s1 = market.register_order_with(OrderType::Sell, 3, 0, id(1));
    let s2 = market.register_order_with(OrderType::Sell, 3, 0, id(2));
    let b1 = market.register_order_with(OrderType::Buy, 1, 9, id(3));
    let b2 = market.register_order_with(OrderType::Buy, 1, 8, id(4));
    assert_eq!(market.run_trade(), Ok(2));
    assert_eq!(market.retrieve_order_result(&s1).unwrap().traded_quantity, 2);
    assert_eq!(market.retrieve_order_result(&s2).unwrap().traded_quantity, 0);
    assert_eq!(market.retrieve_order_result(&b1).unwrap().traded_quantity, 1);
    assert_eq!(market.retrieve_order_result(&b2).unwrap().traded_quantity, 1);
}

#[test]
fn tiers_that_are_never_reached_stay_in_the_book() {
    let mut market = TestMarket::new(0, 1);
    let buyer = market.register_order_with(OrderType::Buy, 5, 1, id(1));
    let first = market.register_order_with(OrderType::Sell, 5, 9, id(2));
    let second = market.register_order_with(OrderType::Sell, 7, 2, id(3));
    let third = market.register_order_with(OrderType::Sell, 1, -4, id(4));
    assert_eq!(market.run_trade(), Ok(5));
    assert_eq!(market.retrieve_order_result(&buyer).unwrap().traded_quantity, 5);
    assert_eq!(market.retrieve_order_result(&first).unwrap().traded_quantity, 5);
    let untouched = market.retrieve_order_result(&second).unwrap();
    assert_eq!(untouched.ordertype, OrderType::Sell);
    assert_eq!(untouched.traded_quantity, 0);
    assert_eq!(market.retrieve_order_result(&third).unwrap().traded_quantity, 0);
}

#[test]
fn traded_quantity_is_the_same_on_both_sides() {
    let mut market = TestMarket::new(0, 1);
    let mut buys = Vec::new();
    let mut sells = Vec::new();
    let requests = [(13u64, 2i64), (0, 2), (40, -1), (7, 5), (21, 2), (9, 0)];
    for (at, (quantity, tier)) in requests.iter().enumerate() {
        buys.push(market.register_order_with(OrderType::Buy, *quantity, *tier, id(at as u128)));
        sells.push(market.register_order_with(
            OrderType::Sell,
            quantity / 2 + 3,
            -tier,
            id(100 + at as u128),
        ));
    }
    let traded = market.run_trade().unwrap();
    let mut bought: u64 = 0;
    for order in buys.iter() {
        bought += market.retrieve_order_result(order).unwrap().traded_quantity;
    }
    let mut sold: u64 = 0;
    for order in sells.iter() {
        sold += market.retrieve_order_result(order).unwrap().traded_quantity;
    }
    assert_eq!(traded, 61);
    assert_eq!(bought, traded);
    assert_eq!(sold, traded);
}

#[test]
fn equal_books_clear_alike() {
    let mut results = Vec::new();
    for _ in 0..2 {
        let mut market = TestMarket::new(0, 1);
        let orders = [
            market.register_order_with(OrderType::Buy, 11, 3, id(1)),
            market.register_order_with(OrderType::Buy, 4, 3, id(2)),
            market.register_order_with(OrderType::Buy, 9, 0, id(3)),
            market.register_order_with(OrderType::Sell, 6, 1, id(4)),
            market.register_order_with(OrderType::Sell, 8, 1, id(5)),
        ];
        let traded = market.run_trade().unwrap();
        let fills: Vec<u64> = orders
            .iter()
            .map(|order| market.retrieve_order_result(order).unwrap().traded_quantity)
            .collect();
        results.push((traded, fills));
    }
    assert_eq!(results[0], results[1]);
    assert_eq!(results[0], (14, vec![10, 4, 0, 6, 8]));
}

#[test]
fn a_second_clearing_trades_what_is_left() {
    let mut market = TestMarket::new(0, 1);
    let buyer = market.register_order_with(OrderType::Buy, 10, 0, id(1));
    let seller = market.register_order_with(OrderType::Sell, 4, 0, id(2));
    assert_eq!(market.run_trade(), Ok(4));
    assert_eq!(market.run_trade(), Ok(0));
    let late = market.register_order_with(OrderType::Sell, 20, 0, id(3));
    assert_eq!(market.run_trade(), Ok(6));
    assert_eq!(market.retrieve_order_result(&buyer).unwrap().traded_quantity, 10);
    assert_eq!(market.retrieve_order_result(&seller).unwrap().traded_quantity, 4);
    assert_eq!(market.retrieve_order_result(&late).unwrap().traded_quantity, 6);
}

#[test]
fn orders_for_nothing_are_filled_with_nothing() {
    let mut market = TestMarket::new(0, 5);
    let nothing = market.register_order(OrderType::Buy, 0, 0);
    let seller = market.register_order(OrderType::Sell, 8, 0);
    assert_eq!(market.run_trade(), Ok(0));
    assert_eq!(market.retrieve_order_result(&nothing).unwrap().traded_quantity, 0);
    assert_eq!(market.retrieve_order_result(&seller).unwrap().traded_quantity, 0);
}

#[test]
fn results_before_clearing_are_empty() {
    let mut market = TestMarket::new(3, 5);
    let buyer = market.register_order(OrderType::Buy, 8, 0);
    let result = market.retrieve_order_result(&buyer).unwrap();
    assert_eq!(result.ordertype, OrderType::Buy);
    assert_eq!(result.traded_quantity, 0);
    assert_eq!(result.total_cost, 0);
}

#[test]
fn unknown_identifiers_have_no_result() {
    let mut market = TestMarket::new(3, 5);
    assert!(market.retrieve_order_result(&id(1)).is_none());
    market.register_order_with(OrderType::Buy, 8, 0, id(2));
    assert!(market.retrieve_order_result(&id(1)).is_none());
    assert!(!market.holds(&id(1)));
    assert!(market.holds(&id(2)));
}

#[test]
fn results_are_told_once() {
    let mut market = TestMarket::new(3, 5);
    let buyer = market.register_order(OrderType::Buy, 8, 0);
    let seller = market.register_order(OrderType::Sell, 3, 0);
    market.run_trade().unwrap();
    assert_eq!(market.retrieve_order_result(&buyer).unwrap().traded_quantity, 3);
    assert!(market.retrieve_order_result(&buyer).is_none());
    assert!(market.holds(&buyer));
    assert_eq!(market.retrieve_order_result(&seller).unwrap().traded_quantity, 3);
    assert!(market.retrieve_order_result(&seller).is_none());
}

#[test]
fn a_result_read_before_clearing_is_not_told_again() {
    let mut market = TestMarket::new(3, 5);
    let buyer = market.register_order(OrderType::Buy, 8, 0);
    let seller = market.register_order(OrderType::Sell, 3, 0);
    assert_eq!(market.retrieve_order_result(&buyer).unwrap().traded_quantity, 0);
    assert_eq!(market.run_trade(), Ok(3));
    assert!(market.retrieve_order_result(&buyer).is_none());
    assert_eq!(market.retrieve_order_result(&seller).unwrap().traded_quantity, 3);
}

#[test]
fn a_new_tick_tells_results_anew() {
    let mut market = TestMarket::new(3, 5);
    let first = market.register_order_with(OrderType::Buy, 8, 0, id(1));
    assert!(market.retrieve_order_result(&first).is_some());
    market.clear_state();
    let second = market.register_order_with(OrderType::Sell, 2, 0, id(1));
    assert_eq!(first, second);
    let result = market.retrieve_order_result(&second).unwrap();
    assert_eq!(result.ordertype, OrderType::Sell);
    assert_eq!(result.traded_quantity, 0);
}

#[test]
fn clearing_the_state_forgets_every_order() {
    let mut market = TestMarket::new(3, 5);
    let buyer = market.register_order(OrderType::Buy, 8, 0);
    let seller = market.register_order(OrderType::Sell, 3, 0);
    market.run_trade().unwrap();
    market.clear_state();
    assert!(market.retrieve_order_result(&buyer).is_none());
    assert!(market.retrieve_order_result(&seller).is_none());
    assert_eq!(market.run_trade(), Ok(0));
    assert_eq!(market.good_uid(), 3);
    assert_eq!(market.price_per_unit(), 5);
}

#[test]
fn cost_is_quantity_times_price() {
    let mut market = TestMarket::new(0, u64::MAX);
    let buyer = market.register_order(OrderType::Buy, u64::MAX, 0);
    let seller = market.register_order(OrderType::Sell, u64::MAX, 0);
    assert_eq!(market.run_trade(), Ok(u64::MAX));
    let cost = u64::MAX as u128 * u64::MAX as u128;
    assert_eq!(market.retrieve_order_result(&buyer).unwrap().total_cost, cost);
    assert_eq!(market.retrieve_order_result(&seller).unwrap().total_cost, cost);
}

#[test]
fn a_taken_identifier_is_replaced_by_the_least_free_one() {
    let mut market = TestMarket::new(0, 1);
    assert_eq!(market.register_order_with(OrderType::Buy, 1, 0, id(7)), id(7));
    assert_eq!(market.register_order_with(OrderType::Sell, 1, 0, id(7)), id(0));
    assert_eq!(market.register_order_with(OrderType::Buy, 1, 0, id(0)), id(1));
    assert_eq!(market.register_order_with(OrderType::Buy, 1, 0, id(1)), id(2));
    assert_eq!(market.register_order_with(OrderType::Sell, 1, 0, id(3)), id(3));
    assert_eq!(market.register_order_with(OrderType::Sell, 1, 0, id(3)), id(4));
    assert_eq!(market.retrieve_order_result(&id(0)).unwrap().ordertype, OrderType::Sell);
    assert_eq!(market.retrieve_order_result(&id(1)).unwrap().ordertype, OrderType::Buy);
}

#[test]
fn drawn_identifiers_are_random_uuids_and_differ() {
    let mut market = TestMarket::new(0, 1);
    let mut seen = Vec::new();
    for round in 0..50 {
        let side = if round % 2 == 0 { OrderType::Buy } else { OrderType::Sell };
        let order = market.register_order(side, round, 0);
        assert_eq!(order.value & UUID_KIND_MASK, UUID_KIND_RANDOM);
        assert!(!seen.contains(&order));
        seen.push(order);
    }
    for order in seen.iter() {
        assert!(market.holds(order));
    }
}

#[test]
fn volume_that_cannot_be_counted_is_reported() {
    let mut market = TestMarket::new(0, 1);
    market.register_order(OrderType::Buy, u64::MAX, 0);
    market.register_order(OrderType::Sell, u64::MAX, 0);
    assert!(market.volume_fits());
    market.register_order(OrderType::Buy, 1, 0);
    assert!(market.volume_fits());
    market.register_order(OrderType::Sell, 1, 0);
    assert!(!market.volume_fits());
}

#[test]
fn volume_that_cannot_be_counted_is_not_traded() {
    let mut market = TestMarket::new(0, 1);
    let orders = [
        market.register_order(OrderType::Buy, u64::MAX, 0),
        market.register_order(OrderType::Buy, 1, 3),
        market.register_order(OrderType::Sell, u64::MAX, 0),
        market.register_order(OrderType::Sell, 1, 0),
    ];
    assert_eq!(market.run_trade(), Err(()));
    for order in orders.iter() {
        assert_eq!(market.retrieve_order_result(order).unwrap().traded_quantity, 0);
    }
}

#[test]
fn the_largest_volume_is_traded() {
    let mut market = TestMarket::new(0, 1);
    let first = market.register_order(OrderType::Buy, u64::MAX, 0);
    let second = market.register_order(OrderType::Buy, u64::MAX, 3);
    let seller = market.register_order(OrderType::Sell, u64::MAX, 0);
    assert_eq!(market.run_trade(), Ok(u64::MAX));
    assert_eq!(market.retrieve_order_result(&first).unwrap().traded_quantity, 0);
    assert_eq!(market.retrieve_order_result(&second).unwrap().traded_quantity, u64::MAX);
    assert_eq!(market.retrieve_order_result(&seller).unwrap().traded_quantity, u64::MAX);
}
