use market_clearing::{join_tiers, split_tiers, OrderId, OrderInfo};

fn orders(tiers: &[i64]) -> Vec<OrderInfo> {
    let mut orders = Vec::new();
    for (at, tier) in tiers.iter().enumerate() {
        orders.push(OrderInfo::new(OrderId { value: at as u128 }, 10 + at as u64, *tier));
    }
    orders
}

fn ids(orders: &[OrderInfo]) -> Vec<u128> {
    orders.iter().map(|order| order.id().value).collect()
}

#[test]
fn tiers_come_from_the_highest_down() {
    let split = split_tiers(&orders(&[1, 5, -3, 5, 1, 1, i64::MAX, i64::MIN]));
    let keys: Vec<i64> = split.iter().map(|tier| tier[0].tier()).collect();
    assert_eq!(keys, vec![i64::MAX, 5, 1, -3, i64::MIN]);
    let members: Vec<Vec<u128>> = split.iter().map(|tier| ids(tier)).collect();
    assert_eq!(members, vec![vec![6], vec![1, 3], vec![0, 4, 5], vec![2], vec![7]]);
}

#[test]
fn no_orders_make_no_tiers() {
    assert!(split_tiers(&orders(&[])).is_empty());
    assert!(join_tiers(&Vec::new()).is_empty());
}

#[test]
fn joining_the_tiers_keeps_every_order() {
    let all = orders(&[2, 2, 9, 0, 9, 2]);
    let joined = join_tiers(&split_tiers(&all));
    assert_eq!(ids(&joined), vec![2, 4, 0, 1, 5, 3]);
    for order in joined.iter() {
        let posted = &all[order.id().value as usize];
        assert_eq!(order.required_quantity(), posted.required_quantity());
        assert_eq!(order.traded_quantity(), 0);
        assert_eq!(order.tier(), posted.tier());
    }
}
