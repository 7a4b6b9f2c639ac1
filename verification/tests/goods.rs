use market_clearing::{get_good_name, GOODS};

#[test]
fn goods_have_their_names() {
    assert_eq!(get_good_name(0), "Grain");
    assert_eq!(get_good_name(1), "Groceries");
    assert_eq!(GOODS.len(), 2);
}
