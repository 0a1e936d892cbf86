use market_sim::sorting::{sort_buy_orders, sort_sell_orders};
use market_sim::types::Order;

fn order(trader: usize, price: i64) -> Order {
    Order { trader, price, qty: 1 }
}

#[test]
fn buys_sort_descending() {
    let mut v = vec![order(0, 3), order(1, 9), order(2, 5)];
    sort_buy_orders(&mut v);
    let prices: Vec<i64> = v.iter().map(|o| o.price).collect();
    assert_eq!(prices, vec![9, 5, 3]);
}

#[test]
fn sells_sort_ascending() {
    let mut v = vec![order(0, 3), order(1, 9), order(2, 5)];
    sort_sell_orders(&mut v);
    let prices: Vec<i64> = v.iter().map(|o| o.price).collect();
    assert_eq!(prices, vec![3, 5, 9]);
}

#[test]
fn buy_sort_is_stable_on_equal_prices() {
    let mut v = vec![order(0, 10), order(1, 12), order(2, 10), order(3, 12), order(4, 10)];
    sort_buy_orders(&mut v);
    let ids: Vec<usize> = v.iter().map(|o| o.trader).collect();
    assert_eq!(ids, vec![1, 3, 0, 2, 4]);
}

#[test]
fn sell_sort_is_stable_on_equal_prices() {
    let mut v = vec![order(0, 10), order(1, 7), order(2, 10), order(3, 7), order(4, 10)];
    sort_sell_orders(&mut v);
    let ids: Vec<usize> = v.iter().map(|o| o.trader).collect();
    assert_eq!(ids, vec![1, 3, 0, 2, 4]);
}

#[test]
fn sorting_an_empty_list_is_a_no_op() {
    let mut v: Vec<Order> = Vec::new();
    sort_buy_orders(&mut v);
    assert!(v.is_empty());
    sort_sell_orders(&mut v);
    assert!(v.is_empty());
}
