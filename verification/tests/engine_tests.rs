use market_sim::engine::match_asset;
use market_sim::types::{AssetMarket, CompanyType, MatchError, Order, OrderBook, Trader};

fn trader(cash: i64, shares: Vec<u32>) -> Trader {
    Trader { cash, portfolio: shares }
}

fn market(last_price: i64) -> AssetMarket {
    AssetMarket {
        symbol: String::new(),
        last_price,
        history: vec![last_price],
        buy_orders_last_day: Vec::new(),
        sell_orders_last_day: Vec::new(),
        trades_last_day: 0,
        company_type: CompanyType::Tech,
        color: 0,
    }
}

fn order(trader: usize, price: i64) -> Order {
    Order { trader, price, qty: 1 }
}

#[test]
fn simple_cross_trades_at_midpoint() {
    // One asset; a buy at 10 crosses a sell at 8 and trades at 9.
    let mut traders = vec![trader(100, vec![0]), trader(100, vec![1])];
    let mut m = market(5);
    let mut book = OrderBook { buy_orders: vec![order(0, 10)], sell_orders: vec![order(1, 8)] };
    let r = match_asset(&mut traders, &mut m, &mut book, 0);
    assert!(r.is_ok());
    assert_eq!(traders[0].cash, 91);
    assert_eq!(traders[0].portfolio[0], 1);
    assert_eq!(traders[1].cash, 109);
    assert_eq!(traders[1].portfolio[0], 0);
    assert_eq!(m.trades_last_day, 1);
    assert_eq!(m.last_price, 9);
    assert_eq!(m.history, vec![5]);
}

#[test]
fn no_cross_leaves_price_unchanged() {
    // Buy at 5 under sell at 10: zero trades, price persists.
    let mut traders = vec![trader(100, vec![0]), trader(100, vec![1])];
    let mut m = market(7);
    let mut book = OrderBook { buy_orders: vec![order(0, 5)], sell_orders: vec![order(1, 10)] };
    let r = match_asset(&mut traders, &mut m, &mut book, 0);
    assert!(r.is_ok());
    assert_eq!(m.trades_last_day, 0);
    assert_eq!(m.last_price, 7);
    assert_eq!(traders[0].cash, 100);
    assert_eq!(traders[1].cash, 100);
    assert_eq!(traders[0].portfolio[0], 0);
    assert_eq!(traders[1].portfolio[0], 1);
}

#[test]
fn empty_books_trade_nothing() {
    let mut traders = vec![trader(50, vec![3])];
    let mut m = market(42);
    let mut book = OrderBook { buy_orders: Vec::new(), sell_orders: Vec::new() };
    let r = match_asset(&mut traders, &mut m, &mut book, 0);
    assert!(r.is_ok());
    assert_eq!(m.trades_last_day, 0);
    assert_eq!(m.last_price, 42);
}

#[test]
fn tie_break_prefers_first_arrival() {
    // Two buys at 10 (trader 0 first, trader 1 second), one sell at 10:
    // the stable sort keeps arrival order, so trader 0 is matched.
    let mut traders = vec![trader(100, vec![0]), trader(100, vec![0]), trader(100, vec![1])];
    let mut m = market(10);
    let mut book = OrderBook {
        buy_orders: vec![order(0, 10), order(1, 10)],
        sell_orders: vec![order(2, 10)],
    };
    let r = match_asset(&mut traders, &mut m, &mut book, 0);
    assert!(r.is_ok());
    assert_eq!(m.trades_last_day, 1);
    assert_eq!(m.last_price, 10);
    assert_eq!(traders[0].portfolio[0], 1);
    assert_eq!(traders[0].cash, 90);
    assert_eq!(traders[1].portfolio[0], 0);
    assert_eq!(traders[1].cash, 100);
    assert_eq!(traders[2].portfolio[0], 0);
    assert_eq!(traders[2].cash, 110);
    assert_eq!(m.buy_orders_last_day[0].trader, 0);
    assert_eq!(m.buy_orders_last_day[1].trader, 1);
}

#[test]
fn trade_count_is_bounded_by_smaller_side() {
    // Three crossing buys against two sells: exactly two trades.
    let mut traders = vec![
        trader(100, vec![0]),
        trader(100, vec![0]),
        trader(100, vec![0]),
        trader(100, vec![1]),
        trader(100, vec![1]),
    ];
    let mut m = market(10);
    let mut book = OrderBook {
        buy_orders: vec![order(0, 12), order(1, 11), order(2, 10)],
        sell_orders: vec![order(3, 8), order(4, 9)],
    };
    let r = match_asset(&mut traders, &mut m, &mut book, 0);
    assert!(r.is_ok());
    assert_eq!(m.trades_last_day, 2);
}

#[test]
fn average_price_rounds_down() {
    // Pairs (11, 8) and (9, 8) trade at 9 and 8; the day's price is
    // (9 + 8) / 2 rounded down to 8.
    let mut traders = vec![
        trader(100, vec![0]),
        trader(100, vec![0]),
        trader(100, vec![1]),
        trader(100, vec![1]),
    ];
    let mut m = market(10);
    let mut book = OrderBook {
        buy_orders: vec![order(0, 11), order(1, 9)],
        sell_orders: vec![order(2, 8), order(3, 8)],
    };
    let r = match_asset(&mut traders, &mut m, &mut book, 0);
    assert!(r.is_ok());
    assert_eq!(m.trades_last_day, 2);
    assert_eq!(m.last_price, 8);
    // Cash moved at each pair's own midpoint: 9 and 8.
    assert_eq!(traders[0].cash, 91);
    assert_eq!(traders[1].cash, 92);
    assert_eq!(traders[2].cash, 109);
    assert_eq!(traders[3].cash, 108);
}

#[test]
fn multi_unit_order_is_fatal() {
    let mut traders = vec![trader(100, vec![0]), trader(100, vec![1])];
    let mut m = market(10);
    let mut book = OrderBook {
        buy_orders: vec![Order { trader: 0, price: 10, qty: 2 }],
        sell_orders: vec![order(1, 8)],
    };
    let r = match_asset(&mut traders, &mut m, &mut book, 0);
    assert_eq!(r, Err(MatchError::UnsupportedQuantity));
    // Nothing settled, market untouched.
    assert_eq!(traders[0].cash, 100);
    assert_eq!(m.trades_last_day, 0);
}

#[test]
fn self_trade_is_fatal() {
    let mut traders = vec![trader(100, vec![1])];
    let mut m = market(10);
    let mut book = OrderBook { buy_orders: vec![order(0, 10)], sell_orders: vec![order(0, 8)] };
    let r = match_asset(&mut traders, &mut m, &mut book, 0);
    assert_eq!(r, Err(MatchError::SelfTrade));
}

#[test]
fn unknown_trader_is_fatal() {
    let mut traders = vec![trader(100, vec![1]), trader(100, vec![1])];
    let mut m = market(10);
    let mut book = OrderBook { buy_orders: vec![order(7, 10)], sell_orders: vec![order(1, 8)] };
    let r = match_asset(&mut traders, &mut m, &mut book, 0);
    assert_eq!(r, Err(MatchError::UnknownTrader));
}

#[test]
fn seller_without_shares_is_fatal() {
    let mut traders = vec![trader(100, vec![0]), trader(100, vec![0])];
    let mut m = market(10);
    let mut book = OrderBook { buy_orders: vec![order(0, 10)], sell_orders: vec![order(1, 8)] };
    let r = match_asset(&mut traders, &mut m, &mut book, 0);
    assert_eq!(r, Err(MatchError::NoShares));
}

#[test]
fn cash_overflow_is_fatal() {
    // The seller's cash cannot absorb the trade price.
    let mut traders = vec![trader(i64::MAX, vec![0]), trader(i64::MAX - 1, vec![1])];
    let mut m = market(10);
    let mut book = OrderBook { buy_orders: vec![order(0, 10)], sell_orders: vec![order(1, 8)] };
    let r = match_asset(&mut traders, &mut m, &mut book, 0);
    assert_eq!(r, Err(MatchError::Overflow));
}

#[test]
fn partial_settlement_stops_at_error() {
    // The first pair settles; the second pair's quantity is fatal, and the
    // first trade's effect stays in the ledger.
    let mut traders = vec![
        trader(100, vec![0]),
        trader(100, vec![0]),
        trader(100, vec![1]),
        trader(100, vec![1]),
    ];
    let mut m = market(10);
    let mut book = OrderBook {
        buy_orders: vec![order(0, 12), Order { trader: 1, price: 11, qty: 3 }],
        sell_orders: vec![order(2, 8), order(3, 8)],
    };
    let r = match_asset(&mut traders, &mut m, &mut book, 0);
    assert_eq!(r, Err(MatchError::UnsupportedQuantity));
    assert_eq!(traders[0].cash, 90);
    assert_eq!(traders[2].cash, 110);
    assert_eq!(traders[0].portfolio[0], 1);
    assert_eq!(traders[2].portfolio[0], 0);
    // Cash and shares conserved even on the error path.
    let total: i64 = traders.iter().map(|t| t.cash).sum();
    assert_eq!(total, 400);
    let shares: u32 = traders.iter().map(|t| t.portfolio[0]).sum();
    assert_eq!(shares, 2);
}
