use market_sim::sim::Sim;
use market_sim::types::CompanyType;

fn symbols(n: usize) -> Vec<String> {
    let mut v = Vec::new();
    for i in 0..n {
        v.push(format!("COMP{}", i));
    }
    v
}

/// Choice layout: index = asset * n_traders + trader; 0 hold, 1 sell, 2 buy.
fn layout(n_assets: usize, n_traders: usize, picks: &[(usize, usize, u32, i64)]) -> (Vec<u32>, Vec<i64>) {
    let mut choices = vec![0u32; n_assets * n_traders];
    let mut noise = vec![0i64; n_assets * n_traders];
    for &(asset, trader, choice, nz) in picks {
        choices[asset * n_traders + trader] = choice;
        noise[asset * n_traders + trader] = nz;
    }
    (choices, noise)
}

#[test]
fn new_sim_starts_at_day_zero() {
    let sym = symbols(5);
    let sim = Sim::new(3, 1, 1000, 7, 100, &sym, 1);
    assert_eq!(sim.day.0, 0);
    assert_eq!(sim.traders.len(), 3);
    assert_eq!(sim.markets.assets.len(), 5);
    assert_eq!(sim.order_books.books.len(), 5);
    for t in &sim.traders {
        assert_eq!(t.cash, 1000);
        assert_eq!(t.portfolio, vec![7, 7, 7, 7, 7]);
    }
    for (a, m) in sim.markets.assets.iter().enumerate() {
        assert_eq!(m.symbol, format!("COMP{}", a));
        assert_eq!(m.last_price, 100);
        assert_eq!(m.history, vec![100]);
        assert_eq!(m.trades_last_day, 0);
    }
    assert_eq!(sim.markets.assets[0].company_type, CompanyType::Tech);
    assert_eq!(sim.markets.assets[1].company_type, CompanyType::Retail);
    assert_eq!(sim.markets.assets[2].company_type, CompanyType::Finance);
    assert_eq!(sim.markets.assets[3].company_type, CompanyType::Mining);
    assert_eq!(sim.markets.assets[4].company_type, CompanyType::Industrial);
}

#[test]
fn sectors_group_consecutive_assets() {
    let sym = symbols(10);
    let sim = Sim::new(1, 2, 100, 1, 10, &sym, 1);
    assert_eq!(sim.markets.assets.len(), 10);
    assert_eq!(sim.markets.assets[0].company_type, CompanyType::Tech);
    assert_eq!(sim.markets.assets[1].company_type, CompanyType::Tech);
    assert_eq!(sim.markets.assets[2].company_type, CompanyType::Retail);
    assert_eq!(sim.markets.assets[9].company_type, CompanyType::Industrial);
}

#[test]
fn day_cross_settles_and_records_history() {
    // Trader 0 buys asset 0 at 10, trader 1 sells at 8: one trade at 9.
    let sym = symbols(5);
    let mut sim = Sim::new(2, 1, 100, 1, 0, &sym, 1);
    let (choices, noise) = layout(5, 2, &[(0, 0, 2, 10), (0, 1, 1, 8)]);
    let s = sim.advance_day_with(&choices, &noise).unwrap();
    assert_eq!(sim.day.0, 1);
    assert_eq!(sim.traders[0].cash, 91);
    assert_eq!(sim.traders[0].portfolio[0], 2);
    assert_eq!(sim.traders[1].cash, 109);
    assert_eq!(sim.traders[1].portfolio[0], 0);
    let m = &sim.markets.assets[0];
    assert_eq!(m.trades_last_day, 1);
    assert_eq!(m.last_price, 9);
    assert_eq!(m.history, vec![0, 9]);
    assert_eq!(m.buy_orders_last_day.len(), 1);
    assert_eq!(m.sell_orders_last_day.len(), 1);
    assert_eq!(s.day, 1);
    assert_eq!(s.assets.len(), 5);
    assert_eq!(s.assets[0].trades, 1);
    assert_eq!(s.assets[0].last_price, 9);
    assert_eq!(s.assets[0].buy_count, 1);
    assert_eq!(s.assets[0].sell_count, 1);
    // Books are cleared for the next day.
    for b in &sim.order_books.books {
        assert!(b.buy_orders.is_empty());
        assert!(b.sell_orders.is_empty());
    }
    // The untouched assets persist their price flat into the history.
    assert_eq!(sim.markets.assets[1].history, vec![0, 0]);
    assert_eq!(s.assets[1].trades, 0);
}

#[test]
fn day_without_cross_keeps_price_and_appends_it() {
    // Buy at 5 under sell at 10: zero trades, the prior price repeats.
    let sym = symbols(5);
    let mut sim = Sim::new(2, 1, 100, 1, 100, &sym, 1);
    let (choices, noise) = layout(5, 2, &[(0, 0, 2, -95), (0, 1, 1, -90)]);
    let s = sim.advance_day_with(&choices, &noise).unwrap();
    let m = &sim.markets.assets[0];
    assert_eq!(m.trades_last_day, 0);
    assert_eq!(m.last_price, 100);
    assert_eq!(m.history, vec![100, 100]);
    assert_eq!(s.assets[0].buy_count, 1);
    assert_eq!(s.assets[0].sell_count, 1);
    assert_eq!(sim.traders[0].cash, 100);
    assert_eq!(sim.traders[1].cash, 100);
}

#[test]
fn negative_priced_buy_never_enters_the_book() {
    let sym = symbols(5);
    let mut sim = Sim::new(1, 1, 100, 1, 100, &sym, 1);
    // Noise pushes every sampled price below zero.
    let choices = vec![2u32; 5];
    let noise = vec![-200i64; 5];
    sim.create_orders(&choices, &noise);
    for b in &sim.order_books.books {
        assert!(b.buy_orders.is_empty());
        assert!(b.sell_orders.is_empty());
    }
}

#[test]
fn unaffordable_buy_never_enters_the_book() {
    let sym = symbols(5);
    let mut sim = Sim::new(1, 1, 100, 1, 100, &sym, 1);
    // Price 150 exceeds the trader's cash of 100; price 50 is kept.
    let (choices, noise) = layout(5, 1, &[(0, 0, 2, 50), (1, 0, 2, -50)]);
    sim.create_orders(&choices, &noise);
    assert!(sim.order_books.books[0].buy_orders.is_empty());
    let kept = &sim.order_books.books[1].buy_orders;
    assert_eq!(kept.len(), 1);
    assert_eq!(kept[0].price, 50);
    assert_eq!(kept[0].qty, 1);
    assert_eq!(kept[0].trader, 0);
}

#[test]
fn seller_without_holding_never_enters_the_book() {
    let sym = symbols(5);
    let mut sim = Sim::new(1, 1, 100, 0, 100, &sym, 1);
    let choices = vec![1u32; 5];
    let noise = vec![0i64; 5];
    sim.create_orders(&choices, &noise);
    for b in &sim.order_books.books {
        assert!(b.sell_orders.is_empty());
    }
}

#[test]
fn one_order_per_trader_and_asset() {
    // A trader who sells an asset never also buys it that day.
    let sym = symbols(5);
    let mut sim = Sim::new(3, 1, 100, 2, 100, &sym, 1);
    let choices = vec![1u32; 15];
    let noise = vec![0i64; 15];
    sim.create_orders(&choices, &noise);
    for b in &sim.order_books.books {
        assert!(b.buy_orders.is_empty());
        assert_eq!(b.sell_orders.len(), 3);
        for (i, o) in b.sell_orders.iter().enumerate() {
            assert_eq!(o.trader, i);
            assert_eq!(o.qty, 1);
        }
    }
}

#[test]
fn cash_and_shares_are_conserved_across_days() {
    let sym = symbols(5);
    let mut sim = Sim::new(4, 1, 1000, 5, 100, &sym, 9);
    let mut orders_seen: u64 = 0;
    for day in 0..5u32 {
        let n = sim.markets.assets.len() * sim.traders.len();
        let mut noise = Vec::new();
        for k in 0..n {
            noise.push((k % 7) as i64 - 3);
        }
        let s = sim.advance_day(&noise).unwrap();
        assert_eq!(s.day, day + 1);
        assert_eq!(sim.day.0, day + 1);
        for e in &s.assets {
            orders_seen += (e.buy_count + e.sell_count) as u64;
        }
        let cash: i64 = sim.traders.iter().map(|t| t.cash).sum();
        assert_eq!(cash, 4000);
        for a in 0..5 {
            let shares: u32 = sim.traders.iter().map(|t| t.portfolio[a]).sum();
            assert_eq!(shares, 20);
            assert_eq!(sim.markets.assets[a].history.len(), (day + 2) as usize);
        }
    }
    // The seeded ternary draw does pick buys and sells, not only holds.
    assert!(orders_seen > 0);
}

#[test]
fn same_seed_and_noise_replay_identically() {
    let sym = symbols(5);
    let mut first = Sim::new(6, 1, 1000, 5, 100, &sym, 77);
    let mut second = Sim::new(6, 1, 1000, 5, 100, &sym, 77);
    for _ in 0..3 {
        let n = 5 * 6;
        let mut noise = Vec::new();
        for k in 0..n {
            noise.push((k % 11) as i64 - 5);
        }
        first.advance_day(&noise).unwrap();
        second.advance_day(&noise).unwrap();
    }
    for a in 0..5 {
        assert_eq!(first.markets.assets[a].history, second.markets.assets[a].history);
        assert_eq!(first.markets.assets[a].trades_last_day, second.markets.assets[a].trades_last_day);
    }
    for i in 0..6 {
        assert_eq!(first.traders[i].cash, second.traders[i].cash);
        assert_eq!(first.traders[i].portfolio, second.traders[i].portfolio);
    }
}

#[test]
fn affordability_is_judged_against_day_start_cash() {
    // Both buys pass the affordability check against the trader's cash at
    // the start of the day, so settling both can push the cash negative.
    let sym = symbols(5);
    let mut sim = Sim::new(2, 1, 100, 1, 0, &sym, 1);
    let picks = [(0, 0, 2, 80), (0, 1, 1, 80), (1, 0, 2, 80), (1, 1, 1, 80)];
    let (choices, noise) = layout(5, 2, &picks);
    let s = sim.advance_day_with(&choices, &noise).unwrap();
    assert_eq!(s.assets[0].trades, 1);
    assert_eq!(s.assets[1].trades, 1);
    assert_eq!(sim.traders[0].cash, -60);
    assert_eq!(sim.traders[1].cash, 260);
    let cash: i64 = sim.traders.iter().map(|t| t.cash).sum();
    assert_eq!(cash, 200);
}

#[test]
fn tick_day_advances_only_the_counter() {
    let sym = symbols(5);
    let mut sim = Sim::new(2, 1, 100, 1, 10, &sym, 3);
    sim.tick_day();
    assert_eq!(sim.day.0, 1);
    assert_eq!(sim.traders[0].cash, 100);
    assert_eq!(sim.markets.assets[0].history, vec![10]);
}
