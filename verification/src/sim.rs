//! The day scheduler: one aggregate owns the trader ledger, the per-asset
//! markets, the order books and the day counter, and advances them through
//! the daily pipeline — day tick, intent generation, per-asset matching in
//! ascending asset order, history recording, book clearing.

use vstd::prelude::*;

use crate::engine::{init_state, match_asset, match_rec, min_len, MatchState};
use crate::intents::{create_orders_into, gen_buys, gen_sells, lemma_gen_exclusive};
use crate::rng::{draw_below, rng_from_seed};
use crate::sorting::{sort_buys_spec, sort_sells_spec};
use crate::types::{
    ledger_model, orders_nonneg, sum_cash, sum_shares, AssetMarket, AssetSummary, CompanyType,
    Day, DaySummary, MatchError, Markets, Order, OrderBook, OrderBooks, Trader, TraderModel,
};

verus! {

/// How many sectors assets are spread over.
pub const SECTOR_COUNT: usize = 5;

/// The sector of asset `i` when each sector holds `cpt` consecutive assets.
pub open spec fn category_of(i: int, cpt: int) -> CompanyType {
    let g = i / cpt;
    if g == 0 {
        CompanyType::Tech
    } else if g == 1 {
        CompanyType::Retail
    } else if g == 2 {
        CompanyType::Finance
    } else if g == 3 {
        CompanyType::Mining
    } else {
        CompanyType::Industrial
    }
}

/// The whole simulation state.
pub struct Sim {
    pub day: Day,
    pub traders: Vec<Trader>,
    pub markets: Markets,
    pub order_books: OrderBooks,
    /// The seeded generator behind the daily intent draws.
    pub rng: rand::rngs::StdRng,
}

impl Sim {
    /// Number of assets traded.
    pub open spec fn n_assets(self) -> int {
        self.markets.assets@.len() as int
    }

    /// Number of traders in the ledger.
    pub open spec fn n_traders(self) -> int {
        self.traders@.len() as int
    }

    /// The mathematical image of the trader ledger.
    pub open spec fn ledger(self) -> Seq<TraderModel> {
        ledger_model(self.traders@)
    }

    /// Structural soundness: one order book and one portfolio slot per
    /// asset, non-negative prices, and counts small enough that matching
    /// and reporting stay representable.
    pub open spec fn wf(self) -> bool {
        &&& self.order_books.books@.len() == self.n_assets()
        &&& forall|i: int|
            0 <= i < self.n_traders() ==> (#[trigger] self.traders@[i]).portfolio@.len()
                == self.n_assets()
        &&& forall|a: int|
            0 <= a < self.n_assets() ==> (#[trigger] self.markets.assets@[a]).last_price >= 0
        &&& self.n_traders() <= u32::MAX
        &&& self.n_assets() * self.n_traders() <= usize::MAX
        &&& forall|a: int|
            0 <= a < self.n_assets() ==> #[trigger] sum_shares(self.ledger(), a) <= u32::MAX
    }

    /// Between days, each asset's history holds one price per completed
    /// day plus the day-zero seed.
    pub open spec fn day_aligned(self) -> bool {
        forall|a: int|
            0 <= a < self.n_assets() ==> (#[trigger] self.markets.assets@[a]).history@.len()
                == self.day.0 + 1
    }

    /// Builds the day-zero state: every trader starts with the same cash
    /// and the same holding of every asset; every asset starts at the
    /// day-zero price with a one-entry history and an empty book.
    pub fn new(
        num_traders: usize,
        companies_per_type: usize,
        initial_cash: i64,
        initial_shares: u32,
        day_zero_price: i64,
        symbols: &Vec<String>,
        seed: u64,
    ) -> (s: Sim)
        requires
            day_zero_price >= 0,
            companies_per_type >= 1,
            num_traders <= u32::MAX,
            num_traders * initial_shares <= u32::MAX,
            companies_per_type * SECTOR_COUNT <= usize::MAX,
            companies_per_type * SECTOR_COUNT * num_traders <= usize::MAX,
            symbols@.len() == companies_per_type * SECTOR_COUNT,
        ensures
            s.wf(),
            s.day_aligned(),
            s.day.0 == 0,
            s.n_traders() == num_traders,
            s.n_assets() == companies_per_type * SECTOR_COUNT,
            forall|i: int|
                0 <= i < s.n_traders() ==> (#[trigger] s.traders@[i]).cash == initial_cash,
            forall|i: int, a: int|
                0 <= i < s.n_traders() && 0 <= a < s.n_assets()
                    ==> #[trigger] s.traders@[i].portfolio@[a] == initial_shares,
            forall|a: int|
                0 <= a < s.n_assets() ==> {
                    let m = #[trigger] s.markets.assets@[a];
                    &&& m.symbol == symbols@[a]
                    &&& m.last_price == day_zero_price
                    &&& m.history@.len() == 1
                    &&& m.history@[0] == day_zero_price
                    &&& m.trades_last_day == 0
                    &&& m.buy_orders_last_day@.len() == 0
                    &&& m.sell_orders_last_day@.len() == 0
                    &&& m.company_type == category_of(a, companies_per_type as int)
                },
            forall|a: int|
                0 <= a < s.n_assets() ==> (#[trigger] s.order_books.books@[a]).buy_orders@.len()
                    == 0 && s.order_books.books@[a].sell_orders@.len() == 0,
            sum_cash(s.ledger()) == num_traders * initial_cash,
            forall|a: int|
                0 <= a < s.n_assets() ==> #[trigger] sum_shares(s.ledger(), a) == num_traders
                    * initial_shares,
    {
        let total_assets = companies_per_type * SECTOR_COUNT;
        let mut traders: Vec<Trader> = Vec::new();
        for i in 0..num_traders
            invariant
                traders@.len() == i,
                forall|j: int|
                    0 <= j < i ==> (#[trigger] traders@[j]).cash == initial_cash
                        && traders@[j].portfolio@.len() == total_assets && forall|a: int|
                        0 <= a < total_assets ==> traders@[j].portfolio@[a] == initial_shares,
        {
            let mut portfolio: Vec<u32> = Vec::new();
            for a in 0..total_assets
                invariant
                    portfolio@.len() == a,
                    forall|x: int| 0 <= x < a ==> #[trigger] portfolio@[x] == initial_shares,
            {
                portfolio.push(initial_shares);
            }
            traders.push(Trader { cash: initial_cash, portfolio });
        }
        let mut assets: Vec<AssetMarket> = Vec::new();
        for a in 0..total_assets
            invariant
                total_assets == companies_per_type * SECTOR_COUNT,
                companies_per_type >= 1,
                symbols@.len() == total_assets,
                assets@.len() == a,
                forall|x: int|
                    0 <= x < a ==> {
                        let m = #[trigger] assets@[x];
                        &&& m.symbol == symbols@[x]
                        &&& m.last_price == day_zero_price
                        &&& m.history@.len() == 1
                        &&& m.history@[0] == day_zero_price
                        &&& m.trades_last_day == 0
                        &&& m.buy_orders_last_day@.len() == 0
                        &&& m.sell_orders_last_day@.len() == 0
                        &&& m.company_type == category_of(x, companies_per_type as int)
                    },
        {
            let g = a / companies_per_type;
            let company_type = if g == 0 {
                CompanyType::Tech
            } else if g == 1 {
                CompanyType::Retail
            } else if g == 2 {
                CompanyType::Finance
            } else if g == 3 {
                CompanyType::Mining
            } else {
                CompanyType::Industrial
            };
            let mut history: Vec<i64> = Vec::new();
            history.push(day_zero_price);
            assets.push(
                AssetMarket {
                    symbol: symbols[a].clone(),
                    last_price: day_zero_price,
                    history,
                    buy_orders_last_day: Vec::new(),
                    sell_orders_last_day: Vec::new(),
                    trades_last_day: 0,
                    company_type,
                    color: 0,
                },
            );
        }
        let mut books: Vec<OrderBook> = Vec::new();
        for a in 0..total_assets
            invariant
                books@.len() == a,
                forall|x: int|
                    0 <= x < a ==> (#[trigger] books@[x]).buy_orders@.len() == 0 && books@[
                        x
                    ].sell_orders@.len() == 0,
        {
            books.push(OrderBook { buy_orders: Vec::new(), sell_orders: Vec::new() });
        }
        let s = Sim {
            day: Day(0),
            traders,
            markets: Markets { assets },
            order_books: OrderBooks { books },
            rng: rng_from_seed(seed),
        };
        proof {
            lemma_sum_uniform(
                s.ledger(),
                initial_cash as int,
                initial_shares as int,
                total_assets as int,
            );
        }
        s
    }

    /// Draws one ternary intent choice per (asset, trader) pair from the
    /// simulation's seeded generator, laid out asset-major.
    fn draw_choices(&mut self) -> (c: Vec<u32>)
        requires
            old(self).n_assets() * old(self).n_traders() <= usize::MAX,
        ensures
            c@.len() == old(self).n_assets() * old(self).n_traders(),
            forall|i: int| 0 <= i < c@.len() ==> #[trigger] c@[i] < 3,
            final(self).day == old(self).day,
            final(self).traders == old(self).traders,
            final(self).markets == old(self).markets,
            final(self).order_books == old(self).order_books,
    {
        let total = self.markets.assets.len() * self.traders.len();
        let mut c: Vec<u32> = Vec::new();
        for k in 0..total
            invariant
                c@.len() == k,
                forall|i: int| 0 <= i < k ==> #[trigger] c@[i] < 3,
                self.day == old(self).day,
                self.traders == old(self).traders,
                self.markets == old(self).markets,
                self.order_books == old(self).order_books,
        {
            let d = draw_below(&mut self.rng, 3);
            c.push(d);
        }
        c
    }

    /// Rebuilds every order book from the given choices and noise draws,
    /// judged against each trader's cash and holdings at the start of the
    /// day. Ledger, markets and day counter are untouched.
    pub fn create_orders(&mut self, choices: &Vec<u32>, noise: &Vec<i64>)
        requires
            old(self).wf(),
            choices@.len() == old(self).n_assets() * old(self).n_traders(),
            noise@.len() == old(self).n_assets() * old(self).n_traders(),
        ensures
            final(self).day == old(self).day,
            final(self).traders == old(self).traders,
            final(self).markets == old(self).markets,
            final(self).wf(),
            final(self).order_books.books@.len() == old(self).n_assets(),
            forall|a: int|
                0 <= a < old(self).n_assets() ==> {
                    let t_n = old(self).n_traders();
                    let lp = old(self).markets.assets@[a].last_price as int;
                    (#[trigger] final(self).order_books.books@[a]).buy_orders@ == gen_buys(
                        old(self).ledger(),
                        lp,
                        choices@,
                        noise@,
                        a * t_n,
                        t_n,
                    ) && final(self).order_books.books@[a].sell_orders@ == gen_sells(
                        old(self).ledger(),
                        a,
                        lp,
                        choices@,
                        noise@,
                        a * t_n,
                        t_n,
                    )
                },
    {
        create_orders_into(
            &self.traders,
            &self.markets.assets,
            &mut self.order_books.books,
            choices,
            noise,
        );
        proof {
            assert(self.ledger() == old(self).ledger());
        }
    }

    /// Runs the matching engine once per asset, in ascending asset order,
    /// settling every trade against the shared ledger.
    ///
    /// `settle_rec` over the stably sorted books names the outcome exactly:
    /// on success every market carries its day's trade count, its
    /// volume-average price (unchanged where no trade happened) and the
    /// sorted lists for reporting; on an error the walk stops there, the
    /// ledger keeps the trades settled before it, and the error is
    /// returned. Cash and share totals are conserved either way.
    pub fn match_orders(&mut self) -> (r: Result<(), MatchError>)
        requires
            old(self).wf(),
            forall|a: int|
                0 <= a < old(self).n_assets() ==> {
                    let b = #[trigger] old(self).order_books.books@[a];
                    &&& orders_nonneg(b.buy_orders@)
                    &&& orders_nonneg(b.sell_orders@)
                    &&& (b.buy_orders@.len() <= u32::MAX || b.sell_orders@.len() <= u32::MAX)
                },
        ensures
            ({
                let sorted = sorted_books(old(self).order_books.books@);
                let out = settle_rec(sorted, 0, old(self).ledger());
                &&& final(self).day == old(self).day
                &&& final(self).n_traders() == old(self).n_traders()
                &&& final(self).n_assets() == old(self).n_assets()
                &&& final(self).wf()
                &&& final(self).ledger() == out.ledger
                &&& sum_cash(final(self).ledger()) == sum_cash(old(self).ledger())
                &&& forall|a: int|
                    0 <= a < old(self).n_assets() ==> #[trigger] sum_shares(
                        final(self).ledger(),
                        a,
                    ) == sum_shares(old(self).ledger(), a)
                &&& (r is Ok <==> out.err is None)
                &&& match r {
                    Ok(()) => {
                        &&& out.stats.len() == old(self).n_assets()
                        &&& forall|a: int|
                            0 <= a < old(self).n_assets() ==> {
                                let m = #[trigger] final(self).markets.assets@[a];
                                let pm = old(self).markets.assets@[a];
                                &&& final(self).order_books.books@[a].buy_orders@ == sorted[a].0
                                &&& final(self).order_books.books@[a].sell_orders@ == sorted[a].1
                                &&& m.trades_last_day == out.stats[a].0
                                &&& out.stats[a].0 <= min_len(sorted[a].0, sorted[a].1)
                                &&& m.last_price == (if out.stats[a].0 > 0 {
                                    out.stats[a].1 / out.stats[a].0
                                } else {
                                    pm.last_price as int
                                })
                                &&& (out.stats[a].0 == 0 ==> m.last_price == pm.last_price)
                                &&& m.buy_orders_last_day@ == sorted[a].0
                                &&& m.sell_orders_last_day@ == sorted[a].1
                                &&& m.history == pm.history
                                &&& m.symbol == pm.symbol
                                &&& m.company_type == pm.company_type
                                &&& m.color == pm.color
                            }
                    },
                    Err(e) => out.err == Some(e),
                }
            }),
    {
        let ghost books0 = old(self).order_books.books@;
        let ghost assets0 = old(self).markets.assets@;
        let ghost l0 = old(self).ledger();
        let ghost sorted = sorted_books(books0);
        let ghost full = settle_rec(sorted, 0, l0);
        let n_assets = self.markets.assets.len();
        let ghost mut done: Seq<(int, int)> = Seq::empty();
        for a in 0..n_assets
            invariant
                books0 == old(self).order_books.books@,
                assets0 == old(self).markets.assets@,
                l0 == old(self).ledger(),
                sorted == sorted_books(books0),
                full == settle_rec(sorted, 0, l0),
                n_assets == assets0.len(),
                sorted.len() == n_assets,
                self.day == old(self).day,
                self.markets.assets@.len() == n_assets,
                self.order_books.books@.len() == n_assets,
                self.traders@.len() == old(self).traders@.len(),
                self.traders@.len() <= u32::MAX,
                forall|i: int|
                    0 <= i < self.traders@.len() ==> (#[trigger] self.traders@[i]).portfolio@.len()
                        == n_assets,
                (n_assets as int) * (self.traders@.len() as int) <= usize::MAX,
                forall|x: int|
                    0 <= x < n_assets ==> {
                        let b = #[trigger] books0[x];
                        &&& orders_nonneg(b.buy_orders@)
                        &&& orders_nonneg(b.sell_orders@)
                        &&& (b.buy_orders@.len() <= u32::MAX || b.sell_orders@.len() <= u32::MAX)
                    },
                forall|x: int| 0 <= x < n_assets ==> (#[trigger] assets0[x]).last_price >= 0,
                forall|x: int| 0 <= x < n_assets ==> #[trigger] sum_shares(l0, x) <= u32::MAX,
                done.len() == a,
                full.ledger == settle_rec(sorted, a as int, self.ledger()).ledger,
                full.err == settle_rec(sorted, a as int, self.ledger()).err,
                full.stats == done + settle_rec(sorted, a as int, self.ledger()).stats,
                sum_cash(self.ledger()) == sum_cash(l0),
                forall|x: int|
                    0 <= x < n_assets ==> #[trigger] sum_shares(self.ledger(), x) == sum_shares(
                        l0,
                        x,
                    ),
                forall|x: int|
                    0 <= x < a ==> {
                        let m = #[trigger] self.markets.assets@[x];
                        let pm = assets0[x];
                        &&& self.order_books.books@[x].buy_orders@ == sorted[x].0
                        &&& self.order_books.books@[x].sell_orders@ == sorted[x].1
                        &&& m.trades_last_day == done[x].0
                        &&& done[x].0 <= min_len(sorted[x].0, sorted[x].1)
                        &&& m.last_price == (if done[x].0 > 0 {
                            done[x].1 / done[x].0
                        } else {
                            pm.last_price as int
                        })
                        &&& (done[x].0 == 0 ==> m.last_price == pm.last_price)
                        &&& m.last_price >= 0
                        &&& m.buy_orders_last_day@ == sorted[x].0
                        &&& m.sell_orders_last_day@ == sorted[x].1
                        &&& m.history == pm.history
                        &&& m.symbol == pm.symbol
                        &&& m.company_type == pm.company_type
                        &&& m.color == pm.color
                    },
                forall|x: int|
                    a <= x < n_assets ==> #[trigger] self.order_books.books@[x] == books0[x],
                forall|x: int|
                    a <= x < n_assets ==> #[trigger] self.markets.assets@[x] == assets0[x],
        {
            let ghost cur = self.ledger();
            let ghost rem = settle_rec(sorted, a as int, cur);
            let ghost mo = match_rec(sorted[a as int].0, sorted[a as int].1, a as int, init_state(cur));
            let ghost assets_pre = self.markets.assets@;
            let ghost books_pre = self.order_books.books@;
            let mut m = self.markets.assets.remove(a);
            let mut b = self.order_books.books.remove(a);
            proof {
                assert(sorted[a as int].0 == sort_buys_spec(books0[a as int].buy_orders@));
                assert(sorted[a as int].1 == sort_sells_spec(books0[a as int].sell_orders@));
                crate::engine::lemma_match_conserves(
                    sorted[a as int].0,
                    sorted[a as int].1,
                    a as int,
                    init_state(cur),
                    n_assets as int,
                );
            }
            let res = match_asset(&mut self.traders, &mut m, &mut b, a);
            let ghost m_after = m;
            let ghost b_after = b;
            self.markets.assets.insert(a, m);
            self.order_books.books.insert(a, b);
            proof {
                crate::types::lemma_remove_insert(assets_pre, a as int, m_after);
                crate::types::lemma_remove_insert(books_pre, a as int, b_after);
                assert(self.markets.assets@ == assets_pre.update(a as int, m_after));
                assert(self.order_books.books@ == books_pre.update(a as int, b_after));
            }
            match res {
                Ok(()) => {
                    proof {
                        done = done.push((mo.trades, mo.total_value));
                        let rest = settle_rec(sorted, a as int + 1, mo.ledger);
                        assert(rem.stats == seq![(mo.trades, mo.total_value)] + rest.stats);
                        assert(done + rest.stats =~= done.drop_last() + rem.stats);
                        assert(full.stats == done + rest.stats);
                        assert forall|x: int|
                            a as int + 1 <= x < n_assets implies #[trigger] self.order_books.books@[
                            x
                        ] == books0[x] by {
                            assert(books_pre[x] == books0[x]);
                        }
                        assert forall|x: int|
                            a as int + 1 <= x < n_assets implies #[trigger] self.markets.assets@[
                            x
                        ] == assets0[x] by {
                            assert(assets_pre[x] == assets0[x]);
                        }
                    }
                },
                Err(e) => {
                    proof {
                        assert(rem.err == mo.err);
                        assert(rem.ledger == mo.ledger);
                        assert(full.err == Some(e));
                        assert(full.ledger == self.ledger());
                        assert(assets_pre[a as int] == assets0[a as int]);
                        assert(m_after == assets0[a as int]);
                        assert forall|x: int|
                            0 <= x < n_assets implies (#[trigger] self.markets.assets@[
                            x
                        ]).last_price >= 0 by {
                            assert(assets_pre[x] == self.markets.assets@[x] || x == a as int);
                            if x == a {
                                assert(self.markets.assets@[x] == assets0[x]);
                            } else if x >= a {
                                assert(assets_pre[x] == assets0[x]);
                            }
                        }
                    }
                    return Err(e);
                },
            }
        }
        proof {
            let tail = settle_rec(sorted, n_assets as int, self.ledger());
            assert(tail.stats.len() == 0);
            assert(full.stats =~= done);
            assert(full.err is None);
            assert(full.ledger == self.ledger());
        }
        Ok(())
    }

    /// Closes the day: appends each asset's price to its history, clears
    /// every order book, and returns the observable day summary with each
    /// asset's price, trade count and order counts.
    pub fn end_day(&mut self) -> (s: DaySummary)
        requires
            old(self).wf(),
            forall|a: int|
                0 <= a < old(self).n_assets() ==> (#[trigger] old(self).order_books.books@[
                    a
                ]).buy_orders@.len() <= u32::MAX && old(self).order_books.books@[
                    a
                ].sell_orders@.len() <= u32::MAX,
        ensures
            final(self).wf(),
            final(self).day == old(self).day,
            final(self).traders == old(self).traders,
            final(self).n_assets() == old(self).n_assets(),
            s.day == old(self).day.0,
            s.assets@.len() == old(self).n_assets(),
            forall|a: int|
                0 <= a < old(self).n_assets() ==> {
                    let m = #[trigger] final(self).markets.assets@[a];
                    let pm = old(self).markets.assets@[a];
                    &&& m.history@ == pm.history@.push(pm.last_price)
                    &&& m.last_price == pm.last_price
                    &&& m.trades_last_day == pm.trades_last_day
                    &&& m.buy_orders_last_day == pm.buy_orders_last_day
                    &&& m.sell_orders_last_day == pm.sell_orders_last_day
                    &&& m.symbol == pm.symbol
                    &&& m.company_type == pm.company_type
                    &&& m.color == pm.color
                    &&& final(self).order_books.books@[a].buy_orders@.len() == 0
                    &&& final(self).order_books.books@[a].sell_orders@.len() == 0
                    &&& s.assets@[a] == (AssetSummary {
                        last_price: pm.last_price,
                        trades: pm.trades_last_day,
                        buy_count: old(self).order_books.books@[a].buy_orders@.len() as u32,
                        sell_count: old(self).order_books.books@[a].sell_orders@.len() as u32,
                    })
                },
    {
        let ghost assets0 = old(self).markets.assets@;
        let ghost books0 = old(self).order_books.books@;
        let n_assets = self.markets.assets.len();
        let mut entries: Vec<AssetSummary> = Vec::new();
        for a in 0..n_assets
            invariant
                assets0 == old(self).markets.assets@,
                books0 == old(self).order_books.books@,
                n_assets == assets0.len(),
                self.day == old(self).day,
                self.traders == old(self).traders,
                self.markets.assets@.len() == n_assets,
                self.order_books.books@.len() == n_assets,
                old(self).wf(),
                forall|x: int|
                    0 <= x < n_assets ==> (#[trigger] books0[x]).buy_orders@.len() <= u32::MAX
                        && books0[x].sell_orders@.len() <= u32::MAX,
                entries@.len() == a,
                forall|x: int|
                    0 <= x < a ==> {
                        let m = #[trigger] self.markets.assets@[x];
                        let pm = assets0[x];
                        &&& m.history@ == pm.history@.push(pm.last_price)
                        &&& m.last_price == pm.last_price
                        &&& m.trades_last_day == pm.trades_last_day
                        &&& m.buy_orders_last_day == pm.buy_orders_last_day
                        &&& m.sell_orders_last_day == pm.sell_orders_last_day
                        &&& m.symbol == pm.symbol
                        &&& m.company_type == pm.company_type
                        &&& m.color == pm.color
                        &&& self.order_books.books@[x].buy_orders@.len() == 0
                        &&& self.order_books.books@[x].sell_orders@.len() == 0
                        &&& entries@[x] == (AssetSummary {
                            last_price: pm.last_price,
                            trades: pm.trades_last_day,
                            buy_count: books0[x].buy_orders@.len() as u32,
                            sell_count: books0[x].sell_orders@.len() as u32,
                        })
                    },
                forall|x: int|
                    a <= x < n_assets ==> #[trigger] self.markets.assets@[x] == assets0[x],
                forall|x: int|
                    a <= x < n_assets ==> #[trigger] self.order_books.books@[x] == books0[x],
        {
            let ghost assets_pre = self.markets.assets@;
            let ghost books_pre = self.order_books.books@;
            let mut m = self.markets.assets.remove(a);
            let lp = m.last_price;
            let trades = m.trades_last_day;
            m.history.push(lp);
            self.markets.assets.insert(a, m);
            let mut b = self.order_books.books.remove(a);
            let bc = b.buy_orders.len();
            let sc = b.sell_orders.len();
            b.buy_orders.clear();
            b.sell_orders.clear();
            self.order_books.books.insert(a, b);
            entries.push(AssetSummary { last_price: lp, trades, buy_count: bc as u32, sell_count: sc as u32 });
            proof {
                crate::types::lemma_remove_insert(books_pre, a as int, self.order_books.books@[a as int]);
                crate::types::lemma_remove_insert(assets_pre, a as int, self.markets.assets@[a as int]);
                assert forall|x: int|
                    a as int + 1 <= x < n_assets implies #[trigger] self.markets.assets@[x]
                    == assets0[x] by {
                    assert(assets_pre[x] == assets0[x]);
                }
                assert forall|x: int|
                    a as int + 1 <= x < n_assets implies #[trigger] self.order_books.books@[x]
                    == books0[x] by {
                    assert(books_pre[x] == books0[x]);
                }
            }
        }
        proof {
            assert(self.ledger() == old(self).ledger());
        }
        DaySummary { day: self.day.0, assets: entries }
    }

    /// Runs one full day from the given choice and noise draws: tick,
    /// intent generation, per-asset matching, history recording, book
    /// clearing. Deterministic: the outcome is exactly `day_rel` of the
    /// starting state and the draws. Cash and share totals are conserved
    /// whether the day completes or stops on a fatal error.
    pub fn advance_day_with(&mut self, choices: &Vec<u32>, noise: &Vec<i64>) -> (r: Result<
        DaySummary,
        MatchError,
    >)
        requires
            old(self).wf(),
            old(self).day.0 < u32::MAX,
            choices@.len() == old(self).n_assets() * old(self).n_traders(),
            noise@.len() == old(self).n_assets() * old(self).n_traders(),
        ensures
            day_rel(*old(self), *final(self), choices@, noise@, r),
            r matches Err(e) ==> e == MatchError::Overflow,
            final(self).wf(),
            final(self).day.0 == old(self).day.0 + 1,
            sum_cash(final(self).ledger()) == sum_cash(old(self).ledger()),
            forall|a: int|
                0 <= a < old(self).n_assets() ==> #[trigger] sum_shares(final(self).ledger(), a)
                    == sum_shares(old(self).ledger(), a),
            old(self).day_aligned() && r is Ok ==> final(self).day_aligned(),
    {
        let ghost l0 = old(self).ledger();
        let ghost t_n = old(self).n_traders();
        let ghost n_a = old(self).n_assets();
        let ghost gb = gen_books_spec(l0, old(self).markets.assets@, choices@, noise@, t_n);
        let ghost sorted = sorted_of(gb);
        let ghost out = settle_rec(sorted, 0, l0);
        self.tick_day();
        self.create_orders(choices, noise);
        proof {
            assert forall|a: int|
                0 <= a < n_a implies {
                let b = #[trigger] self.order_books.books@[a];
                &&& orders_nonneg(b.buy_orders@)
                &&& orders_nonneg(b.sell_orders@)
                &&& b.buy_orders@.len() <= u32::MAX
                &&& b.sell_orders@.len() <= u32::MAX
            } by {
                let lp = old(self).markets.assets@[a].last_price as int;
                lemma_gen_exclusive(l0, a, lp, choices@, noise@, a * t_n, t_n);
                assert(self.order_books.books@[a].buy_orders@ == gen_buys(
                    l0,
                    lp,
                    choices@,
                    noise@,
                    a * t_n,
                    t_n,
                ));
                assert(self.order_books.books@[a].sell_orders@ == gen_sells(
                    l0,
                    a,
                    lp,
                    choices@,
                    noise@,
                    a * t_n,
                    t_n,
                ));
            }
        }
        let ghost mid_books = self.order_books.books@;
        proof {
            assert forall|a: int| 0 <= a < n_a implies sorted_books(mid_books)[a] == sorted[a] by {
                assert(mid_books[a].buy_orders@ == gb[a].0);
                assert(mid_books[a].sell_orders@ == gb[a].1);
            }
            assert(sorted_books(mid_books) =~= sorted);
            assert(self.ledger() == l0);
            assert(l0.len() == t_n);
            assert forall|i: int, x: int|
                0 <= i < l0.len() && 0 <= x < n_a implies #[trigger] l0[i].portfolio[x] >= 0 by {
                assert(l0[i].portfolio[x] == old(self).traders@[i].portfolio@[x] as int);
            }
            assert forall|x: int|
                0 <= x < n_a implies crate::engine::side_ok((#[trigger] sorted[x]).0, t_n)
                && crate::engine::side_ok(sorted[x].1, t_n) && crate::engine::sides_exclusive(
                sorted[x].0,
                sorted[x].1,
            ) by {
                let lp = old(self).markets.assets@[x].last_price as int;
                lemma_gen_exclusive(l0, x, lp, choices@, noise@, x * t_n, t_n);
                crate::sorting::lemma_sort_buys_spec(gb[x].0);
                crate::sorting::lemma_sort_sells_spec(gb[x].1);
                assert forall|i: int|
                    0 <= i < sorted[x].0.len() implies (#[trigger] sorted[x].0[i]).qty == 1
                    && sorted[x].0[i].price >= 0 && sorted[x].0[i].trader < t_n by {
                    sorted[x].0.to_multiset_ensures();
                    gb[x].0.to_multiset_ensures();
                    assert(sorted[x].0.to_multiset().count(sorted[x].0[i]) > 0);
                    assert(gb[x].0.contains(sorted[x].0[i]));
                }
                assert forall|i: int|
                    0 <= i < sorted[x].1.len() implies (#[trigger] sorted[x].1[i]).qty == 1
                    && sorted[x].1[i].price >= 0 && sorted[x].1[i].trader < t_n by {
                    sorted[x].1.to_multiset_ensures();
                    gb[x].1.to_multiset_ensures();
                    assert(sorted[x].1.to_multiset().count(sorted[x].1[i]) > 0);
                    assert(gb[x].1.contains(sorted[x].1[i]));
                }
                crate::sorting::lemma_perm_distinct_traders(gb[x].0, sorted[x].0);
                crate::sorting::lemma_perm_distinct_traders(gb[x].1, sorted[x].1);
                crate::sorting::lemma_perm_cross_distinct(gb[x].0, gb[x].1, sorted[x].0, sorted[x].1);
            }
            assert forall|x: int, k: int|
                0 <= x < n_a && 0 <= k < sorted[x].1.len() implies #[trigger] l0[sorted[x].1[
                k
            ].trader as int].portfolio[x] >= 1 by {
                let lp = old(self).markets.assets@[x].last_price as int;
                lemma_gen_exclusive(l0, x, lp, choices@, noise@, x * t_n, t_n);
                sorted[x].1.to_multiset_ensures();
                gb[x].1.to_multiset_ensures();
                crate::sorting::lemma_sort_sells_spec(gb[x].1);
                assert(sorted[x].1.to_multiset().count(sorted[x].1[k]) > 0);
                assert(gb[x].1.contains(sorted[x].1[k]));
            }
            lemma_settle_fails_only_on_overflow(sorted, 0, l0);
        }
        let r0 = self.match_orders();
        match r0 {
            Err(e) => {
                proof {
                    assert(out.err == Some(e));
                }
                Err(e)
            },
            Ok(()) => {
                proof {
                    assert forall|a: int|
                        0 <= a < n_a implies (#[trigger] self.order_books.books@[
                        a
                    ]).buy_orders@.len() <= u32::MAX && self.order_books.books@[
                        a
                    ].sell_orders@.len() <= u32::MAX by {
                        let lp = old(self).markets.assets@[a].last_price as int;
                        let m = self.markets.assets@[a];
                        lemma_gen_exclusive(l0, a, lp, choices@, noise@, a * t_n, t_n);
                        crate::sorting::lemma_sort_buys_spec(gb[a].0);
                        crate::sorting::lemma_sort_sells_spec(gb[a].1);
                        assert(self.order_books.books@[a].buy_orders@ == sorted[a].0);
                        assert(self.order_books.books@[a].sell_orders@ == sorted[a].1);
                    }
                }
                let ghost pm_state = *self;
                let s = self.end_day();
                proof {
                    assert forall|a: int|
                        0 <= a < n_a implies {
                        let m = #[trigger] self.markets.assets@[a];
                        let pm = old(self).markets.assets@[a];
                        let trades = out.stats[a].0;
                        &&& m.trades_last_day == trades
                        &&& trades <= min_len(sorted[a].0, sorted[a].1)
                        &&& m.last_price == (if trades > 0 {
                            out.stats[a].1 / trades
                        } else {
                            pm.last_price as int
                        })
                        &&& (trades == 0 ==> m.last_price == pm.last_price)
                        &&& m.history@ == pm.history@.push(m.last_price)
                        &&& m.buy_orders_last_day@ == sorted[a].0
                        &&& m.sell_orders_last_day@ == sorted[a].1
                        &&& m.symbol == pm.symbol
                        &&& m.company_type == pm.company_type
                        &&& m.color == pm.color
                        &&& self.order_books.books@[a].buy_orders@.len() == 0
                        &&& self.order_books.books@[a].sell_orders@.len() == 0
                        &&& s.assets@[a] == (AssetSummary {
                            last_price: m.last_price,
                            trades: m.trades_last_day,
                            buy_count: sorted[a].0.len() as u32,
                            sell_count: sorted[a].1.len() as u32,
                        })
                    } by {
                        assert(pm_state.markets.assets@[a].trades_last_day == out.stats[a].0);
                        assert(pm_state.order_books.books@[a].buy_orders@ == sorted[a].0);
                        assert(pm_state.order_books.books@[a].sell_orders@ == sorted[a].1);
                    }
                    assert(day_rel(*old(self), *self, choices@, noise@, Ok::<
                        DaySummary,
                        MatchError,
                    >(s)));
                }
                Ok(s)
            },
        }
    }

    /// Runs one full day, drawing each trader's ternary intent from the
    /// simulation's own seeded generator; the caller supplies one price
    /// offset per (asset, trader) pair, laid out asset-major. Some choice
    /// sequence of ternary draws accounts for the outcome exactly, through
    /// `day_rel`; cash and share totals are conserved either way.
    pub fn advance_day(&mut self, noise: &Vec<i64>) -> (r: Result<DaySummary, MatchError>)
        requires
            old(self).wf(),
            old(self).day.0 < u32::MAX,
            noise@.len() == old(self).n_assets() * old(self).n_traders(),
        ensures
            exists|c: Seq<u32>|
                #[trigger] valid_choices(c, old(self).n_assets() * old(self).n_traders())
                    && day_rel(*old(self), *final(self), c, noise@, r),
            r matches Err(e) ==> e == MatchError::Overflow,
            final(self).wf(),
            final(self).day.0 == old(self).day.0 + 1,
            sum_cash(final(self).ledger()) == sum_cash(old(self).ledger()),
            forall|a: int|
                0 <= a < old(self).n_assets() ==> #[trigger] sum_shares(final(self).ledger(), a)
                    == sum_shares(old(self).ledger(), a),
            old(self).day_aligned() && r is Ok ==> final(self).day_aligned(),
    {
        let choices = self.draw_choices();
        proof {
            assert(self.ledger() == old(self).ledger());
            assert(self.wf());
        }
        let r = self.advance_day_with(&choices, noise);
        proof {
            assert(valid_choices(choices@, old(self).n_assets() * old(self).n_traders()));
        }
        r
    }

    /// Advances the day counter and nothing else.
    pub fn tick_day(&mut self)
        requires
            old(self).day.0 < u32::MAX,
        ensures
            final(self).day.0 == old(self).day.0 + 1,
            final(self).traders == old(self).traders,
            final(self).markets == old(self).markets,
            final(self).order_books == old(self).order_books,
    {
        self.day = Day(self.day.0 + 1);
    }
}

/// A well-laid-out choice sequence: one ternary value per (asset, trader)
/// pair.
pub open spec fn valid_choices(c: Seq<u32>, n: int) -> bool {
    &&& c.len() == n
    &&& forall|i: int| 0 <= i < c.len() ==> #[trigger] c[i] < 3
}

/// The books that intent generation produces for every asset, judged
/// against the day-start ledger and each asset's day-start price.
pub open spec fn gen_books_spec(
    l: Seq<TraderModel>,
    assets: Seq<AssetMarket>,
    ch: Seq<u32>,
    nz: Seq<i64>,
    t_n: int,
) -> Seq<(Seq<Order>, Seq<Order>)> {
    Seq::new(
        assets.len(),
        |a: int|
            (
                gen_buys(l, assets[a].last_price as int, ch, nz, a * t_n, t_n),
                gen_sells(l, a, assets[a].last_price as int, ch, nz, a * t_n, t_n),
            ),
    )
}

/// Every generated book pair, stably sorted for the auction.
pub open spec fn sorted_of(gen: Seq<(Seq<Order>, Seq<Order>)>) -> Seq<(Seq<Order>, Seq<Order>)> {
    Seq::new(gen.len(), |a: int| (sort_buys_spec(gen[a].0), sort_sells_spec(gen[a].1)))
}

/// What one full day does, given the day's choice and noise draws: the day
/// counter advances; intent generation, stable sorting and sequential
/// settlement over `settle_rec` name the final ledger exactly; on success
/// every market carries the day's trade count, its volume-average price
/// (persisting unchanged where no trade happened), the appended history
/// entry and the sorted lists, the books are cleared, and the summary
/// reports price, trade count and order counts per asset; on an error the
/// run stops with exactly the error the settlement walk names.
pub open spec fn day_rel(
    pre: Sim,
    post: Sim,
    ch: Seq<u32>,
    nz: Seq<i64>,
    r: Result<DaySummary, MatchError>,
) -> bool {
    let l0 = pre.ledger();
    let t_n = pre.n_traders();
    let gb = gen_books_spec(l0, pre.markets.assets@, ch, nz, t_n);
    let sorted = sorted_of(gb);
    let out = settle_rec(sorted, 0, l0);
    &&& post.day.0 == pre.day.0 + 1
    &&& post.n_traders() == t_n
    &&& post.n_assets() == pre.n_assets()
    &&& post.ledger() == out.ledger
    &&& (r is Ok <==> out.err is None)
    &&& match r {
        Ok(s) => {
            &&& s.day == pre.day.0 + 1
            &&& s.assets@.len() == pre.n_assets()
            &&& out.stats.len() == pre.n_assets()
            &&& forall|a: int|
                0 <= a < pre.n_assets() ==> {
                    let m = #[trigger] post.markets.assets@[a];
                    let pm = pre.markets.assets@[a];
                    let trades = out.stats[a].0;
                    &&& m.trades_last_day == trades
                    &&& trades <= min_len(sorted[a].0, sorted[a].1)
                    &&& m.last_price == (if trades > 0 {
                        out.stats[a].1 / trades
                    } else {
                        pm.last_price as int
                    })
                    &&& (trades == 0 ==> m.last_price == pm.last_price)
                    &&& m.history@ == pm.history@.push(m.last_price)
                    &&& m.buy_orders_last_day@ == sorted[a].0
                    &&& m.sell_orders_last_day@ == sorted[a].1
                    &&& m.symbol == pm.symbol
                    &&& m.company_type == pm.company_type
                    &&& m.color == pm.color
                    &&& post.order_books.books@[a].buy_orders@.len() == 0
                    &&& post.order_books.books@[a].sell_orders@.len() == 0
                    &&& s.assets@[a] == (AssetSummary {
                        last_price: m.last_price,
                        trades: m.trades_last_day,
                        buy_count: sorted[a].0.len() as u32,
                        sell_count: sorted[a].1.len() as u32,
                    })
                }
        },
        Err(e) => out.err == Some(e),
    }
}

/// The outcome of matching every asset in ascending order: the final
/// ledger image, one (trade count, total trade value) pair per settled
/// asset, and the error that stopped the run, if one did.
pub struct SettleOut {
    pub ledger: Seq<TraderModel>,
    pub stats: Seq<(int, int)>,
    pub err: Option<MatchError>,
}

/// Threads the matching walk through assets `a..`, each starting from the
/// ledger the previous asset left behind. An error stops the run at its
/// asset; the stats of later assets are then absent.
pub open spec fn settle_rec(
    sorted: Seq<(Seq<Order>, Seq<Order>)>,
    a: int,
    ledger: Seq<TraderModel>,
) -> SettleOut
    decreases sorted.len() - a,
{
    if a < 0 || a >= sorted.len() {
        SettleOut { ledger, stats: Seq::empty(), err: None }
    } else {
        let m = match_rec(sorted[a].0, sorted[a].1, a, init_state(ledger));
        if m.err is Some {
            SettleOut { ledger: m.ledger, stats: Seq::empty(), err: m.err }
        } else {
            let rest = settle_rec(sorted, a + 1, m.ledger);
            SettleOut {
                ledger: rest.ledger,
                stats: seq![(m.trades, m.total_value)] + rest.stats,
                err: rest.err,
            }
        }
    }
}

/// Every book's two sides, stably sorted for the auction.
pub open spec fn sorted_books(books: Seq<OrderBook>) -> Seq<(Seq<Order>, Seq<Order>)> {
    Seq::new(
        books.len(),
        |a: int| (sort_buys_spec(books[a].buy_orders@), sort_sells_spec(books[a].sell_orders@)),
    )
}

/// From hygienic, exclusive books whose sellers each hold a share, the
/// settlement run across all assets never stops on a quantity, trader or
/// share fault: only a cash settlement leaving the representable range can
/// stop it.
proof fn lemma_settle_fails_only_on_overflow(
    sorted: Seq<(Seq<Order>, Seq<Order>)>,
    a: int,
    ledger: Seq<TraderModel>,
)
    requires
        0 <= a,
        forall|i: int|
            0 <= i < ledger.len() ==> (#[trigger] ledger[i]).portfolio.len() == sorted.len(),
        forall|i: int, x: int|
            0 <= i < ledger.len() && a <= x < sorted.len() ==> #[trigger] ledger[i].portfolio[x]
                >= 0,
        forall|x: int| a <= x < sorted.len() ==> #[trigger] sum_shares(ledger, x) <= u32::MAX,
        forall|x: int|
            a <= x < sorted.len() ==> crate::engine::side_ok(
                (#[trigger] sorted[x]).0,
                ledger.len() as int,
            ) && crate::engine::side_ok(sorted[x].1, ledger.len() as int)
                && crate::engine::sides_exclusive(sorted[x].0, sorted[x].1),
        forall|x: int, k: int|
            a <= x < sorted.len() && 0 <= k < sorted[x].1.len()
                ==> #[trigger] ledger[sorted[x].1[k].trader as int].portfolio[x] >= 1,
    ensures
        settle_rec(sorted, a, ledger).err is None || settle_rec(sorted, a, ledger).err == Some(
            MatchError::Overflow,
        ),
    decreases sorted.len() - a,
{
    if a < sorted.len() {
        let n = sorted.len() as int;
        let m0 = match_rec(sorted[a].0, sorted[a].1, a, init_state(ledger));
        crate::engine::lemma_match_fails_only_on_overflow(
            sorted[a].0,
            sorted[a].1,
            a,
            init_state(ledger),
            n,
        );
        if m0.err is None {
            crate::engine::lemma_match_conserves(sorted[a].0, sorted[a].1, a, init_state(ledger), n);
            assert forall|i: int, x: int|
                0 <= i < m0.ledger.len() && a + 1 <= x < n implies #[trigger] m0.ledger[i].portfolio[
                x
            ] >= 0 by {
                assert(m0.ledger[i].portfolio[x] == ledger[i].portfolio[x]);
            }
            assert forall|x: int, k: int|
                a + 1 <= x < n && 0 <= k < sorted[x].1.len() implies #[trigger] m0.ledger[sorted[
                x
            ].1[k].trader as int].portfolio[x] >= 1 by {
                let t = sorted[x].1[k].trader as int;
                assert(0 <= t < ledger.len());
                assert(m0.ledger[t].portfolio[x] == ledger[t].portfolio[x]);
            }
            lemma_settle_fails_only_on_overflow(sorted, a + 1, m0.ledger);
        }
    }
}

/// A ledger of identical traders sums to count times the per-trader value,
/// in cash and in every asset's shares.
proof fn lemma_sum_uniform(s: Seq<TraderModel>, cash: int, shares: int, plen: int)
    requires
        forall|i: int|
            0 <= i < s.len() ==> (#[trigger] s[i]).cash == cash && s[i].portfolio.len() == plen
                && forall|a: int| 0 <= a < plen ==> s[i].portfolio[a] == shares,
    ensures
        sum_cash(s) == s.len() * cash,
        forall|a: int| 0 <= a < plen ==> #[trigger] sum_shares(s, a) == s.len() * shares,
    decreases s.len(),
{
    if s.len() == 0 {
    } else {
        let d = s.drop_last();
        lemma_sum_uniform(d, cash, shares, plen);
        assert(sum_cash(s) == sum_cash(d) + cash);
        assert(d.len() * cash + cash == s.len() * cash) by (nonlinear_arith)
            requires
                d.len() + 1 == s.len(),
        ;
        assert forall|a: int| 0 <= a < plen implies #[trigger] sum_shares(s, a) == s.len() * shares by {
            assert(sum_shares(s, a) == sum_shares(d, a) + shares);
            assert(d.len() * shares + shares == s.len() * shares) by (nonlinear_arith)
                requires
                    d.len() + 1 == s.len(),
            ;
        }
    }
}

} // verus!
