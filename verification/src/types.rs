//! The data model: traders, orders, order books, per-asset market state,
//! and the mathematical ledger model that the contracts speak of.

use vstd::prelude::*;

verus! {

/// A single-unit order resting in an order book for one day.
#[derive(Clone, Copy, PartialEq, Eq, Structural, Debug)]
pub struct Order {
    /// Index of the submitting trader in the trader ledger.
    pub trader: usize,
    /// Limit price, in the simulation's integer price unit; never negative
    /// for orders produced by intent generation.
    pub price: i64,
    /// Order quantity; the engine supports exactly 1 and fails otherwise.
    pub qty: u32,
}

/// One asset's transient order book, rebuilt and cleared every day.
pub struct OrderBook {
    pub buy_orders: Vec<Order>,
    pub sell_orders: Vec<Order>,
}

/// All per-asset order books, indexed by asset id.
pub struct OrderBooks {
    pub books: Vec<OrderBook>,
}

/// A trader's durable balances: cash and one share count per asset.
pub struct Trader {
    pub cash: i64,
    pub portfolio: Vec<u32>,
}

/// The sector an asset belongs to; opaque to the matching logic.
#[derive(Clone, Copy, PartialEq, Eq, Structural, Debug)]
pub enum CompanyType {
    Tech,
    Retail,
    Finance,
    Mining,
    Industrial,
}

/// Per-asset static and derived market state.
pub struct AssetMarket {
    pub symbol: String,
    /// Price of the most recent trading day with at least one trade,
    /// or the day-zero price; never negative.
    pub last_price: i64,
    /// Append-only price history; index = day number.
    pub history: Vec<i64>,
    /// The previous day's full sorted buy list, kept for reporting.
    pub buy_orders_last_day: Vec<Order>,
    /// The previous day's full sorted sell list, kept for reporting.
    pub sell_orders_last_day: Vec<Order>,
    pub trades_last_day: u32,
    pub company_type: CompanyType,
    /// Display colour, passed through untouched for the reporting boundary.
    pub color: u32,
}

/// All per-asset market states, indexed by asset id.
pub struct Markets {
    pub assets: Vec<AssetMarket>,
}

/// The simulated day counter.
#[derive(Clone, Copy, PartialEq, Eq, Structural, Debug)]
pub struct Day(pub u32);

/// Why matching stopped fatally. The simulation never recovers from these;
/// the caller is expected to abort the run, as a mis-settled book would
/// silently break the ledger invariants.
#[derive(Clone, Copy, PartialEq, Eq, Structural, Debug)]
pub enum MatchError {
    /// An order with quantity other than 1 reached the matching stage.
    UnsupportedQuantity,
    /// A trade would pair a trader with themselves.
    SelfTrade,
    /// An order references a trader index outside the ledger.
    UnknownTrader,
    /// A matched seller holds no share of the asset.
    NoShares,
    /// A settlement step would leave the representable cash or share range.
    Overflow,
}

/// The mathematical image of one trader: unbounded integers, one share
/// count per asset.
pub struct TraderModel {
    pub cash: int,
    pub portfolio: Seq<int>,
}

/// The mathematical image of one trader record.
pub open spec fn trader_model(t: Trader) -> TraderModel {
    TraderModel { cash: t.cash as int, portfolio: t.portfolio@.map_values(|x: u32| x as int) }
}

/// The mathematical image of the whole ledger.
pub open spec fn ledger_model(s: Seq<Trader>) -> Seq<TraderModel> {
    s.map_values(|t: Trader| trader_model(t))
}

/// Total cash held across all traders.
pub open spec fn sum_cash(s: Seq<TraderModel>) -> int
    decreases s.len(),
{
    if s.len() == 0 {
        0
    } else {
        sum_cash(s.drop_last()) + s.last().cash
    }
}

/// Total shares of asset `a` held across all traders.
pub open spec fn sum_shares(s: Seq<TraderModel>, a: int) -> int
    decreases s.len(),
{
    if s.len() == 0 {
        0
    } else {
        sum_shares(s.drop_last(), a) + s.last().portfolio[a]
    }
}

/// Replacing one trader changes the cash total by exactly the difference
/// at that position.
pub proof fn lemma_sum_cash_update(s: Seq<TraderModel>, i: int, t: TraderModel)
    requires
        0 <= i < s.len(),
    ensures
        sum_cash(s.update(i, t)) == sum_cash(s) - s[i].cash + t.cash,
    decreases s.len(),
{
    let u = s.update(i, t);
    if i == s.len() - 1 {
        assert(u.drop_last() =~= s.drop_last());
        assert(u.last() == t);
    } else {
        assert(u.drop_last() =~= s.drop_last().update(i, t));
        assert(u.last() == s.last());
        lemma_sum_cash_update(s.drop_last(), i, t);
    }
}

/// Replacing one trader changes the share total of each asset by exactly
/// the difference at that position.
pub proof fn lemma_sum_shares_update(s: Seq<TraderModel>, i: int, t: TraderModel, a: int)
    requires
        0 <= i < s.len(),
    ensures
        sum_shares(s.update(i, t), a) == sum_shares(s, a) - s[i].portfolio[a] + t.portfolio[a],
    decreases s.len(),
{
    let u = s.update(i, t);
    if i == s.len() - 1 {
        assert(u.drop_last() =~= s.drop_last());
        assert(u.last() == t);
    } else {
        assert(u.drop_last() =~= s.drop_last().update(i, t));
        assert(u.last() == s.last());
        lemma_sum_shares_update(s.drop_last(), i, t, a);
    }
}

/// With every holding non-negative, one trader's holding of an asset never
/// exceeds the asset's share total.
pub proof fn lemma_share_le_sum(s: Seq<TraderModel>, a: int, i: int)
    requires
        0 <= i < s.len(),
        forall|j: int| 0 <= j < s.len() ==> #[trigger] s[j].portfolio[a] >= 0,
    ensures
        s[i].portfolio[a] <= sum_shares(s, a),
    decreases s.len(),
{
    if i == s.len() - 1 {
        lemma_sum_shares_nonneg(s.drop_last(), a);
    } else {
        lemma_share_le_sum(s.drop_last(), a, i);
        assert(s.drop_last()[i] == s[i]);
    }
}

/// A sum of non-negative holdings is non-negative.
pub proof fn lemma_sum_shares_nonneg(s: Seq<TraderModel>, a: int)
    requires
        forall|j: int| 0 <= j < s.len() ==> #[trigger] s[j].portfolio[a] >= 0,
    ensures
        sum_shares(s, a) >= 0,
    decreases s.len(),
{
    if s.len() > 0 {
        lemma_sum_shares_nonneg(s.drop_last(), a);
    }
}

/// The ledger model mirrors an in-place trader replacement.
pub proof fn lemma_ledger_model_update(s: Seq<Trader>, i: int, tr: Trader)
    requires
        0 <= i < s.len(),
    ensures
        ledger_model(s.update(i, tr)) == ledger_model(s).update(i, trader_model(tr)),
{
    assert(ledger_model(s.update(i, tr)) =~= ledger_model(s).update(i, trader_model(tr)));
}

/// The trader model mirrors an in-place portfolio entry update.
pub proof fn lemma_portfolio_update(v: Seq<u32>, a: int, x: u32)
    requires
        0 <= a < v.len(),
    ensures
        v.update(a, x).map_values(|y: u32| y as int) == v.map_values(|y: u32| y as int).update(
            a,
            x as int,
        ),
{
    assert(v.update(a, x).map_values(|y: u32| y as int) =~= v.map_values(
        |y: u32| y as int,
    ).update(a, x as int));
}

/// Removing an element and putting one back at the same position is an
/// in-place replacement.
pub proof fn lemma_remove_insert<T>(s: Seq<T>, i: int, x: T)
    requires
        0 <= i < s.len(),
    ensures
        s.remove(i).insert(i, x) == s.update(i, x),
{
    assert(s.remove(i).insert(i, x) =~= s.update(i, x));
}

/// Every order in the sequence has a non-negative price.
pub open spec fn orders_nonneg(s: Seq<Order>) -> bool {
    forall|i: int| 0 <= i < s.len() ==> (#[trigger] s[i]).price >= 0
}

/// One asset's report line in a day-end summary.
#[derive(Clone, Copy, PartialEq, Eq, Structural, Debug)]
pub struct AssetSummary {
    pub last_price: i64,
    pub trades: u32,
    pub buy_count: u32,
    pub sell_count: u32,
}

/// The observable record emitted after each completed day.
pub struct DaySummary {
    pub day: u32,
    pub assets: Vec<AssetSummary>,
}

} // verus!
